pub mod asset;
pub mod join;
pub mod plugin;
pub mod prefab;
pub mod registry;
pub mod topology;
pub mod world;
