use vstd::prelude::*;

verus! {

/// A dynamically supplied extension: loaders hand the core a boxed value of
/// this trait, announce it on load, and announce it again before unloading.
/// The loading itself lives with the host application.
pub trait Plugin {
    fn name(&self) -> &'static str;

    fn on_load(&self) {
    }

    fn on_unload(&self) {
    }
}

} // verus!
