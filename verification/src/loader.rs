//! How to load missing cache entries.

use vstd::prelude::*;

verus! {

/// Loader for missing cache entries, over a key, value and extra-data type.
/// The cache runs at most one load per key at a time; implementations are
/// expected to retry internally until they can answer.
pub trait Loader<K, V, Extra> {
    /// When the loader may be asked for this key.
    spec fn load_pre(&self, k: K, extra: Extra) -> bool;

    /// What the loader promises of a loaded value.
    spec fn load_post(&self, k: K, extra: Extra, v: V) -> bool;

    /// Load the value for the given key, using the extra data if needed.
    fn load(&self, k: K, extra: Extra) -> (v: V)
        requires
            self.load_pre(k, extra),
        ensures
            self.load_post(k, extra, v),
    ;
}

/// Wrapper that lets a plain function act as a [`Loader`].
pub struct FunctionLoader<T> {
    /// The load function.
    pub loader: T,
}

impl<T> FunctionLoader<T> {
    /// Create a loader from a function.
    pub fn new(loader: T) -> Self {
        FunctionLoader { loader }
    }
}

impl<T, K, V, Extra> Loader<K, V, Extra> for FunctionLoader<T> where T: Fn(K, Extra) -> V {
    open spec fn load_pre(&self, k: K, extra: Extra) -> bool {
        call_requires(self.loader, (k, extra))
    }

    open spec fn load_post(&self, k: K, extra: Extra, v: V) -> bool {
        call_ensures(self.loader, (k, extra), v)
    }

    fn load(&self, k: K, extra: Extra) -> (v: V) {
        (self.loader)(k, extra)
    }
}

} // verus!
