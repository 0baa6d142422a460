//! Several unions and symmetric differences applied to a bitmap in one
//! batch.
use crate::bitmap::{sym_diff, Bitmap};
use vstd::prelude::*;

verus! {

/// A handle on a bitmap that takes unions and symmetric differences. It holds
/// the bitmap for the length of the batch.
pub struct LazyBitmap {
    bitmap: Bitmap,
}

impl LazyBitmap {
    /// The values the bitmap holds now.
    pub closed spec fn values(&self) -> Set<u32> {
        self.bitmap@
    }

    /// Modifies the bitmap to be the union of the two bitmaps; how the
    /// containers are stored is up to this library, so `force_bitsets` is
    /// only a hint
    pub fn or_inplace(&mut self, other: &Bitmap, force_bitsets: bool) -> (r: &mut Self)
        ensures
            r.values() == old(self).values().union(other@),
            final(self).values() == final(r).values(),
    {
        let _ = force_bitsets;
        self.bitmap.or_inplace(other);
        self
    }

    /// Modifies the bitmap to be the symmetric difference of the two bitmaps
    pub fn xor_inplace(&mut self, other: &Bitmap) -> (r: &mut Self)
        ensures
            r.values() == sym_diff(old(self).values(), other@),
            final(self).values() == final(r).values(),
    {
        self.bitmap.xor_inplace(other);
        self
    }
}

impl Bitmap {
    /// Performs several unions and symmetric differences through a handle
    /// given to `f`; returns what `f` returns.
    pub fn lazy_batch<F, O>(&mut self, f: F) -> (r: O)
        where
            F: FnOnce(&mut LazyBitmap) -> O,
        requires
            forall|l: &mut LazyBitmap| #[trigger] call_requires(f, (l,)),
        ensures
            exists|l: &mut LazyBitmap|
                #[trigger] call_ensures(f, (l,), r) && (*l).values() == old(self)@ && (*final(l)).values()
                    == final(self)@,
    {
        let mut inner = Bitmap::new();
        std::mem::swap(self, &mut inner);
        let mut lazy = LazyBitmap { bitmap: inner };
        let ghost before = lazy;
        let r = f(&mut lazy);
        assert(exists|l: &mut LazyBitmap| call_ensures(f, (l,), r) && *l == before && *final(l) == lazy);
        *self = lazy.bitmap;
        r
    }
}

} // verus!
