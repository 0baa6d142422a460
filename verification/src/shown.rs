//! What the textual form of a bitmap shows: its values when it holds fewer
//! than 32 of them, else how many values it holds and its least and greatest.
use crate::bitmap::{strictly_increasing, Bitmap};
use crate::bitmap64::Bitmap64;
use crate::treemap::{strictly_increasing64, Treemap};
use vstd::prelude::*;

verus! {

/// Below this many values, the textual form lists them all.
pub const LISTED_BELOW: u64 = 32;

/// What the textual form of a bitmap shows.
pub enum Shown<T> {
    /// All the values, in increasing order.
    Values(Vec<T>),
    /// The number of values, the least one and the greatest one.
    Summary { count: u64, min: T, max: T },
}

impl Bitmap {
    /// What the textual form of the bitmap shows.
    pub fn shown(&self) -> (r: Shown<u32>)
        ensures
            self@.len() < LISTED_BELOW ==> (r matches Shown::Values(v) && strictly_increasing(v@) && forall|x: u32|
                #[trigger] v@.contains(x) <==> self@.contains(x)),
            self@.len() >= LISTED_BELOW ==> (r matches Shown::Summary { count, min, max } && count == self@.len()
                && self@.contains(min) && self@.contains(max) && forall|y: u32| #[trigger] self@.contains(y) ==> min <= y
                <= max),
    {
        let count = self.cardinality();
        if count < LISTED_BELOW {
            Shown::Values(self.to_vec())
        } else {
            proof {
                if self@ == Set::<u32>::empty() {
                    assert(self@.len() == 0);
                }
            }
            let min = self.minimum().unwrap();
            let max = self.maximum().unwrap();
            Shown::Summary { count, min, max }
        }
    }
}

impl Treemap {
    /// What the textual form of the treemap shows.
    pub fn shown(&self) -> (r: Shown<u64>)
        requires
            self@.len() <= u64::MAX,
        ensures
            self@.len() < LISTED_BELOW ==> (r matches Shown::Values(v) && strictly_increasing64(v@) && forall|x: u64|
                #[trigger] v@.contains(x) <==> self@.contains(x)),
            self@.len() >= LISTED_BELOW ==> (r matches Shown::Summary { count, min, max } && count == self@.len()
                && self@.contains(min) && self@.contains(max) && forall|y: u64| #[trigger] self@.contains(y) ==> min <= y
                <= max),
    {
        let count = self.cardinality();
        if count < LISTED_BELOW {
            Shown::Values(self.to_vec())
        } else {
            proof {
                if self@ == Set::<u64>::empty() {
                    assert(self@.len() == 0);
                }
            }
            let min = self.minimum().unwrap();
            let max = self.maximum().unwrap();
            Shown::Summary { count, min, max }
        }
    }
}

impl Bitmap64 {
    /// What the textual form of the bitmap shows.
    pub fn shown(&self) -> (r: Shown<u64>)
        requires
            self@.len() <= u64::MAX,
        ensures
            self@.len() < LISTED_BELOW ==> (r matches Shown::Values(v) && strictly_increasing64(v@) && forall|x: u64|
                #[trigger] v@.contains(x) <==> self@.contains(x)),
            self@.len() >= LISTED_BELOW ==> (r matches Shown::Summary { count, min, max } && count == self@.len()
                && self@.contains(min) && self@.contains(max) && forall|y: u64| #[trigger] self@.contains(y) ==> min <= y
                <= max),
    {
        let count = self.cardinality();
        if count < LISTED_BELOW {
            Shown::Values(self.to_vec())
        } else {
            proof {
                if self@ == Set::<u64>::empty() {
                    assert(self@.len() == 0);
                }
            }
            let min = self.minimum().unwrap();
            let max = self.maximum().unwrap();
            Shown::Summary { count, min, max }
        }
    }
}

} // verus!
