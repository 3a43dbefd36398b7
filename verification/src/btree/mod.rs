use vstd::prelude::*;

pub mod btree;
pub mod laws;
pub mod lemmas;
pub mod node;
pub mod order;

use order::{key_lt, strictly_sorted, total_order};

verus! {

/// What a search for `item` in `items` may answer.
///
/// `Ok(i)` names a position that holds `item`.  `Err(p)` names a position of
/// the sequence or its end; in a strictly ascending sequence it says that
/// `item` does not occur, and `p` is the one position at which `item` can be
/// inserted so that the sequence stays ascending.
pub open spec fn search_result<T: PartialOrd>(items: Seq<T>, item: T, r: Result<usize, usize>) -> bool {
    match r {
        Ok(i) => i < items.len() && (total_order::<T>() ==> items[i as int] == item),
        Err(p) => {
            &&& p <= items.len()
            &&& total_order::<T>() && strictly_sorted(items) ==> {
                &&& forall|j: int| 0 <= j < p ==> key_lt(#[trigger] items[j], item)
                &&& forall|j: int| p <= j < items.len() ==> key_lt(item, #[trigger] items[j])
            }
        },
    }
}

/// An ordered collection that can be searched for an item.
pub trait Searchable<T: PartialOrd> {
    /// The items of the collection, in their stored order.
    spec fn items(&self) -> Seq<T>;

    /// Looks for `item`: `Ok` with a position that holds it, or `Err` with the
    /// position at which it would have to be inserted.
    fn search(&self, item: T) -> (r: Result<usize, usize>)
        ensures
            search_result(self.items(), item, r),
    ;
}

impl<T: PartialOrd> Searchable<T> for Vec<T> {
    open spec fn items(&self) -> Seq<T> {
        self@
    }

    fn search(&self, item: T) -> (r: Result<usize, usize>) {
        let mut lo: usize = 0;
        let mut hi: usize = self.len();
        while lo < hi
            invariant
                lo <= hi <= self.len(),
                total_order::<T>() && strictly_sorted(self@) ==> {
                    &&& forall|j: int| 0 <= j < lo ==> key_lt(#[trigger] self@[j], item)
                    &&& forall|j: int| hi <= j < self.len() ==> key_lt(item, #[trigger] self@[j])
                },
            decreases hi - lo,
        {
            let mid: usize = lo + (hi - lo) / 2;
            if self[mid] == item {
                proof {
                    reveal(total_order);
                }
                return Ok(mid);
            } else if self[mid] < item {
                proof {
                    reveal(total_order);
                    if total_order::<T>() && strictly_sorted(self@) {
                        assert(key_lt(self@[mid as int], item));
                        assert forall|j: int| 0 <= j < mid + 1 implies key_lt(#[trigger] self@[j], item) by {
                            if j < mid {
                                assert(key_lt(self@[j], self@[mid as int]));
                            }
                        }
                    }
                }
                lo = mid + 1;
            } else {
                proof {
                    reveal(total_order);
                    if total_order::<T>() && strictly_sorted(self@) {
                        assert(!key_lt(self@[mid as int], item));
                        assert(self@[mid as int] != item);
                        assert(key_lt(item, self@[mid as int]));
                        assert forall|j: int| mid <= j < self.len() implies key_lt(item, #[trigger] self@[j]) by {
                            if mid < j {
                                assert(key_lt(self@[mid as int], self@[j]));
                            }
                        }
                    }
                }
                hi = mid;
            }
        }
        Err(lo)
    }
}

} // verus!
