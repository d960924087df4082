//! The `k` largest elements of a sequence, kept in a min-heap of at most
//! `k` elements: each later element that beats the heap's smallest
//! replaces it.
use vstd::multiset::Multiset;
use vstd::prelude::*;

use crate::heap::MinHeap;

verus! {

broadcast use {vstd::seq_lib::group_to_multiset_ensures, vstd::multiset::group_multiset_axioms};

/// The `k` largest elements of `nums` (all of them when there are fewer),
/// in a min-heap. The elements split into those kept and those left out,
/// and no element left out is larger than one kept.
pub fn top_k_heap(nums: &[i32], k: usize) -> (r: MinHeap)
    ensures
        r.wf(),
        r@.len() == if nums@.len() < k { nums@.len() } else { k as nat },
        exists|out: Multiset<i32>|
            #[trigger] r@.add(out) == nums@.to_multiset() && forall|x: i32, y: i32|
                r@.contains(x) && out.contains(y) ==> y <= x,
{
    let mut heap = MinHeap::new();
    let ghost mut out = Multiset::<i32>::empty();
    let mut i: usize = 0;
    while i < nums.len()
        invariant
            i <= nums@.len(),
            heap.wf(),
            heap@.len() == if i < k { i as nat } else { k as nat },
            heap@.add(out) == nums@.subrange(0, i as int).to_multiset(),
            forall|x: i32, y: i32| heap@.contains(x) && out.contains(y) ==> y <= x,
        decreases nums@.len() - i,
    {
        let num = nums[i];
        proof {
            assert(nums@.subrange(0, i + 1) =~= nums@.subrange(0, i as int).push(num));
        }
        if k > heap.len() {
            proof {
                vstd::seq_lib::to_multiset_len(nums@.subrange(0, i as int));
                assert(out.len() == 0);
                assert(out =~= Multiset::<i32>::empty());
            }
            heap.push(num);
            proof {
                assert(heap@.add(out) =~= nums@.subrange(0, i + 1).to_multiset());
                assert forall|x: i32, y: i32| heap@.contains(x) && out.contains(y) implies y <= x by {
                    assert(!out.contains(y));
                }
            }
        } else {
            match heap.peek() {
                None => {
                    proof {
                        let before_out = out;
                        out = out.insert(num);
                        assert(heap@.add(out) =~= nums@.subrange(0, i + 1).to_multiset());
                        assert forall|x: i32, y: i32| heap@.contains(x) && out.contains(y) implies y <= x by {
                            assert(heap@.len() == 0);
                        }
                    }
                },
                Some(top) => {
                    let top = *top;
                    if num > top {
                        let ghost before = heap@;
                        let ghost before_out = out;
                        heap.pop();
                        heap.push(num);
                        proof {
                            out = out.insert(top);
                            assert(heap@ =~= before.remove(top).insert(num));
                            assert(heap@.add(out) =~= nums@.subrange(0, i + 1).to_multiset());
                            assert forall|x: i32, y: i32| heap@.contains(x) && out.contains(y) implies y <= x by {
                                assert(before.contains(top));
                                if x != num {
                                    assert(before.remove(top).contains(x));
                                    assert(before.contains(x));
                                    assert(top <= x);
                                }
                                if y != top {
                                    assert(before_out.contains(y));
                                    assert(y <= top);
                                }
                            }
                        }
                    } else {
                        proof {
                            let before_out = out;
                            out = out.insert(num);
                            assert(heap@.add(out) =~= nums@.subrange(0, i + 1).to_multiset());
                            assert forall|x: i32, y: i32| heap@.contains(x) && out.contains(y) implies y <= x by {
                                if y != num {
                                    assert(before_out.contains(y));
                                }
                            }
                        }
                    }
                },
            }
        }
        i = i + 1;
    }
    proof {
        assert(nums@.subrange(0, nums@.len() as int) =~= nums@);
    }
    heap
}

} // verus!
