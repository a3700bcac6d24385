//! Coalescing: a free block takes in its free neighbours in the chain.

use vstd::prelude::*;
use crate::allocator::SpeedAllocator;
use crate::block::BlockState;
use crate::mapping::CLASS_COUNT;
use crate::mapping::class_index;
use crate::model::PoolModel;
use crate::model::Region;

verus! {

impl SpeedAllocator {
    /// `post` is `pre` with the used block `block` marked free: its region
    /// is all that it covers.
    #[verifier::opaque]
    pub(crate) open spec fn freed(pre: &Self, post: &Self, block: usize) -> bool {
        let b = pre.blocks@[block as int];
        let a = post.blocks@[block as int];
        &&& post.pool_base == pre.pool_base
        &&& post.pool_size == pre.pool_size
        &&& post.vacant@ == pre.vacant@
        &&& post.bins@ == pre.bins@
        &&& post.bin_bitmap == pre.bin_bitmap
        &&& post.sub_bin_bitmap@ == pre.sub_bin_bitmap@
        &&& post.num_allocation == pre.num_allocation
        &&& post.num_free_block == pre.num_free_block
        &&& post.chain@ == pre.chain@
        &&& post.lists@ == pre.lists@
        &&& post.blocks@.len() == pre.blocks@.len()
        &&& forall|i: int|
            0 <= i < pre.blocks@.len() && i != block ==> #[trigger] post.blocks@[i] == pre.blocks@[i]
        &&& a.offset == b.start()
        &&& a.size == b.end() - b.start()
        &&& a.adjustment == 0
        &&& a.slack == 0
        &&& a.state == BlockState::Free
        &&& a.prev_free == b.prev_free
        &&& a.next_free == b.next_free
        &&& a.prev_physical == b.prev_physical
        &&& a.next_physical == b.next_physical
    }

    /// All is in order after a used block has been marked free, but for that
    /// block, which floats.
    #[verifier::rlimit(40)]
    pub(crate) proof fn lemma_freed(pre: &Self, post: &Self, block: usize)
        requires
            pre.inv(Set::empty()),
            pre.used_ids().contains(block),
            Self::freed(pre, post, block),
        ensures
            post.inv(Set::<usize>::empty().insert(block)),
            post.used_ids() == pre.used_ids().remove(block),
            post.free_at(block),
            post.live(block),
            post.model().chain == pre.model().chain.update(
                pre.chain@.index_of(block),
                Region {
                    handle: block,
                    start: pre.region_of(block).start,
                    offset: pre.region_of(block).start,
                    size: (pre.region_of(block).end - pre.region_of(block).start) as u64,
                    end: pre.region_of(block).end,
                    free: true,
                },
            ),
            post.model().pool_base == pre.model().pool_base,
            post.model().pool_size == pre.model().pool_size,
            post.model().lists == pre.model().lists,
    {
        reveal(SpeedAllocator::inv_chain);
        reveal(SpeedAllocator::inv_vacant);
        reveal(SpeedAllocator::inv_lists);
        reveal(SpeedAllocator::inv_bitmaps);
        reveal(SpeedAllocator::inv_coalesced);
        reveal(SpeedAllocator::freed);
        let none = Set::<usize>::empty();
        let f2 = none.insert(block);
        assert(pre.live(block));
        let k = pre.lemma_neighbours(block);
        assert forall|x: int| 0 <= x < post.chain@.len() implies post.block_ok(
            #[trigger] post.chain@[x],
        ) by {
            assert(pre.block_ok(pre.chain@[x]));
        }
        assert forall|i: usize| #[trigger] post.live(i) implies post.chain@.contains(i) by {
            assert(pre.live(i));
        }
        assert forall|x: int, x2: int|
            0 <= x && x2 == x + 1 && x2 < post.chain@.len() implies post.linked(
            #[trigger] post.chain@[x],
            #[trigger] post.chain@[x2],
        ) by {
            assert(pre.linked(pre.chain@[x], pre.chain@[x2]));
            assert(pre.block_ok(pre.chain@[x]));
            assert(pre.block_ok(pre.chain@[x2]));
        }
        assert(pre.block_ok(pre.chain@[0]));
        assert(pre.block_ok(pre.chain@.last()));
        assert(post.inv_chain());
        assert(post.inv_vacant()) by {
            assert forall|j: int| 0 <= j < post.vacant@.len() implies (#[trigger] post.vacant@[j])
                < post.blocks@.len() && post.blocks@[post.vacant@[j] as int].state
                == BlockState::Vacant by {
                assert(pre.vacant@[j] < pre.blocks@.len());
            }
        }
        assert forall|d: int, j: int|
            0 <= d < CLASS_COUNT && 0 <= j < post.lists@[d].len() implies post.listed_ok(
            d,
            #[trigger] post.lists@[d][j],
            f2,
        ) by {
            assert(pre.listed_ok(d, pre.lists@[d][j], none));
        }
        assert forall|d: int| 0 <= d < CLASS_COUNT implies #[trigger] post.head_ok(d) by {
            assert(pre.head_ok(d));
            let list = pre.lists@[d];
            if list.len() > 0 {
                assert(pre.listed_ok(d, list[0], none));
                assert(pre.listed_ok(d, list[list.len() - 1], none));
            }
        }
        assert forall|d: int, j: int, j2: int|
            0 <= d < CLASS_COUNT && 0 <= j && j2 == j + 1 && j2 < post.lists@[d].len()
            implies post.free_linked(#[trigger] post.lists@[d][j], #[trigger] post.lists@[d][j2]) by {
            assert(pre.free_linked(pre.lists@[d][j], pre.lists@[d][j2]));
            assert(pre.listed_ok(d, pre.lists@[d][j], none));
            assert(pre.listed_ok(d, pre.lists@[d][j2], none));
        }
        assert forall|i: usize| #[trigger] post.free_at(i) && !f2.contains(i) implies post.lists@[class_index(
            post.blocks@[i as int].size,
        )].contains(i) by {
            assert(pre.free_at(i));
        }
        assert(post.inv_lists(f2));
        assert(post.inv_bitmaps());
        assert forall|x: int, x2: int|
            0 <= x && x2 == x + 1 && x2 < post.chain@.len() implies !(post.free_at(
            #[trigger] post.chain@[x],
        ) && post.free_at(#[trigger] post.chain@[x2]) && !f2.contains(post.chain@[x])
            && !f2.contains(post.chain@[x2])) by {
            assert(!(pre.free_at(pre.chain@[x]) && pre.free_at(pre.chain@[x2]) && !none.contains(
                pre.chain@[x],
            ) && !none.contains(pre.chain@[x2])));
        }
        assert(post.listed_ids(f2) =~= pre.listed_ids(none));
        assert(post.used_ids() =~= pre.used_ids().remove(block));
        let target = pre.model().chain.update(
            k,
            Region {
                handle: block,
                start: pre.region_of(block).start,
                offset: pre.region_of(block).start,
                size: (pre.region_of(block).end - pre.region_of(block).start) as u64,
                end: pre.region_of(block).end,
                free: true,
            },
        );
        assert forall|x: int| 0 <= x < pre.chain@.len() implies post.model().chain[x] == target[x] by {
            assert(pre.block_ok(pre.chain@[x]));
            if x < k {
                assert(pre.chain@[x] != pre.chain@[k]);
            } else if x > k {
                assert(pre.chain@[k] != pre.chain@[x]);
            }
        }
        assert(post.model().chain =~= target);
    }

    /// `post` is `pre` with the floating free block `gone`, the neighbour of
    /// the floating free block `block` in the chain (the one before it where
    /// `back` holds, else the one after it), taken into `block` and its
    /// record released.
    #[verifier::opaque]
    pub(crate) open spec fn absorbed(
        pre: &Self,
        post: &Self,
        block: usize,
        gone: usize,
        k: int,
        back: bool,
    ) -> bool {
        let b = pre.blocks@[block as int];
        let g = pre.blocks@[gone as int];
        let a = post.blocks@[block as int];
        let at = if back {
            k - 1
        } else {
            k + 1
        };
        &&& post.pool_base == pre.pool_base
        &&& post.pool_size == pre.pool_size
        &&& post.bins@ == pre.bins@
        &&& post.bin_bitmap == pre.bin_bitmap
        &&& post.sub_bin_bitmap@ == pre.sub_bin_bitmap@
        &&& post.num_allocation == pre.num_allocation
        &&& post.num_free_block == pre.num_free_block
        &&& post.lists@ == pre.lists@
        &&& 0 <= k < pre.chain@.len()
        &&& 0 <= at < pre.chain@.len()
        &&& pre.chain@[k] == block
        &&& pre.chain@[at] == gone
        &&& block != gone
        &&& post.chain@ == pre.chain@.remove(at)
        &&& post.blocks@.len() == pre.blocks@.len()
        &&& post.vacant@ == pre.vacant@.push(gone)
        &&& post.blocks@[gone as int].state == BlockState::Vacant
        &&& a.offset == (if back {
            g.offset
        } else {
            b.offset
        })
        &&& a.size == b.size + g.size
        &&& a.adjustment == b.adjustment
        &&& a.slack == b.slack
        &&& a.state == b.state
        &&& a.prev_free == b.prev_free
        &&& a.next_free == b.next_free
        &&& a.prev_physical == (if back {
            g.prev_physical
        } else {
            b.prev_physical
        })
        &&& a.next_physical == (if back {
            b.next_physical
        } else {
            g.next_physical
        })
        &&& forall|i: usize|
            i < pre.blocks@.len() && i != block && i != gone ==> {
                let x = #[trigger] post.blocks@[i as int];
                let y = pre.blocks@[i as int];
                &&& x.size == y.size
                &&& x.offset == y.offset
                &&& x.adjustment == y.adjustment
                &&& x.slack == y.slack
                &&& x.state == y.state
                &&& x.prev_free == y.prev_free
                &&& x.next_free == y.next_free
                &&& x.prev_physical == (if !back && g.next_physical == Some(i) {
                    Some(block)
                } else {
                    y.prev_physical
                })
                &&& x.next_physical == (if back && g.prev_physical == Some(i) {
                    Some(block)
                } else {
                    y.next_physical
                })
            }
    }

    /// The free lists, the bitmaps, the vacant slots and the counts are in
    /// order after a block has taken in a neighbour.
    #[verifier::rlimit(40)]
    pub(crate) proof fn lemma_absorbed_lists(
        pre: &Self,
        post: &Self,
        block: usize,
        gone: usize,
        k: int,
        back: bool,
        floating: Set<usize>,
    )
        requires
            pre.inv(floating),
            floating.contains(block),
            floating.contains(gone),
            Self::absorbed(pre, post, block, gone, k, back),
        ensures
            post.inv_shape(),
            post.inv_vacant(),
            post.inv_lists(floating.remove(gone)),
            post.inv_bitmaps(),
            post.listed_ids(floating.remove(gone)) == pre.listed_ids(floating),
            post.used_ids() == pre.used_ids(),
            post.num_allocation == pre.num_allocation,
            post.num_free_block == pre.num_free_block,
            post.model().lists == pre.model().lists,
            post.model().pool_base == pre.model().pool_base,
            post.model().pool_size == pre.model().pool_size,
    {
        reveal(SpeedAllocator::inv_vacant);
        reveal(SpeedAllocator::inv_lists);
        reveal(SpeedAllocator::inv_bitmaps);
        reveal(SpeedAllocator::absorbed);
        let f2 = floating.remove(gone);
        assert(pre.free_at(block));
        assert(pre.free_at(gone));
        pre.lemma_floating_unlisted(floating, block);
        pre.lemma_floating_unlisted(floating, gone);
        assert forall|i: usize| i != block && i != gone implies post.free_at(i) == pre.free_at(i) by {
            if i < pre.blocks@.len() {
                let r = post.blocks@[i as int];
            }
        }
        assert(post.inv_vacant()) by {
            assert forall|j: int| 0 <= j < post.vacant@.len() implies (#[trigger] post.vacant@[j])
                < post.blocks@.len() && post.blocks@[post.vacant@[j] as int].state
                == BlockState::Vacant by {
                if j < pre.vacant@.len() {
                    let v = pre.vacant@[j];
                    assert(v < pre.blocks@.len());
                    let r = post.blocks@[v as int];
                }
            }
            assert forall|j1: int, j2: int| 0 <= j1 < j2 < post.vacant@.len() implies #[trigger] post.vacant@[j1]
                != #[trigger] post.vacant@[j2] by {
                assert(pre.vacant@[j1] < pre.blocks@.len());
                if j2 < pre.vacant@.len() {
                    assert(pre.vacant@[j1] != pre.vacant@[j2]);
                }
            }
        }
        assert forall|d: int, j: int|
            0 <= d < CLASS_COUNT && 0 <= j < post.lists@[d].len() implies post.listed_ok(
            d,
            #[trigger] post.lists@[d][j],
            f2,
        ) && post.blocks@[post.lists@[d][j] as int].prev_free == pre.blocks@[post.lists@[d][j] as int].prev_free
            && post.blocks@[post.lists@[d][j] as int].next_free
            == pre.blocks@[post.lists@[d][j] as int].next_free by {
            assert(pre.listed_ok(d, pre.lists@[d][j], floating));
            let r = post.blocks@[pre.lists@[d][j] as int];
        }
        assert forall|d: int| 0 <= d < CLASS_COUNT implies #[trigger] post.head_ok(d) by {
            assert(pre.head_ok(d));
            let list = pre.lists@[d];
            if list.len() > 0 {
                assert(post.listed_ok(d, post.lists@[d][0], f2));
                assert(post.listed_ok(d, post.lists@[d][list.len() - 1], f2));
            }
        }
        assert forall|d: int, j: int, j2: int|
            0 <= d < CLASS_COUNT && 0 <= j && j2 == j + 1 && j2 < post.lists@[d].len()
            implies post.free_linked(#[trigger] post.lists@[d][j], #[trigger] post.lists@[d][j2]) by {
            assert(pre.free_linked(pre.lists@[d][j], pre.lists@[d][j2]));
            assert(post.listed_ok(d, post.lists@[d][j], f2));
            assert(post.listed_ok(d, post.lists@[d][j2], f2));
        }
        assert forall|i: usize| #[trigger] post.free_at(i) && !f2.contains(i) implies post.lists@[class_index(
            post.blocks@[i as int].size,
        )].contains(i) by {
            let r = post.blocks@[i as int];
            assert(pre.free_at(i));
        }
        assert forall|i: usize| f2.contains(i) implies #[trigger] post.free_at(i) by {
            assert(pre.free_at(i));
            if i != block {
                let r = post.blocks@[i as int];
            }
        }
        assert(post.inv_lists(f2));
        assert(post.inv_bitmaps());
        assert(post.listed_ids(f2) =~= pre.listed_ids(floating)) by {
            assert forall|i: usize| post.listed_ids(f2).contains(i) == pre.listed_ids(
                floating,
            ).contains(i) by {
                if i != block && i != gone {
                    assert(post.free_at(i) == pre.free_at(i));
                }
            }
        }
        assert(post.used_ids() =~= pre.used_ids()) by {
            assert forall|i: usize| post.used_ids().contains(i) == pre.used_ids().contains(i) by {
                if i < pre.blocks@.len() && i != block && i != gone {
                    let r = post.blocks@[i as int];
                }
            }
        }
    }

    /// The chain is in order after a block has taken in the block before it.
    #[verifier::rlimit(40)]
    pub(crate) proof fn lemma_absorbed_back_chain(
        pre: &Self,
        post: &Self,
        block: usize,
        gone: usize,
        k: int,
        floating: Set<usize>,
    )
        requires
            pre.inv(floating),
            floating.contains(block),
            floating.contains(gone),
            pre.lonely(gone, floating.remove(gone)),
            Self::absorbed(pre, post, block, gone, k, true),
        ensures
            post.inv_chain(),
            post.chain@ == pre.chain@.remove(k - 1),
            post.live(block),
    {
        reveal(SpeedAllocator::inv_chain);
        reveal(SpeedAllocator::inv_lists);
        reveal(SpeedAllocator::absorbed);
        let f2 = floating.remove(gone);
        let old_chain = pre.chain@;
        let chain = post.chain@;
        let n = old_chain.len() as int;
        let at = k - 1;
        assert(pre.free_at(block));
        assert(pre.free_at(gone));
        assert forall|x: int| 0 <= x < n implies pre.block_ok(#[trigger] old_chain[x]) by {}
        assert forall|x: int| 0 <= x < chain.len() implies #[trigger] chain[x] == old_chain[if x < at {
            x
        } else {
            x + 1
        }] by {}
        assert forall|x: int| 0 <= x < n && x != at && x != k implies (#[trigger] old_chain[x]) != gone
            && old_chain[x] != block by {
            if x < at {
                assert(old_chain[x] != old_chain[at]);
                assert(old_chain[x] != old_chain[k]);
            } else {
                assert(old_chain[at] != old_chain[x]);
                assert(old_chain[k] != old_chain[x]);
            }
        }
        assert(pre.linked(old_chain[at], old_chain[k]));
        if at > 0 {
            assert(pre.linked(old_chain[at - 1], old_chain[at]));
        }
        if k < n - 1 {
            assert(pre.linked(old_chain[k], old_chain[k + 1]));
        }
        assert forall|x: int| 0 <= x < chain.len() implies post.block_ok(#[trigger] chain[x]) by {
            let y = if x < at {
                x
            } else {
                x + 1
            };
            assert(pre.block_ok(old_chain[y]));
            let r = post.blocks@[old_chain[y] as int];
        }
        assert forall|x1: int, x2: int| 0 <= x1 < x2 < chain.len() implies #[trigger] chain[x1]
            != #[trigger] chain[x2] by {
            let y1 = if x1 < at {
                x1
            } else {
                x1 + 1
            };
            let y2 = if x2 < at {
                x2
            } else {
                x2 + 1
            };
            assert(old_chain[y1] != old_chain[y2]);
        }
        assert forall|i: usize| #[trigger] post.live(i) implies chain.contains(i) by {
            let r = post.blocks@[i as int];
            assert(pre.live(i));
            assert(old_chain.contains(i));
            let y = choose|y: int| 0 <= y < n && old_chain[y] == i;
            if y < at {
                assert(chain[y] == i);
            } else {
                assert(chain[y - 1] == i);
            }
        }
        assert forall|x: int, x2: int| 0 <= x && x2 == x + 1 && x2 < chain.len() implies post.linked(
            #[trigger] chain[x],
            #[trigger] chain[x2],
        ) by {
            let y = if x < at {
                x
            } else {
                x + 1
            };
            let y2 = if x2 < at {
                x2
            } else {
                x2 + 1
            };
            let r = post.blocks@[old_chain[y] as int];
            let r2 = post.blocks@[old_chain[y2] as int];
            if y2 == y + 1 {
                assert(pre.linked(old_chain[y], old_chain[y2]));
                if at > 0 {
                    if y2 < at - 1 {
                        assert(old_chain[y2] != old_chain[at - 1]);
                    } else if y2 > at - 1 {
                        assert(old_chain[at - 1] != old_chain[y2]);
                    }
                    if y < at - 1 {
                        assert(old_chain[y] != old_chain[at - 1]);
                    } else if y > at - 1 {
                        assert(old_chain[at - 1] != old_chain[y]);
                    }
                }
            } else {
                assert(y == at - 1 && y2 == k);
            }
        }
        assert(post.blocks@[chain[0] as int].prev_physical.is_none() && post.blocks@[chain[0] as int].start()
            == 0) by {
            let r = post.blocks@[chain[0] as int];
            if at > 0 {
                assert(chain[0] == old_chain[0]);
            }
        }
        assert(post.blocks@[chain.last() as int].next_physical.is_none()
            && post.blocks@[chain.last() as int].end() == post.pool_size) by {
            assert(chain.last() == chain[n - 2]);
            assert(chain[n - 2] == old_chain[n - 1]);
            assert(old_chain.last() == old_chain[n - 1]);
            let r = post.blocks@[old_chain[n - 1] as int];
            if at > 0 && k < n - 1 {
                assert(old_chain[at - 1] != old_chain[n - 1]);
            }
        }
        assert(post.inv_chain());
    }

    /// No two neighbours are both free and listed after a block has taken in
    /// the block before it, and the block has no such block before it.
    #[verifier::rlimit(40)]
    pub(crate) proof fn lemma_absorbed_back_free(
        pre: &Self,
        post: &Self,
        block: usize,
        gone: usize,
        k: int,
        floating: Set<usize>,
    )
        requires
            pre.inv(floating),
            floating.contains(block),
            floating.contains(gone),
            pre.lonely(gone, floating.remove(gone)),
            Self::absorbed(pre, post, block, gone, k, true),
        ensures
            post.inv_coalesced(floating.remove(gone)),
            post.lonely_before(block, floating.remove(gone).remove(block)),
            forall|s: Set<usize>| #[trigger]
                pre.lonely_after(block, s) ==> post.lonely_after(block, s),
    {
        reveal(SpeedAllocator::inv_chain);
        reveal(SpeedAllocator::inv_lists);
        reveal(SpeedAllocator::inv_coalesced);
        reveal(SpeedAllocator::lonely);
        reveal(SpeedAllocator::lonely_before);
        reveal(SpeedAllocator::lonely_after);
        reveal(SpeedAllocator::absorbed);
        let f2 = floating.remove(gone);
        let old_chain = pre.chain@;
        let chain = post.chain@;
        let n = old_chain.len() as int;
        let at = k - 1;
        assert(pre.free_at(block));
        assert(pre.free_at(gone));
        assert forall|x: int| 0 <= x < n implies pre.block_ok(#[trigger] old_chain[x]) by {}
        assert forall|x: int| 0 <= x < chain.len() implies #[trigger] chain[x] == old_chain[if x < at {
            x
        } else {
            x + 1
        }] by {}
        assert forall|x: int| 0 <= x < n && x != at && x != k implies (#[trigger] old_chain[x]) != gone
            && old_chain[x] != block by {
            if x < at {
                assert(old_chain[x] != old_chain[at]);
                assert(old_chain[x] != old_chain[k]);
            } else {
                assert(old_chain[at] != old_chain[x]);
                assert(old_chain[k] != old_chain[x]);
            }
        }
        assert(pre.linked(old_chain[at], old_chain[k]));
        if at > 0 {
            assert(pre.linked(old_chain[at - 1], old_chain[at]));
        }
        if k < n - 1 {
            assert(pre.linked(old_chain[k], old_chain[k + 1]));
        }
        assert forall|i: usize| i != block && i != gone implies post.free_at(i) == pre.free_at(i) by {
            if i < pre.blocks@.len() {
                let r = post.blocks@[i as int];
            }
        }
        assert forall|x: int, x2: int| 0 <= x && x2 == x + 1 && x2 < chain.len() implies !(
        post.free_at(#[trigger] chain[x]) && post.free_at(#[trigger] chain[x2]) && !f2.contains(
            chain[x],
        ) && !f2.contains(chain[x2])) by {
            let y = if x < at {
                x
            } else {
                x + 1
            };
            let y2 = if x2 < at {
                x2
            } else {
                x2 + 1
            };
            if y2 == y + 1 {
                assert(!(pre.free_at(old_chain[y]) && pre.free_at(old_chain[y2])
                    && !floating.contains(old_chain[y]) && !floating.contains(old_chain[y2])));
            }
        }
        assert forall|x: int, x2: int|
            0 <= x && x2 == x + 1 && x2 < chain.len() && #[trigger] chain[x2] == block implies !(
        post.free_at(#[trigger] chain[x]) && !f2.remove(block).contains(chain[x])) by {
            assert(x2 == at) by {
                if x2 < at {
                    assert(old_chain[x2] != block);
                } else if x2 > at {
                    assert(old_chain[x2 + 1] != block);
                }
            }
            assert(chain[x] == old_chain[at - 1]);
            assert(!(pre.free_at(old_chain[at - 1]) && !floating.remove(gone).contains(
                old_chain[at - 1],
            )));
        }
        assert forall|s: Set<usize>| #[trigger] pre.lonely_after(block, s) implies post.lonely_after(
            block,
            s,
        ) by {
            assert forall|x: int, x2: int|
                0 <= x && x2 == x + 1 && x2 < chain.len() && #[trigger] chain[x] == block implies !(
            post.free_at(#[trigger] chain[x2]) && !s.contains(chain[x2])) by {
                assert(x == at) by {
                    if x < at {
                        assert(old_chain[x] != block);
                    } else if x > at {
                        assert(old_chain[x + 1] != block);
                    }
                }
                assert(chain[x2] == old_chain[k + 1]);
                assert(old_chain[k] == block);
            }
        }
    }

    /// The model after a block has taken in the block before it.
    #[verifier::rlimit(40)]
    pub(crate) proof fn lemma_absorbed_back_view(
        pre: &Self,
        post: &Self,
        block: usize,
        gone: usize,
        k: int,
        floating: Set<usize>,
    )
        requires
            pre.inv(floating),
            floating.contains(block),
            floating.contains(gone),
            pre.lonely(gone, floating.remove(gone)),
            Self::absorbed(pre, post, block, gone, k, true),
        ensures
            post.model().chain == pre.model().chain.remove(k - 1).update(
                k - 1,
                PoolModel::joined(pre.region_of(gone), pre.region_of(block), block),
            ),
            post.region_of(block) == PoolModel::joined(pre.region_of(gone), pre.region_of(block), block),
    {
        reveal(SpeedAllocator::inv_chain);
        reveal(SpeedAllocator::inv_lists);
        reveal(SpeedAllocator::absorbed);
        let f2 = floating.remove(gone);
        let old_chain = pre.chain@;
        let chain = post.chain@;
        let n = old_chain.len() as int;
        let at = k - 1;
        assert(pre.free_at(block));
        assert(pre.free_at(gone));
        assert forall|x: int| 0 <= x < n implies pre.block_ok(#[trigger] old_chain[x]) by {}
        assert forall|x: int| 0 <= x < chain.len() implies #[trigger] chain[x] == old_chain[if x < at {
            x
        } else {
            x + 1
        }] by {}
        assert forall|x: int| 0 <= x < n && x != at && x != k implies (#[trigger] old_chain[x]) != gone
            && old_chain[x] != block by {
            if x < at {
                assert(old_chain[x] != old_chain[at]);
                assert(old_chain[x] != old_chain[k]);
            } else {
                assert(old_chain[at] != old_chain[x]);
                assert(old_chain[k] != old_chain[x]);
            }
        }
        assert(pre.linked(old_chain[at], old_chain[k]));
        if at > 0 {
            assert(pre.linked(old_chain[at - 1], old_chain[at]));
        }
        if k < n - 1 {
            assert(pre.linked(old_chain[k], old_chain[k + 1]));
        }
        let target = pre.model().chain.remove(k - 1).update(
            k - 1,
            PoolModel::joined(pre.region_of(gone), pre.region_of(block), block),
        );
        assert(post.model().chain.len() == target.len());
        assert forall|x: int| 0 <= x < post.model().chain.len() implies post.model().chain[x] == target[x] by {
            let y = if x < at {
                x
            } else {
                x + 1
            };
            let r = post.blocks@[old_chain[y] as int];
        }
        assert(post.model().chain =~= target);
    }

    /// What holds after a block has taken in the block before it.
    pub(crate) proof fn lemma_absorbed_back(
        pre: &Self,
        post: &Self,
        block: usize,
        gone: usize,
        k: int,
        floating: Set<usize>,
    )
        requires
            pre.inv(floating),
            floating.contains(block),
            floating.contains(gone),
            pre.lonely(gone, floating.remove(gone)),
            Self::absorbed(pre, post, block, gone, k, true),
        ensures
            post.inv_chain(),
            post.inv_coalesced(floating.remove(gone)),
            post.lonely_before(block, floating.remove(gone).remove(block)),
            forall|s: Set<usize>| #[trigger]
                pre.lonely_after(block, s) ==> post.lonely_after(block, s),
            post.chain@ == pre.chain@.remove(k - 1),
            post.model().chain == pre.model().chain.remove(k - 1).update(
                k - 1,
                PoolModel::joined(pre.region_of(gone), pre.region_of(block), block),
            ),
            post.region_of(block) == PoolModel::joined(
                pre.region_of(gone),
                pre.region_of(block),
                block,
            ),
            post.live(block),
    {
        Self::lemma_absorbed_back_chain(pre, post, block, gone, k, floating);
        Self::lemma_absorbed_back_free(pre, post, block, gone, k, floating);
        Self::lemma_absorbed_back_view(pre, post, block, gone, k, floating);
    }

    /// The chain is in order after a block has taken in the block after it.
    #[verifier::rlimit(40)]
    pub(crate) proof fn lemma_absorbed_forward_chain(
        pre: &Self,
        post: &Self,
        block: usize,
        gone: usize,
        k: int,
        floating: Set<usize>,
    )
        requires
            pre.inv(floating),
            floating.contains(block),
            floating.contains(gone),
            pre.lonely(gone, floating.remove(gone)),
            Self::absorbed(pre, post, block, gone, k, false),
        ensures
            post.inv_chain(),
            post.chain@ == pre.chain@.remove(k + 1),
            post.live(block),
    {
        reveal(SpeedAllocator::inv_chain);
        reveal(SpeedAllocator::inv_lists);
        reveal(SpeedAllocator::absorbed);
        let f2 = floating.remove(gone);
        let old_chain = pre.chain@;
        let chain = post.chain@;
        let n = old_chain.len() as int;
        let at = k + 1;
        assert(pre.free_at(block));
        assert(pre.free_at(gone));
        assert forall|x: int| 0 <= x < n implies pre.block_ok(#[trigger] old_chain[x]) by {}
        assert forall|x: int| 0 <= x < chain.len() implies #[trigger] chain[x] == old_chain[if x < at {
            x
        } else {
            x + 1
        }] by {}
        assert forall|x: int| 0 <= x < n && x != at && x != k implies (#[trigger] old_chain[x]) != gone
            && old_chain[x] != block by {
            if x < k {
                assert(old_chain[x] != old_chain[at]);
                assert(old_chain[x] != old_chain[k]);
            } else {
                assert(old_chain[at] != old_chain[x]);
                assert(old_chain[k] != old_chain[x]);
            }
        }
        assert(pre.linked(old_chain[k], old_chain[at]));
        if at < n - 1 {
            assert(pre.linked(old_chain[at], old_chain[at + 1]));
        }
        if k > 0 {
            assert(pre.linked(old_chain[k - 1], old_chain[k]));
        }
        assert forall|x: int| 0 <= x < chain.len() implies post.block_ok(#[trigger] chain[x]) by {
            let y = if x < at {
                x
            } else {
                x + 1
            };
            assert(pre.block_ok(old_chain[y]));
            let r = post.blocks@[old_chain[y] as int];
        }
        assert forall|x1: int, x2: int| 0 <= x1 < x2 < chain.len() implies #[trigger] chain[x1]
            != #[trigger] chain[x2] by {
            let y1 = if x1 < at {
                x1
            } else {
                x1 + 1
            };
            let y2 = if x2 < at {
                x2
            } else {
                x2 + 1
            };
            assert(old_chain[y1] != old_chain[y2]);
        }
        assert forall|i: usize| #[trigger] post.live(i) implies chain.contains(i) by {
            let r = post.blocks@[i as int];
            assert(pre.live(i));
            assert(old_chain.contains(i));
            let y = choose|y: int| 0 <= y < n && old_chain[y] == i;
            if y < at {
                assert(chain[y] == i);
            } else {
                assert(chain[y - 1] == i);
            }
        }
        assert forall|x: int, x2: int| 0 <= x && x2 == x + 1 && x2 < chain.len() implies post.linked(
            #[trigger] chain[x],
            #[trigger] chain[x2],
        ) by {
            let y = if x < at {
                x
            } else {
                x + 1
            };
            let y2 = if x2 < at {
                x2
            } else {
                x2 + 1
            };
            let r = post.blocks@[old_chain[y] as int];
            let r2 = post.blocks@[old_chain[y2] as int];
            if y2 == y + 1 {
                assert(pre.linked(old_chain[y], old_chain[y2]));
                if at < n - 1 {
                    if y2 < at + 1 {
                        assert(old_chain[y2] != old_chain[at + 1]);
                    } else if y2 > at + 1 {
                        assert(old_chain[at + 1] != old_chain[y2]);
                    }
                    if y < at + 1 {
                        assert(old_chain[y] != old_chain[at + 1]);
                    } else if y > at + 1 {
                        assert(old_chain[at + 1] != old_chain[y]);
                    }
                }
            } else {
                assert(y == k && y2 == at + 1);
            }
        }
        assert(post.blocks@[chain[0] as int].prev_physical.is_none() && post.blocks@[chain[0] as int].start()
            == 0) by {
            assert(chain[0] == old_chain[0]);
            let r = post.blocks@[chain[0] as int];
            if k > 0 && at < n - 1 {
                assert(old_chain[0] != old_chain[at + 1]);
            }
        }
        assert(post.blocks@[chain.last() as int].next_physical.is_none()
            && post.blocks@[chain.last() as int].end() == post.pool_size) by {
            assert(chain.last() == chain[n - 2]);
            assert(old_chain.last() == old_chain[n - 1]);
            let r = post.blocks@[chain[n - 2] as int];
            if at < n - 1 {
                assert(chain[n - 2] == old_chain[n - 1]);
            } else {
                assert(chain[n - 2] == old_chain[k]);
            }
        }
        assert(post.inv_chain());
    }

    /// No two neighbours are both free and listed after a block has taken in
    /// the block after it, and the block has no such block after it.
    #[verifier::rlimit(40)]
    pub(crate) proof fn lemma_absorbed_forward_free(
        pre: &Self,
        post: &Self,
        block: usize,
        gone: usize,
        k: int,
        floating: Set<usize>,
    )
        requires
            pre.inv(floating),
            floating.contains(block),
            floating.contains(gone),
            pre.lonely(gone, floating.remove(gone)),
            Self::absorbed(pre, post, block, gone, k, false),
        ensures
            post.inv_coalesced(floating.remove(gone)),
            post.lonely_after(block, floating.remove(gone).remove(block)),
            forall|s: Set<usize>| #[trigger]
                pre.lonely_before(block, s) ==> post.lonely_before(block, s),
    {
        reveal(SpeedAllocator::inv_chain);
        reveal(SpeedAllocator::inv_lists);
        reveal(SpeedAllocator::inv_coalesced);
        reveal(SpeedAllocator::lonely);
        reveal(SpeedAllocator::lonely_before);
        reveal(SpeedAllocator::lonely_after);
        reveal(SpeedAllocator::absorbed);
        let f2 = floating.remove(gone);
        let old_chain = pre.chain@;
        let chain = post.chain@;
        let n = old_chain.len() as int;
        let at = k + 1;
        assert(pre.free_at(block));
        assert(pre.free_at(gone));
        assert forall|x: int| 0 <= x < n implies pre.block_ok(#[trigger] old_chain[x]) by {}
        assert forall|x: int| 0 <= x < chain.len() implies #[trigger] chain[x] == old_chain[if x < at {
            x
        } else {
            x + 1
        }] by {}
        assert forall|x: int| 0 <= x < n && x != at && x != k implies (#[trigger] old_chain[x]) != gone
            && old_chain[x] != block by {
            if x < k {
                assert(old_chain[x] != old_chain[at]);
                assert(old_chain[x] != old_chain[k]);
            } else {
                assert(old_chain[at] != old_chain[x]);
                assert(old_chain[k] != old_chain[x]);
            }
        }
        assert(pre.linked(old_chain[k], old_chain[at]));
        if at < n - 1 {
            assert(pre.linked(old_chain[at], old_chain[at + 1]));
        }
        if k > 0 {
            assert(pre.linked(old_chain[k - 1], old_chain[k]));
        }
        assert forall|i: usize| i != block && i != gone implies post.free_at(i) == pre.free_at(i) by {
            if i < pre.blocks@.len() {
                let r = post.blocks@[i as int];
            }
        }
        assert forall|x: int, x2: int| 0 <= x && x2 == x + 1 && x2 < chain.len() implies !(
        post.free_at(#[trigger] chain[x]) && post.free_at(#[trigger] chain[x2]) && !f2.contains(
            chain[x],
        ) && !f2.contains(chain[x2])) by {
            let y = if x < at {
                x
            } else {
                x + 1
            };
            let y2 = if x2 < at {
                x2
            } else {
                x2 + 1
            };
            if y2 == y + 1 {
                assert(!(pre.free_at(old_chain[y]) && pre.free_at(old_chain[y2])
                    && !floating.contains(old_chain[y]) && !floating.contains(old_chain[y2])));
            }
        }
        assert forall|x: int, x2: int|
            0 <= x && x2 == x + 1 && x2 < chain.len() && #[trigger] chain[x] == block implies !(
        post.free_at(#[trigger] chain[x2]) && !f2.remove(block).contains(chain[x2])) by {
            assert(x == k) by {
                if x < k {
                    assert(old_chain[x] != block);
                } else if x > k {
                    assert(old_chain[x + 1] != block);
                }
            }
            assert(chain[x2] == old_chain[at + 1]);
            assert(!(pre.free_at(old_chain[at + 1]) && !floating.remove(gone).contains(
                old_chain[at + 1],
            )));
        }
        assert forall|s: Set<usize>| #[trigger] pre.lonely_before(block, s) implies post.lonely_before(
            block,
            s,
        ) by {
            assert forall|x: int, x2: int|
                0 <= x && x2 == x + 1 && x2 < chain.len() && #[trigger] chain[x2] == block implies !(
            post.free_at(#[trigger] chain[x]) && !s.contains(chain[x])) by {
                assert(x2 == k) by {
                    if x2 < k {
                        assert(old_chain[x2] != block);
                    } else if x2 > k {
                        assert(old_chain[x2 + 1] != block);
                    }
                }
                assert(chain[x] == old_chain[k - 1]);
                assert(old_chain[k] == block);
            }
        }
    }

    /// The model after a block has taken in the block after it.
    #[verifier::rlimit(40)]
    pub(crate) proof fn lemma_absorbed_forward_view(
        pre: &Self,
        post: &Self,
        block: usize,
        gone: usize,
        k: int,
        floating: Set<usize>,
    )
        requires
            pre.inv(floating),
            floating.contains(block),
            floating.contains(gone),
            pre.lonely(gone, floating.remove(gone)),
            Self::absorbed(pre, post, block, gone, k, false),
        ensures
            post.model().chain == pre.model().chain.remove(k + 1).update(
                k,
                PoolModel::joined(pre.region_of(block), pre.region_of(gone), block),
            ),
            post.region_of(block) == PoolModel::joined(pre.region_of(block), pre.region_of(gone), block),
    {
        reveal(SpeedAllocator::inv_chain);
        reveal(SpeedAllocator::inv_lists);
        reveal(SpeedAllocator::absorbed);
        let f2 = floating.remove(gone);
        let old_chain = pre.chain@;
        let chain = post.chain@;
        let n = old_chain.len() as int;
        let at = k + 1;
        assert(pre.free_at(block));
        assert(pre.free_at(gone));
        assert forall|x: int| 0 <= x < n implies pre.block_ok(#[trigger] old_chain[x]) by {}
        assert forall|x: int| 0 <= x < chain.len() implies #[trigger] chain[x] == old_chain[if x < at {
            x
        } else {
            x + 1
        }] by {}
        assert forall|x: int| 0 <= x < n && x != at && x != k implies (#[trigger] old_chain[x]) != gone
            && old_chain[x] != block by {
            if x < k {
                assert(old_chain[x] != old_chain[at]);
                assert(old_chain[x] != old_chain[k]);
            } else {
                assert(old_chain[at] != old_chain[x]);
                assert(old_chain[k] != old_chain[x]);
            }
        }
        assert(pre.linked(old_chain[k], old_chain[at]));
        if at < n - 1 {
            assert(pre.linked(old_chain[at], old_chain[at + 1]));
        }
        if k > 0 {
            assert(pre.linked(old_chain[k - 1], old_chain[k]));
        }
        let target = pre.model().chain.remove(k + 1).update(
            k,
            PoolModel::joined(pre.region_of(block), pre.region_of(gone), block),
        );
        assert(post.model().chain.len() == target.len());
        assert forall|x: int| 0 <= x < post.model().chain.len() implies post.model().chain[x] == target[x] by {
            let y = if x < at {
                x
            } else {
                x + 1
            };
            let r = post.blocks@[old_chain[y] as int];
        }
        assert(post.model().chain =~= target);
    }

    /// What holds after a block has taken in the block after it.
    pub(crate) proof fn lemma_absorbed_forward(
        pre: &Self,
        post: &Self,
        block: usize,
        gone: usize,
        k: int,
        floating: Set<usize>,
    )
        requires
            pre.inv(floating),
            floating.contains(block),
            floating.contains(gone),
            pre.lonely(gone, floating.remove(gone)),
            Self::absorbed(pre, post, block, gone, k, false),
        ensures
            post.inv_chain(),
            post.inv_coalesced(floating.remove(gone)),
            post.lonely_after(block, floating.remove(gone).remove(block)),
            forall|s: Set<usize>| #[trigger]
                pre.lonely_before(block, s) ==> post.lonely_before(block, s),
            post.chain@ == pre.chain@.remove(k + 1),
            post.model().chain == pre.model().chain.remove(k + 1).update(
                k,
                PoolModel::joined(pre.region_of(block), pre.region_of(gone), block),
            ),
            post.region_of(block) == PoolModel::joined(
                pre.region_of(block),
                pre.region_of(gone),
                block,
            ),
            post.live(block),
    {
        Self::lemma_absorbed_forward_chain(pre, post, block, gone, k, floating);
        Self::lemma_absorbed_forward_free(pre, post, block, gone, k, floating);
        Self::lemma_absorbed_forward_view(pre, post, block, gone, k, floating);
    }

    /// Lets the floating free block `block` take in the block before it in
    /// the chain, where that one is free.
    #[verifier::rlimit(40)]
    pub(crate) fn absorb_previous(&mut self, block: usize)
        requires
            old(self).inv(Set::<usize>::empty().insert(block)),
            old(self).free_at(block),
        ensures
            final(self).inv(Set::<usize>::empty().insert(block)),
            final(self).free_at(block),
            final(self).lonely_before(block, Set::<usize>::empty()),
            final(self).used_ids() == old(self).used_ids(),
            final(self).num_allocation == old(self).num_allocation,
            final(self).model() == old(self).model().takes_back(block),
    {
        let ghost s0 = *self;
        let ghost none = Set::<usize>::empty();
        let ghost floating = none.insert(block);
        let ghost k0 = self.lemma_locate_around(block);
        let record = self.blocks[block];
        let mut merged_back = false;
        if let Some(prev_physical) = record.prev_physical {
            if self.blocks[prev_physical].is_free() {
                let prev_size = self.blocks[prev_physical].size;
                let map = self.binmap_down(prev_size);
                self.remove_free_block(prev_physical, map, Ghost(floating));
                let ghost sb = *self;
                let ghost both = floating.insert(prev_physical);
                proof {
                    Self::lemma_same_layout(&s0, &sb, floating);
                    Self::lemma_layout_view(&s0, &sb);
                    Self::lemma_listed_is_lonely(&s0, &sb, prev_physical, floating);
                    assert(both.remove(prev_physical) =~= floating);
                    sb.lemma_locate_around(block);
                    sb.lemma_locate_around(prev_physical);
                }
                let gone = self.blocks[prev_physical];
                let mut merged = self.blocks[block];
                merged.offset = gone.offset;
                merged.size = merged.size + gone.size;
                merged.prev_physical = gone.prev_physical;
                self.blocks.set(block, merged);
                if let Some(pre_prev) = gone.prev_physical {
                    let mut before = self.blocks[pre_prev];
                    before.next_physical = Some(block);
                    self.blocks.set(pre_prev, before);
                }
                let mut released = gone;
                released.state = BlockState::Vacant;
                self.blocks.set(prev_physical, released);
                self.vacant.push(prev_physical);
                self.chain = Ghost(self.chain@.remove(k0 - 1));
                merged_back = true;
                proof {
                    assert(Self::absorbed(&sb, self, block, prev_physical, k0, true)) by {
                        reveal(SpeedAllocator::absorbed);
                    }
                    Self::lemma_absorbed_lists(&sb, self, block, prev_physical, k0, true, both);
                    Self::lemma_absorbed_back(&sb, self, block, prev_physical, k0, both);
                    assert(floating.remove(block) =~= none);
                    assert(self.model().lists =~= s0.model().takes_back(block).lists);
                    assert(self.free_at(block)) by {
                        reveal(SpeedAllocator::inv_lists);
                    }
                }
            }
        }
        proof {
            if !merged_back {
                self.lemma_lonely_before(block, none);
            }
        }
    }

    /// Lets the floating free block `block` take in the block after it in
    /// the chain, where that one is free.
    #[verifier::rlimit(40)]
    pub(crate) fn absorb_next(&mut self, block: usize)
        requires
            old(self).inv(Set::<usize>::empty().insert(block)),
            old(self).free_at(block),
        ensures
            final(self).inv(Set::<usize>::empty().insert(block)),
            final(self).free_at(block),
            final(self).lonely_after(block, Set::<usize>::empty()),
            old(self).lonely_before(block, Set::<usize>::empty()) ==> final(self).lonely_before(
                block,
                Set::<usize>::empty(),
            ),
            final(self).used_ids() == old(self).used_ids(),
            final(self).num_allocation == old(self).num_allocation,
            final(self).model() == old(self).model().takes_forward(block),
    {
        let ghost s0 = *self;
        let ghost none = Set::<usize>::empty();
        let ghost floating = none.insert(block);
        let ghost k0 = self.lemma_locate_around(block);
        let record = self.blocks[block];
        let mut merged_forward = false;
        if let Some(next_physical) = record.next_physical {
            if self.blocks[next_physical].is_free() {
                let next_size = self.blocks[next_physical].size;
                let map = self.binmap_down(next_size);
                self.remove_free_block(next_physical, map, Ghost(floating));
                let ghost sb = *self;
                let ghost both = floating.insert(next_physical);
                proof {
                    Self::lemma_same_layout(&s0, &sb, floating);
                    Self::lemma_layout_view(&s0, &sb);
                    Self::lemma_listed_is_lonely(&s0, &sb, next_physical, floating);
                    Self::lemma_lonely_frame(&s0, &sb, block, none);
                    assert(both.remove(next_physical) =~= floating);
                    sb.lemma_locate_around(block);
                    sb.lemma_locate_around(next_physical);
                }
                let gone = self.blocks[next_physical];
                let mut merged = self.blocks[block];
                merged.size = merged.size + gone.size;
                merged.next_physical = gone.next_physical;
                self.blocks.set(block, merged);
                if let Some(next_next) = gone.next_physical {
                    let mut after = self.blocks[next_next];
                    after.prev_physical = Some(block);
                    self.blocks.set(next_next, after);
                }
                let mut released = gone;
                released.state = BlockState::Vacant;
                self.blocks.set(next_physical, released);
                self.vacant.push(next_physical);
                self.chain = Ghost(self.chain@.remove(k0 + 1));
                merged_forward = true;
                proof {
                    assert(Self::absorbed(&sb, self, block, next_physical, k0, false)) by {
                        reveal(SpeedAllocator::absorbed);
                    }
                    Self::lemma_absorbed_lists(&sb, self, block, next_physical, k0, false, both);
                    Self::lemma_absorbed_forward(&sb, self, block, next_physical, k0, both);
                    assert(floating.remove(block) =~= none);
                    assert(self.model().lists =~= s0.model().takes_forward(block).lists);
                    assert(self.free_at(block)) by {
                        reveal(SpeedAllocator::inv_lists);
                    }
                }
            }
        }
        proof {
            if !merged_forward {
                self.lemma_lonely_after(block, none);
            }
        }
    }

    /// Lets the floating free block `block` take in its free neighbours in
    /// the chain: each leaves its free list, gives its bytes to `block`, and
    /// its record is released.
    pub(crate) fn merge_free_block(&mut self, block: usize)
        requires
            old(self).inv(Set::<usize>::empty().insert(block)),
            old(self).free_at(block),
        ensures
            final(self).inv(Set::<usize>::empty().insert(block)),
            final(self).lonely(block, Set::<usize>::empty()),
            final(self).free_at(block),
            final(self).used_ids() == old(self).used_ids(),
            final(self).num_allocation == old(self).num_allocation,
            final(self).model() == old(self).model().merged_around(block),
    {
        self.absorb_previous(block);
        self.absorb_next(block);
        proof {
            self.lemma_lonely(block, Set::<usize>::empty());
        }
    }
}

} // verus!
