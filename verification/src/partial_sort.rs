//! A block-structured partial order over `(key, value)` entries.
//!
//! The structure is a sequence of blocks, each sorted by value.  Entries
//! leave in the order of the blocks, and inside a block in its order, so
//! they leave smallest first as long as no block holds a value below one
//! in a block before it.
//!
//! The structure stands on its own: the recursive procedure keeps its
//! frontiers in vertex sets and does not go through it.

use vstd::prelude::*;

verus! {

/// Values never go down along `s`.
pub open spec fn sorted_by_value(s: Seq<(usize, u64)>) -> bool {
    forall|i: int, j: int| 0 <= i <= j < s.len() ==> s[i].1 <= s[j].1
}

/// The number of entries of `block` whose value is at most `value`.
pub open spec fn rank(block: Seq<(usize, u64)>, value: u64) -> int
    decreases block.len(),
{
    if block.len() == 0 {
        0
    } else {
        rank(block.drop_last(), value) + if block.last().1 <= value {
            1int
        } else {
            0int
        }
    }
}

/// `block` with `item` put behind the entries whose value is at most its
/// own.
pub open spec fn place(block: Seq<(usize, u64)>, item: (usize, u64)) -> Seq<(usize, u64)> {
    block.insert(rank(block, item.1), item)
}

/// `items` sorted by value, entries of equal value in their old order.
pub open spec fn stable_sort(items: Seq<(usize, u64)>) -> Seq<(usize, u64)>
    decreases items.len(),
{
    if items.len() == 0 {
        Seq::empty()
    } else {
        place(stable_sort(items.drop_last()), items.last())
    }
}

/// The least `b >= from` with `b^3 >= n`, for 64-bit `n`.
pub open spec fn cube_root_from(n: nat, from: nat) -> nat
    decreases 2642246 - from,
{
    if from >= 2642246 || from * from * from >= n {
        from
    } else {
        cube_root_from(n, from + 1)
    }
}

/// The target block size for `n` elements: the least `b >= 1` with
/// `b^3 >= n`.
pub open spec fn target_block_size(n: nat) -> nat {
    cube_root_from(n, 1)
}

/// The blocks before the last one.
pub open spec fn front_blocks(blocks: Seq<Seq<(usize, u64)>>) -> Seq<Seq<(usize, u64)>> {
    if blocks.len() == 0 {
        blocks
    } else {
        blocks.drop_last()
    }
}

/// The last block, or an empty one where no block is left.
pub open spec fn last_block(blocks: Seq<Seq<(usize, u64)>>) -> Seq<(usize, u64)> {
    if blocks.len() == 0 {
        Seq::empty()
    } else {
        blocks.last()
    }
}

/// What `insert` makes of the blocks: the entry is placed in the last
/// block, which is split at `block_size` once it holds more than twice as
/// many.  With no block left the entry starts a new one.
pub open spec fn insert_into(
    blocks: Seq<Seq<(usize, u64)>>,
    block_size: nat,
    item: (usize, u64),
) -> Seq<Seq<(usize, u64)>> {
    let grown = place(last_block(blocks), item);
    if grown.len() > 2 * block_size {
        front_blocks(blocks).push(grown.take(block_size as int)).push(grown.skip(block_size as int))
    } else {
        front_blocks(blocks).push(grown)
    }
}

/// The entries that leave when up to `budget` entries are pulled.
pub open spec fn pulled(blocks: Seq<Seq<(usize, u64)>>, budget: nat) -> Seq<(usize, u64)>
    decreases blocks.len(),
{
    if blocks.len() == 0 {
        Seq::empty()
    } else {
        let b = blocks.first();
        let here = if budget <= b.len() {
            budget
        } else {
            b.len()
        };
        b.take(here as int) + pulled(blocks.drop_first(), (budget - here) as nat)
    }
}

/// The blocks that stay when up to `budget` entries are pulled: what is
/// left of each block, blocks left empty taken out.
pub open spec fn stripped(blocks: Seq<Seq<(usize, u64)>>, budget: nat) -> Seq<Seq<(usize, u64)>>
    decreases blocks.len(),
{
    if blocks.len() == 0 {
        Seq::empty()
    } else {
        let b = blocks.first();
        let here = if budget <= b.len() {
            budget
        } else {
            b.len()
        };
        let rest = stripped(blocks.drop_first(), (budget - here) as nat);
        if here < b.len() {
            seq![b.skip(here as int)] + rest
        } else {
            rest
        }
    }
}

/// In a sorted block, the rank of a value is the one position that
/// parts the entries at most the value from those above it.
pub proof fn lemma_rank_parts(block: Seq<(usize, u64)>, value: u64, pos: int)
    requires
        sorted_by_value(block),
        0 <= pos <= block.len(),
        forall|i: int| 0 <= i < pos ==> block[i].1 <= value,
        forall|i: int| pos <= i < block.len() ==> block[i].1 > value,
    ensures
        rank(block, value) == pos,
    decreases block.len(),
{
    if block.len() > 0 {
        let shorter = block.drop_last();
        assert(sorted_by_value(shorter)) by {
            assert forall|i: int, j: int| 0 <= i <= j < shorter.len() implies shorter[i].1
                <= shorter[j].1 by {
                assert(block[i].1 <= block[j].1);
            }
        }
        if pos == block.len() {
            lemma_rank_parts(shorter, value, pos - 1);
        } else {
            lemma_rank_parts(shorter, value, pos);
        }
    }
}

/// The rank lies inside the block and parts it.
pub proof fn lemma_rank_bounds(block: Seq<(usize, u64)>, value: u64)
    requires
        sorted_by_value(block),
    ensures
        0 <= rank(block, value) <= block.len(),
        forall|i: int| 0 <= i < rank(block, value) ==> block[i].1 <= value,
        forall|i: int| rank(block, value) <= i < block.len() ==> block[i].1 > value,
    decreases block.len(),
{
    if block.len() > 0 {
        let shorter = block.drop_last();
        assert(sorted_by_value(shorter)) by {
            assert forall|i: int, j: int| 0 <= i <= j < shorter.len() implies shorter[i].1
                <= shorter[j].1 by {
                assert(block[i].1 <= block[j].1);
            }
        }
        lemma_rank_bounds(shorter, value);
        let r = rank(shorter, value);
        if block.last().1 <= value {
            assert forall|i: int| 0 <= i < shorter.len() implies shorter[i].1 <= value by {
                assert(block[i].1 <= block[block.len() - 1].1);
            }
            if r < shorter.len() {
                assert(shorter[r].1 > value);
            }
            assert(r == shorter.len());
        }
        assert forall|i: int| 0 <= i < rank(block, value) implies block[i].1 <= value by {
            if i < shorter.len() {
                assert(shorter[i] == block[i]);
            }
        }
        assert forall|i: int| rank(block, value) <= i < block.len() implies block[i].1 > value by {
            if i < shorter.len() {
                assert(shorter[i] == block[i]);
            }
        }
    }
}

/// Placing an entry in a sorted block leaves it sorted and adds exactly
/// that entry.
pub proof fn lemma_place(block: Seq<(usize, u64)>, item: (usize, u64))
    requires
        sorted_by_value(block),
    ensures
        sorted_by_value(place(block, item)),
        place(block, item).len() == block.len() + 1,
        place(block, item).to_multiset() == block.to_multiset().insert(item),
{
    lemma_rank_bounds(block, item.1);
    let r = rank(block, item.1);
    let out = place(block, item);
    assert forall|i: int, j: int| 0 <= i <= j < out.len() implies out[i].1 <= out[j].1 by {
        let a = if i < r {
            i
        } else {
            i - 1
        };
        let b = if j < r {
            j
        } else {
            j - 1
        };
        if i != r && j != r {
            assert(out[i] == block[a] && out[j] == block[b]);
            assert(block[a].1 <= block[b].1);
        } else if i == r && j != r {
            assert(out[j] == block[b]);
        } else if i != r && j == r {
            assert(out[i] == block[a]);
        }
    }
    vstd::seq_lib::to_multiset_insert(block, r, item);
}

/// The stable sort is sorted and holds exactly the entries it was given.
pub proof fn lemma_stable_sort(items: Seq<(usize, u64)>)
    ensures
        sorted_by_value(stable_sort(items)),
        stable_sort(items).len() == items.len(),
        stable_sort(items).to_multiset() == items.to_multiset(),
    decreases items.len(),
{
    if items.len() == 0 {
        assert(items =~= Seq::empty());
    } else {
        lemma_stable_sort(items.drop_last());
        lemma_place(stable_sort(items.drop_last()), items.last());
        vstd::seq_lib::to_multiset_build(items.drop_last(), items.last());
        assert(items.drop_last().push(items.last()) =~= items);
    }
}

/// Pulling takes a prefix of the entries in their order and leaves the
/// rest, in blocks that are not empty.
pub proof fn lemma_pull_is_prefix(blocks: Seq<Seq<(usize, u64)>>, budget: nat)
    ensures
        ({
            let flat = blocks.flatten();
            let taken = if budget <= flat.len() {
                budget
            } else {
                flat.len()
            };
            &&& pulled(blocks, budget) == flat.take(taken as int)
            &&& stripped(blocks, budget).flatten() == flat.skip(taken as int)
        }),
        forall|i: int|
            0 <= i < stripped(blocks, budget).len() ==> (#[trigger] stripped(blocks, budget)[i]).len()
                > 0,
    decreases blocks.len(),
{
    let flat = blocks.flatten();
    if blocks.len() == 0 {
        assert(pulled(blocks, budget) =~= flat.take(0));
        assert(stripped(blocks, budget).flatten() =~= flat.skip(0));
    } else {
        let b = blocks.first();
        let here = if budget <= b.len() {
            budget
        } else {
            b.len()
        };
        let tail = blocks.drop_first();
        let left = (budget - here) as nat;
        lemma_pull_is_prefix(tail, left);
        let tflat = tail.flatten();
        assert(flat == b + tflat);
        let ttaken = if left <= tflat.len() {
            left
        } else {
            tflat.len()
        };
        let taken = if budget <= flat.len() {
            budget
        } else {
            flat.len()
        };
        assert(taken == here + ttaken);
        if here < b.len() {
            assert(ttaken == 0);
            assert(pulled(blocks, budget) =~= flat.take(taken as int));
            let rest = stripped(tail, left);
            let out = seq![b.skip(here as int)] + rest;
            assert(out.first() == b.skip(here as int));
            assert(out.drop_first() =~= rest);
            assert(out.flatten() == b.skip(here as int) + rest.flatten());
            assert(out.flatten() =~= flat.skip(taken as int));
            assert forall|i: int| 0 <= i < out.len() implies (#[trigger] out[i]).len() > 0 by {
                if i > 0 {
                    assert(out[i] == rest[i - 1]);
                }
            }
        } else {
            assert(pulled(blocks, budget) =~= flat.take(taken as int));
            assert(stripped(blocks, budget).flatten() =~= flat.skip(taken as int));
        }
    }
}

/// Pulling leaves sorted blocks sorted.
pub proof fn lemma_stripped_sorted(blocks: Seq<Seq<(usize, u64)>>, budget: nat)
    requires
        forall|i: int| 0 <= i < blocks.len() ==> sorted_by_value(#[trigger] blocks[i]),
    ensures
        forall|i: int|
            0 <= i < stripped(blocks, budget).len() ==> sorted_by_value(
                #[trigger] stripped(blocks, budget)[i],
            ),
    decreases blocks.len(),
{
    if blocks.len() > 0 {
        let b = blocks.first();
        let here = if budget <= b.len() {
            budget
        } else {
            b.len()
        };
        let tail = blocks.drop_first();
        let left = (budget - here) as nat;
        assert forall|i: int| 0 <= i < tail.len() implies sorted_by_value(#[trigger] tail[i]) by {
            assert(tail[i] == blocks[i + 1]);
        }
        lemma_stripped_sorted(tail, left);
        let rest = stripped(tail, left);
        if here < b.len() {
            let kept = b.skip(here as int);
            assert(sorted_by_value(blocks[0]));
            assert(sorted_by_value(kept)) by {
                assert forall|i: int, j: int| 0 <= i <= j < kept.len() implies kept[i].1 <= kept[j].1 by {
                    assert(b[i + here].1 <= b[j + here].1);
                }
            }
            let out = seq![kept] + rest;
            assert forall|i: int| 0 <= i < out.len() implies sorted_by_value(#[trigger] out[i]) by {
                if i > 0 {
                    assert(out[i] == rest[i - 1]);
                }
            }
        }
    }
}

/// Every value of `front` is at most every value of `back`.
pub open spec fn all_before(front: Seq<(usize, u64)>, back: Seq<(usize, u64)>) -> bool {
    forall|i: int, j: int| 0 <= i < front.len() && 0 <= j < back.len() ==> front[i].1 <= back[j].1
}

/// Two sorted runs, the first wholly before the second, make a sorted run.
pub proof fn lemma_sorted_concat(front: Seq<(usize, u64)>, back: Seq<(usize, u64)>)
    requires
        sorted_by_value(front),
        sorted_by_value(back),
        all_before(front, back),
    ensures
        sorted_by_value(front + back),
{
    let whole = front + back;
    assert forall|i: int, j: int| 0 <= i <= j < whole.len() implies whole[i].1 <= whole[j].1 by {
        if j < front.len() {
            assert(front[i].1 <= front[j].1);
        } else if i >= front.len() {
            assert(back[i - front.len()].1 <= back[j - front.len()].1);
        } else {
            assert(front[i].1 <= back[j - front.len()].1);
        }
    }
}

/// The blocks after `times` pulls of one entry each.
pub open spec fn after_pulls(blocks: Seq<Seq<(usize, u64)>>, times: nat) -> Seq<Seq<(usize, u64)>>
    decreases times,
{
    if times == 0 {
        blocks
    } else {
        stripped(after_pulls(blocks, (times - 1) as nat), 1)
    }
}

/// Pulling one entry at a time hands the entries out in their order: the
/// pull after `times` earlier ones yields entry number `times`.
pub proof fn lemma_single_pulls(blocks: Seq<Seq<(usize, u64)>>, times: nat)
    requires
        times < blocks.flatten().len(),
    ensures
        after_pulls(blocks, times).flatten() == blocks.flatten().skip(times as int),
        pulled(after_pulls(blocks, times), 1) == seq![blocks.flatten()[times as int]],
    decreases times,
{
    let flat = blocks.flatten();
    if times == 0 {
        assert(flat.skip(0) =~= flat);
    } else {
        lemma_single_pulls(blocks, (times - 1) as nat);
        let prev = after_pulls(blocks, (times - 1) as nat);
        lemma_pull_is_prefix(prev, 1);
        assert(flat.skip(times - 1).skip(1) =~= flat.skip(times as int));
    }
    let now = after_pulls(blocks, times);
    lemma_pull_is_prefix(now, 1);
    assert(now.flatten().take(1) =~= seq![flat[times as int]]);
}

/// Where the entries are sorted in their order, pulls of one entry each
/// yield values that never go down.
pub proof fn lemma_pulls_ascend(blocks: Seq<Seq<(usize, u64)>>, earlier: nat, later: nat)
    requires
        sorted_by_value(blocks.flatten()),
        earlier <= later < blocks.flatten().len(),
    ensures
        pulled(after_pulls(blocks, earlier), 1)[0].1 <= pulled(after_pulls(blocks, later), 1)[0].1,
{
    lemma_single_pulls(blocks, earlier);
    lemma_single_pulls(blocks, later);
}

/// The entries are those of the blocks before the last, followed by the
/// last block's.
pub proof fn lemma_front_and_last(blocks: Seq<Seq<(usize, u64)>>)
    ensures
        blocks.flatten() == front_blocks(blocks).flatten() + last_block(blocks),
{
    broadcast use Seq::lemma_flatten_push;

    if blocks.len() == 0 {
        assert(blocks.flatten() =~= front_blocks(blocks).flatten() + last_block(blocks));
    } else {
        assert(blocks =~= front_blocks(blocks).push(last_block(blocks)));
    }
}

/// An insert adds exactly its entry to what is held, whatever the blocks,
/// and leaves every block sorted.
pub proof fn lemma_insert_adds_one(
    blocks: Seq<Seq<(usize, u64)>>,
    block_size: nat,
    item: (usize, u64),
)
    requires
        forall|i: int| 0 <= i < blocks.len() ==> sorted_by_value(#[trigger] blocks[i]),
    ensures
        insert_into(blocks, block_size, item).flatten() == front_blocks(blocks).flatten() + place(
            last_block(blocks),
            item,
        ),
        insert_into(blocks, block_size, item).flatten().to_multiset()
            == blocks.flatten().to_multiset().insert(item),
        forall|i: int|
            0 <= i < insert_into(blocks, block_size, item).len() ==> sorted_by_value(
                #[trigger] insert_into(blocks, block_size, item)[i],
            ),
{
    broadcast use Seq::lemma_flatten_push;
    broadcast use vstd::multiset::group_multiset_axioms;

    let front = front_blocks(blocks);
    let last = last_block(blocks);
    let grown = place(last, item);
    let out = insert_into(blocks, block_size, item);
    lemma_front_and_last(blocks);
    assert(sorted_by_value(last)) by {
        if blocks.len() > 0 {
            assert(sorted_by_value(blocks[blocks.len() - 1]));
        }
    }
    lemma_place(last, item);
    let head = grown.take(block_size as int);
    let tail = grown.skip(block_size as int);
    if grown.len() > 2 * block_size {
        assert(head + tail =~= grown);
        assert(front.flatten() + head + tail =~= front.flatten() + grown);
        assert(sorted_by_value(head)) by {
            assert forall|i: int, j: int| 0 <= i <= j < head.len() implies head[i].1 <= head[j].1 by {
                assert(grown[i].1 <= grown[j].1);
            }
        }
        assert(sorted_by_value(tail)) by {
            assert forall|i: int, j: int| 0 <= i <= j < tail.len() implies tail[i].1 <= tail[j].1 by {
                assert(grown[i + block_size].1 <= grown[j + block_size].1);
            }
        }
    }
    assert forall|i: int| 0 <= i < out.len() implies sorted_by_value(#[trigger] out[i]) by {
        if i < front.len() {
            assert(out[i] == blocks[i]);
        }
    }
    vstd::seq_lib::lemma_multiset_commutative(front.flatten(), grown);
    vstd::seq_lib::lemma_multiset_commutative(front.flatten(), last);
    assert(out.flatten().to_multiset() =~= blocks.flatten().to_multiset().insert(item));
}

/// An insert keeps the entries sorted in their order where the new value
/// is at least every value held in the blocks before the last.
pub proof fn lemma_insert_keeps_order(
    blocks: Seq<Seq<(usize, u64)>>,
    block_size: nat,
    item: (usize, u64),
)
    requires
        forall|i: int| 0 <= i < blocks.len() ==> sorted_by_value(#[trigger] blocks[i]),
        sorted_by_value(blocks.flatten()),
        forall|i: int|
            0 <= i < front_blocks(blocks).flatten().len() ==> front_blocks(blocks).flatten()[i].1
                <= item.1,
    ensures
        sorted_by_value(insert_into(blocks, block_size, item).flatten()),
{
    let front = front_blocks(blocks);
    let last = last_block(blocks);
    let grown = place(last, item);
    lemma_front_and_last(blocks);
    lemma_insert_adds_one(blocks, block_size, item);
    assert(sorted_by_value(last)) by {
        if blocks.len() > 0 {
            assert(sorted_by_value(blocks[blocks.len() - 1]));
        }
    }
    lemma_place(last, item);
    lemma_rank_bounds(last, item.1);
    let flat = blocks.flatten();
    let r = rank(last, item.1);
    assert(sorted_by_value(front.flatten())) by {
        assert forall|i: int, j: int| 0 <= i <= j < front.flatten().len() implies front.flatten()[i].1
            <= front.flatten()[j].1 by {
            assert(flat[i].1 <= flat[j].1);
        }
    }
    assert(all_before(front.flatten(), grown)) by {
        assert forall|i: int, j: int|
            0 <= i < front.flatten().len() && 0 <= j < grown.len() implies front.flatten()[i].1
            <= grown[j].1 by {
            if j < r {
                assert(grown[j] == last[j]);
                assert(flat[i].1 <= flat[front.flatten().len() + j].1);
            } else if j > r {
                assert(grown[j] == last[j - 1]);
                assert(flat[i].1 <= flat[front.flatten().len() + j - 1].1);
            }
        }
    }
    lemma_sorted_concat(front.flatten(), grown);
}

/// A batch put in front keeps the entries sorted in their order where
/// every value of the batch is at most every value held.  The batch then
/// leaves first.
pub proof fn lemma_prepend_keeps_order(blocks: Seq<Seq<(usize, u64)>>, items: Seq<(usize, u64)>)
    requires
        sorted_by_value(blocks.flatten()),
        all_before(items, blocks.flatten()),
    ensures
        (seq![stable_sort(items)] + blocks).flatten() == stable_sort(items) + blocks.flatten(),
        sorted_by_value((seq![stable_sort(items)] + blocks).flatten()),
{
    let sorted = stable_sort(items);
    let whole = seq![sorted] + blocks;
    assert(whole.first() == sorted);
    assert(whole.drop_first() =~= blocks);
    lemma_stable_sort(items);
    assert(all_before(sorted, blocks.flatten())) by {
        assert forall|i: int, j: int|
            0 <= i < sorted.len() && 0 <= j < blocks.flatten().len() implies sorted[i].1
            <= blocks.flatten()[j].1 by {
            let x = sorted[i];
            assert(sorted.contains(x));
            vstd::seq_lib::to_multiset_contains(sorted, x);
            vstd::seq_lib::to_multiset_contains(items, x);
            let m = choose|m: int| 0 <= m < items.len() && items[m] == x;
            assert(items[m].1 <= blocks.flatten()[j].1);
        }
    }
    lemma_sorted_concat(sorted, blocks.flatten());
}

/// The cube of `b`.
fn cube(b: usize) -> (r: u128)
    requires
        b <= 2642246,
    ensures
        r == (b as nat) * (b as nat) * (b as nat),
{
    proof {
        assert((b as nat) * (b as nat) <= 2642246 * 2642246) by (nonlinear_arith)
            requires
                b <= 2642246,
        ;
        assert((b as nat) * (b as nat) * (b as nat) <= 2642246 * 2642246 * 2642246) by (nonlinear_arith)
            requires
                b <= 2642246,
                (b as nat) * (b as nat) <= 2642246 * 2642246,
        ;
    }
    let wide = b as u128;
    wide * wide * wide
}

/// Puts `(key, value)` into the sorted `block`, behind the entries whose
/// value is at most `value`.
fn place_entry(block: &mut Vec<(usize, u64)>, key: usize, value: u64)
    requires
        sorted_by_value(old(block)@),
    ensures
        final(block)@ == place(old(block)@, (key, value)),
        sorted_by_value(final(block)@),
{
    let mut pos: usize = block.len();
    while pos > 0 && block[pos - 1].1 > value
        invariant
            pos <= block@.len(),
            block@ == old(block)@,
            forall|i: int| pos <= i < block@.len() ==> block@[i].1 > value,
        decreases pos,
    {
        pos -= 1;
    }
    proof {
        assert forall|i: int| 0 <= i < pos implies block@[i].1 <= value by {
            assert(block@[i].1 <= block@[pos - 1].1);
        }
        lemma_rank_parts(block@, value, pos as int);
        lemma_place(block@, (key, value));
    }
    block.insert(pos, (key, value));
}

/// Sorts `items` by value, keeping entries of equal value in order.
fn sort_entries(items: Vec<(usize, u64)>) -> (r: Vec<(usize, u64)>)
    ensures
        r@ == stable_sort(items@),
        sorted_by_value(r@),
{
    let mut out: Vec<(usize, u64)> = Vec::new();
    let mut i: usize = 0;
    while i < items.len()
        invariant
            i <= items@.len(),
            out@ == stable_sort(items@.take(i as int)),
            sorted_by_value(out@),
        decreases items@.len() - i,
    {
        let entry = items[i];
        proof {
            assert(items@.take(i + 1).drop_last() =~= items@.take(i as int));
        }
        place_entry(&mut out, entry.0, entry.1);
        i += 1;
    }
    proof {
        assert(items@.take(items@.len() as int) =~= items@);
    }
    out
}

/// The block-structured partial order.
pub struct PartialSortDS {
    blocks: Vec<Vec<(usize, u64)>>,
    block_size: usize,
}

impl View for PartialSortDS {
    type V = Seq<Seq<(usize, u64)>>;

    /// The blocks, front first.
    closed spec fn view(&self) -> Seq<Seq<(usize, u64)>> {
        Seq::new(self.blocks@.len(), |i: int| self.blocks@[i]@)
    }
}

impl PartialSortDS {
    /// The target block size.
    pub closed spec fn block_size(&self) -> nat {
        self.block_size as nat
    }

    /// The target block size is at least one and every block is sorted.
    pub open spec fn wf(&self) -> bool {
        &&& 1 <= self.block_size() <= 2642246
        &&& forall|i: int| 0 <= i < self@.len() ==> sorted_by_value(#[trigger] self@[i])
    }

    /// The entries in the order in which they leave.
    pub open spec fn entries(&self) -> Seq<(usize, u64)> {
        self@.flatten()
    }

    /// A structure for `n` elements: one empty block.
    pub fn new(n: usize) -> (r: PartialSortDS)
        ensures
            r.wf(),
            r.block_size() == target_block_size(n as nat),
            r@ == seq![Seq::<(usize, u64)>::empty()],
    {
        let mut b: usize = 1;
        while b < 2642246 && cube(b) < n as u128
            invariant
                1 <= b <= 2642246,
                target_block_size(n as nat) == cube_root_from(n as nat, b as nat),
            decreases 2642246 - b,
        {
            b += 1;
        }
        let mut blocks: Vec<Vec<(usize, u64)>> = Vec::new();
        blocks.push(Vec::new());
        let r = PartialSortDS { blocks, block_size: b };
        proof {
            assert(r@ =~= seq![Seq::<(usize, u64)>::empty()]);
        }
        r
    }

    /// The target block size.
    pub fn target_size(&self) -> (r: usize)
        ensures
            r == self.block_size(),
    {
        self.block_size
    }

    /// The number of blocks.
    pub fn block_count(&self) -> (r: usize)
        ensures
            r == self@.len(),
    {
        self.blocks.len()
    }

    /// Puts the entry into the last block and splits that block once it
    /// holds more than twice the target size.  With no block left the
    /// entry starts a new block.
    pub fn insert(&mut self, key: usize, value: u64)
        requires
            old(self).wf(),
        ensures
            final(self).wf(),
            final(self).block_size() == old(self).block_size(),
            final(self)@ == insert_into(old(self)@, old(self).block_size(), (key, value)),
            final(self).entries().to_multiset() == old(self).entries().to_multiset().insert((key, value)),
    {
        let ghost before = self@;
        let mut last = match self.blocks.pop() {
            Some(last) => last,
            None => Vec::new(),
        };
        proof {
            assert(last@ =~= last_block(before));
            assert(self@ =~= front_blocks(before));
            if before.len() > 0 {
                assert(sorted_by_value(before[before.len() - 1]));
            }
            lemma_insert_adds_one(before, self.block_size as nat, (key, value));
        }
        place_entry(&mut last, key, value);
        let ghost grown = last@;
        if last.len() > self.block_size * 2 {
            let tail = last.split_off(self.block_size);
            proof {
                assert(last@ =~= grown.take(self.block_size as int));
                assert(tail@ =~= grown.skip(self.block_size as int));
            }
            self.blocks.push(last);
            self.blocks.push(tail);
            proof {
                assert(self@ =~= front_blocks(before).push(grown.take(self.block_size as int)).push(
                    grown.skip(self.block_size as int),
                ));
            }
        } else {
            self.blocks.push(last);
            proof {
                assert(self@ =~= front_blocks(before).push(grown));
            }
        }
    }

    /// Sorts `items` by value and makes them the new first block.
    pub fn batch_prepend(&mut self, items: Vec<(usize, u64)>)
        requires
            old(self).wf(),
        ensures
            final(self).wf(),
            final(self).block_size() == old(self).block_size(),
            final(self)@ == seq![stable_sort(items@)] + old(self)@,
            final(self).entries() == stable_sort(items@) + old(self).entries(),
            final(self).entries().to_multiset() == old(self).entries().to_multiset().add(
                items@.to_multiset(),
            ),
    {
        let ghost before = self@;
        let new_block = sort_entries(items);
        self.blocks.insert(0, new_block);
        proof {
            assert(self@ =~= seq![stable_sort(items@)] + before);
            assert forall|i: int| 0 <= i < self@.len() implies sorted_by_value(#[trigger] self@[i]) by {
                if i > 0 {
                    assert(self@[i] == before[i - 1]);
                }
            }
            assert(self@.drop_first() =~= before);
            lemma_stable_sort(items@);
            vstd::seq_lib::lemma_multiset_commutative(stable_sort(items@), before.flatten());
            assert(self@.flatten().to_multiset() =~= before.flatten().to_multiset().add(
                items@.to_multiset(),
            ));
        }
    }

    /// Takes up to `count` entries out, in the order of the blocks and
    /// inside a block in its order.  Returns their keys and the value of
    /// the last one taken.  Blocks left empty are discarded.
    pub fn pull(&mut self, count: usize) -> (r: (Vec<usize>, Option<u64>))
        requires
            old(self).wf(),
        ensures
            final(self).wf(),
            final(self).block_size() == old(self).block_size(),
            final(self)@ == stripped(old(self)@, count as nat),
            ({
                let flat = old(self).entries();
                let taken = if count <= flat.len() {
                    count as int
                } else {
                    flat.len() as int
                };
                &&& r.0@ == Seq::new(taken as nat, |i: int| flat[i].0)
                &&& r.1 == if taken == 0 {
                    None
                } else {
                    Some(flat[taken - 1].1)
                }
                &&& final(self).entries() == flat.skip(taken)
            }),
    {
        let ghost before = self@;
        let total = self.blocks.len();
        let mut rev: Vec<Vec<(usize, u64)>> = Vec::new();
        while self.blocks.len() > 0
            invariant
                self.blocks@.len() + rev@.len() == total,
                total == before.len(),
                self.block_size == old(self).block_size,
                forall|j: int| 0 <= j < rev@.len() ==> (#[trigger] rev@[j])@ == before[total - 1 - j],
                forall|j: int| 0 <= j < self.blocks@.len() ==> (#[trigger] self.blocks@[j])@ == before[j],
            decreases self.blocks@.len(),
        {
            match self.blocks.pop() {
                Some(b) => {
                    rev.push(b);
                },
                None => {},
            }
        }
        let mut result: Vec<usize> = Vec::new();
        let mut upper_bound: Option<u64> = None;
        let ghost mut got: Seq<(usize, u64)> = Seq::empty();
        proof {
            assert(self@ =~= Seq::empty());
            assert(before.skip(0) =~= before);
        }
        while rev.len() > 0
            invariant
                rev@.len() <= total,
                total == before.len(),
                self.block_size == old(self).block_size,
                forall|j: int| 0 <= j < rev@.len() ==> (#[trigger] rev@[j])@ == before[total - 1 - j],
                result@.len() == got.len(),
                got.len() <= count,
                forall|q: int| 0 <= q < got.len() ==> result@[q] == (#[trigger] got[q]).0,
                upper_bound == if got.len() == 0 {
                    None
                } else {
                    Some(got.last().1)
                },
                got + pulled(before.skip(total - rev@.len()), (count - got.len()) as nat) == pulled(
                    before,
                    count as nat,
                ),
                self@ + stripped(before.skip(total - rev@.len()), (count - got.len()) as nat) == stripped(
                    before,
                    count as nat,
                ),
            decreases rev@.len(),
        {
            let ghost i = total - rev@.len();
            let ghost got_before = got;
            let ghost kept_before = self@;
            let ghost budget = (count - got.len()) as nat;
            let popped = rev.pop();
            let mut block = match popped {
                Some(b) => b,
                None => Vec::new(),
            };
            let ghost whole = block@;
            proof {
                assert(whole == before[i]);
                assert(before.skip(i).first() == whole);
                assert(before.skip(i).drop_first() =~= before.skip(i + 1));
            }
            let room = count - result.len();
            let here = if room <= block.len() {
                room
            } else {
                block.len()
            };
            let mut q: usize = 0;
            while q < here
                invariant
                    q <= here <= block@.len(),
                    block@ == whole,
                    result@.len() == got.len(),
                    got == got_before + whole.take(q as int),
                    forall|m: int| 0 <= m < got.len() ==> result@[m] == (#[trigger] got[m]).0,
                    upper_bound == if got.len() == 0 {
                        None
                    } else {
                        Some(got.last().1)
                    },
                decreases here - q,
            {
                let entry = block[q];
                result.push(entry.0);
                upper_bound = Some(entry.1);
                proof {
                    got = got.push(entry);
                    assert(got =~= got_before + whole.take(q + 1));
                }
                q += 1;
            }
            if here < block.len() {
                let rest = block.split_off(here);
                self.blocks.push(rest);
                proof {
                    assert(self@ =~= kept_before.push(whole.skip(here as int)));
                    let tail = stripped(before.skip(i + 1), (budget - here) as nat);
                    assert(kept_before + (seq![whole.skip(here as int)] + tail) =~= self@ + tail);
                }
            } else {
                proof {
                    assert(self@ =~= kept_before);
                }
            }
            proof {
                let more = pulled(before.skip(i + 1), (budget - here) as nat);
                assert(got_before + (whole.take(here as int) + more) =~= got + more);
            }
        }
        proof {
            let i = total as int;
            assert(before.skip(i) =~= Seq::empty());
            assert(got =~= pulled(before, count as nat));
            assert(self@ =~= stripped(before, count as nat));
            lemma_pull_is_prefix(before, count as nat);
            lemma_stripped_sorted(before, count as nat);
            let flat = before.flatten();
            let taken = if count <= flat.len() {
                count as int
            } else {
                flat.len() as int
            };
            assert(got == flat.take(taken));
            assert forall|m: int| 0 <= m < taken implies result@[m] == flat[m].0 by {
                assert(result@[m] == got[m].0);
            }
            assert(result@ =~= Seq::new(taken as nat, |i: int| flat[i].0));
        }
        (result, upper_bound)
    }
}

} // verus!
