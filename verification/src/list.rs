//! The list of boxes seen as a sequence: where each box lies, which header
//! it carries, and how splitting, merging, marking and appending change it.
use crate::types::{Box, BlockInfo, Header, HEADER_SIZE};
use vstd::prelude::*;

verus! {

/// First address past the data of a box.
pub open spec fn block_end(b: BlockInfo) -> int {
    b.addr + HEADER_SIZE + b.size
}

/// The boxes of a list, in list order, lie in increasing address order,
/// none overlapping the next, the first one at a non-null address, and
/// every one of them within the address space.
#[verifier::opaque]
pub open spec fn well_placed(bs: Seq<BlockInfo>) -> bool {
    &&& bs.len() >= 1
    &&& bs[0].addr > 0
    &&& forall|i: int, j: int|
        #![trigger bs[i], bs[j]]
        0 <= i < j < bs.len() ==> block_end(bs[i]) <= bs[j].addr
    &&& forall|i: int| 0 <= i < bs.len() ==> block_end(#[trigger] bs[i]) <= usize::MAX
}

/// Some box of the list sits at address `a`.
pub open spec fn holds(bs: Seq<BlockInfo>, a: usize) -> bool {
    exists|i: int| 0 <= i < bs.len() && bs[i].addr == a
}

/// The position in the list of the box at address `a`.
pub open spec fn index_of(bs: Seq<BlockInfo>, a: usize) -> int {
    choose|i: int| 0 <= i < bs.len() && bs[i].addr == a
}

/// The header that the box at position `i` of the list carries.
pub open spec fn header_for(bs: Seq<BlockInfo>, i: int) -> Header {
    Header {
        prev: Box(if i == 0 { 0 } else { bs[i - 1].addr }),
        next: Box(if i + 1 < bs.len() { bs[i + 1].addr } else { 0 }),
        size: bs[i].size,
        free: bs[i].free,
    }
}

/// The list after the box at position `i` is split into a used box of
/// `data_size` bytes and a free box made of the rest.
pub open spec fn split_blocks(bs: Seq<BlockInfo>, i: int, data_size: usize) -> Seq<BlockInfo> {
    let b = bs[i];
    let rest: int = if b.size == 0 { 0 } else { b.size - data_size - HEADER_SIZE };
    bs.take(i) + seq![
        BlockInfo { addr: b.addr, size: data_size, free: false },
        BlockInfo { addr: (b.addr + HEADER_SIZE + data_size) as usize, size: rest as usize, free: true },
    ] + bs.skip(i + 1)
}

/// The boxes at positions `i` and `i + 1` may be merged: both are free.
pub open spec fn can_merge(bs: Seq<BlockInfo>, i: int) -> bool {
    &&& 0 <= i
    &&& i + 1 < bs.len()
    &&& bs[i].free
    &&& bs[i + 1].free
}

/// Two neighbouring boxes may be merged exactly when both of them are free:
/// a box in use never absorbs its neighbour, nor is it absorbed.
pub proof fn lemma_merge_needs_both_free(bs: Seq<BlockInfo>, i: int)
    requires
        well_placed(bs),
        0 <= i < bs.len(),
    ensures
        can_merge(bs, i) <==> (i + 1 < bs.len() && bs[i].free && bs[i + 1].free),
        !bs[i].free ==> !can_merge(bs, i),
        can_merge(bs, i) ==> {
            &&& merged_blocks(bs, i).len() + 1 == bs.len()
            &&& merged_blocks(bs, i)[i].free
            &&& merged_blocks(bs, i)[i].size == bs[i].size + HEADER_SIZE + bs[i + 1].size
        },
{
    if can_merge(bs, i) {
        lemma_merge_index(bs, i);
        lemma_merge_placed(bs, i);
    }
}

/// The list after the box at position `i + 1` is absorbed into the one at `i`.
pub open spec fn merged_blocks(bs: Seq<BlockInfo>, i: int) -> Seq<BlockInfo> {
    bs.take(i) + seq![
        BlockInfo {
            addr: bs[i].addr,
            size: (bs[i].size + HEADER_SIZE + bs[i + 1].size) as usize,
            free: bs[i].free,
        },
    ] + bs.skip(i + 2)
}

/// The list with the free flag of the box at position `i` set to `free`.
pub open spec fn marked_blocks(bs: Seq<BlockInfo>, i: int, free: bool) -> Seq<BlockInfo> {
    bs.update(i, BlockInfo { addr: bs[i].addr, size: bs[i].size, free })
}

/// In a well-placed list, the box at position `i` is the only one at its address.
pub proof fn lemma_index_of(bs: Seq<BlockInfo>, i: int)
    requires
        well_placed(bs),
        0 <= i < bs.len(),
    ensures
        holds(bs, bs[i].addr),
        index_of(bs, bs[i].addr) == i,
        bs[i].addr > 0,
{
    lemma_placed(bs, 0, i);
    assert(holds(bs, bs[i].addr));
    let j = index_of(bs, bs[i].addr);
    if j < i {
        lemma_placed(bs, j, i);
    } else if i < j {
        lemma_placed(bs, i, j);
    }
}

/// The header memory `mem` holds the header of every box of the list `bs`
/// at the box's address. It may also hold headers that are no longer on the
/// list, such as that of a box absorbed by a merge.
#[verifier::opaque]
pub open spec fn mem_matches(mem: Map<usize, Header>, bs: Seq<BlockInfo>) -> bool {
    forall|i: int|
        0 <= i < bs.len() ==> {
            &&& mem.contains_key(#[trigger] bs[i].addr)
            &&& mem[bs[i].addr] == header_for(bs, i)
        }
}

/// A list is well placed when its boxes are pairwise in order and each
/// ends within the address space.
pub proof fn lemma_placed_intro(bs: Seq<BlockInfo>)
    requires
        bs.len() >= 1,
        bs[0].addr > 0,
        forall|i: int, j: int|
            #![trigger bs[i], bs[j]]
            0 <= i < j < bs.len() ==> block_end(bs[i]) <= bs[j].addr,
        forall|i: int| 0 <= i < bs.len() ==> block_end(#[trigger] bs[i]) <= usize::MAX,
    ensures
        well_placed(bs),
{
    reveal(well_placed);
}

/// A well-placed list is not empty, and its root is not null.
pub proof fn lemma_nonempty(bs: Seq<BlockInfo>)
    requires
        well_placed(bs),
    ensures
        bs.len() >= 1,
        bs[0].addr > 0,
{
    reveal(well_placed);
}

/// What a well-placed list says of two of its boxes.
pub proof fn lemma_placed(bs: Seq<BlockInfo>, i: int, j: int)
    requires
        well_placed(bs),
        0 <= i < bs.len(),
        0 <= j < bs.len(),
    ensures
        bs.len() >= 1,
        bs[0].addr > 0,
        i < j ==> block_end(bs[i]) <= bs[j].addr,
        block_end(bs[i]) <= usize::MAX,
        block_end(bs[j]) <= usize::MAX,
{
    reveal(well_placed);
}

/// The memory holds the header of the box at position `i`.
pub proof fn lemma_mem_at(mem: Map<usize, Header>, bs: Seq<BlockInfo>, i: int)
    requires
        mem_matches(mem, bs),
        0 <= i < bs.len(),
    ensures
        mem.contains_key(bs[i].addr),
        mem[bs[i].addr] == header_for(bs, i),
{
    reveal(mem_matches);
}

/// Two positions of a well-placed list hold different addresses.
pub proof fn lemma_distinct(bs: Seq<BlockInfo>, i: int, j: int)
    requires
        well_placed(bs),
        0 <= i < bs.len(),
        0 <= j < bs.len(),
        i != j,
    ensures
        bs[i].addr != bs[j].addr,
        i < j ==> bs[i].addr < bs[j].addr,
{
    lemma_placed(bs, i, j);
    lemma_placed(bs, j, i);
}

/// Marking a box keeps the list well placed.
pub proof fn lemma_marked_placed(bs: Seq<BlockInfo>, i: int, free: bool)
    requires
        well_placed(bs),
        0 <= i < bs.len(),
    ensures
        well_placed(marked_blocks(bs, i, free)),
{
    let ns = marked_blocks(bs, i, free);
    lemma_placed(bs, 0, 0);
    assert forall|k: int, l: int|
        #![trigger ns[k], ns[l]]
        0 <= k < l < ns.len() implies block_end(ns[k]) <= ns[l].addr by {
        lemma_placed(bs, k, l);
    }
    assert forall|k: int| 0 <= k < ns.len() implies block_end(#[trigger] ns[k]) <= usize::MAX by {
        lemma_placed(bs, k, k);
    }
    lemma_placed_intro(ns);
}

/// One header write keeps the memory in step with a marked list.
pub proof fn lemma_marked(mem: Map<usize, Header>, bs: Seq<BlockInfo>, i: int, free: bool)
    requires
        well_placed(bs),
        mem_matches(mem, bs),
        0 <= i < bs.len(),
    ensures
        well_placed(marked_blocks(bs, i, free)),
        mem_matches(
            mem.insert(bs[i].addr, header_for(marked_blocks(bs, i, free), i)),
            marked_blocks(bs, i, free),
        ),
{
    reveal(mem_matches);
    lemma_marked_placed(bs, i, free);
    let ns = marked_blocks(bs, i, free);
    let nm = mem.insert(bs[i].addr, header_for(ns, i));
    assert forall|k: int| 0 <= k < ns.len() implies {
        &&& nm.contains_key(#[trigger] ns[k].addr)
        &&& nm[ns[k].addr] == header_for(ns, k)
    } by {
        if k != i {
            lemma_distinct(bs, k, i);
            assert(mem.contains_key(bs[k].addr));
            assert(header_for(ns, k) == header_for(bs, k));
        }
    }
}

/// Where the boxes of a split list come from.
pub proof fn lemma_split_index(bs: Seq<BlockInfo>, i: int, d: usize)
    requires
        0 <= i < bs.len(),
    ensures
        split_blocks(bs, i, d).len() == bs.len() + 1,
        forall|k: int| 0 <= k < i ==> #[trigger] split_blocks(bs, i, d)[k] == bs[k],
        forall|k: int|
            i + 1 < k < bs.len() + 1 ==> #[trigger] split_blocks(bs, i, d)[k] == bs[k - 1],
        split_blocks(bs, i, d)[i] == (BlockInfo { addr: bs[i].addr, size: d, free: false }),
        split_blocks(bs, i, d)[i + 1].addr == (bs[i].addr + HEADER_SIZE + d) as usize,
        split_blocks(bs, i, d)[i + 1].free,
        split_blocks(bs, i, d)[i + 1].size == (if bs[i].size == 0 {
            0
        } else {
            (bs[i].size - d - HEADER_SIZE) as usize
        }),
{
}

/// Splitting a box that has room for the split keeps the list well placed.
pub proof fn lemma_split_placed(bs: Seq<BlockInfo>, i: int, d: usize)
    requires
        well_placed(bs),
        0 <= i < bs.len(),
        bs[i].size != 0 || i + 1 == bs.len(),
        bs[i].size == 0 || d + HEADER_SIZE < bs[i].size,
        bs[i].size != 0 || bs[i].addr + 2 * HEADER_SIZE + d <= usize::MAX,
    ensures
        well_placed(split_blocks(bs, i, d)),
{
    lemma_placed(bs, 0, 0);
    let ns = split_blocks(bs, i, d);
    lemma_split_index(bs, i, d);
    lemma_placed(bs, i, i);
    assert forall|k: int, l: int|
        #![trigger ns[k], ns[l]]
        0 <= k < l < ns.len() implies block_end(ns[k]) <= ns[l].addr by {
        if l < i {
            lemma_placed(bs, k, l);
        } else if l == i || l == i + 1 {
            if k < i {
                lemma_placed(bs, k, i);
            }
        } else {
            if k < i {
                lemma_placed(bs, k, l - 1);
            } else if k == i || k == i + 1 {
                lemma_placed(bs, i, l - 1);
            } else {
                lemma_placed(bs, k - 1, l - 1);
            }
        }
    }
    assert forall|k: int| 0 <= k < ns.len() implies block_end(#[trigger] ns[k]) <= usize::MAX by {
        if k < i {
            lemma_placed(bs, k, k);
        } else if k > i + 1 {
            lemma_placed(bs, k - 1, k - 1);
        }
    }
    if i > 0 {
        assert(ns[0] == bs[0]);
    }
    lemma_placed_intro(ns);
}

/// The header memory after a split: the next box points back at the new
/// box, the new box gets its header, and the split box points forward to it.
pub open spec fn split_mem(mem: Map<usize, Header>, bs: Seq<BlockInfo>, i: int, d: usize) -> Map<
    usize,
    Header,
> {
    let ns = split_blocks(bs, i, d);
    let m1 = if i + 1 < bs.len() {
        mem.insert(bs[i + 1].addr, header_for(ns, i + 2))
    } else {
        mem
    };
    m1.insert(ns[i + 1].addr, header_for(ns, i + 1)).insert(bs[i].addr, header_for(ns, i))
}

/// The header writes of a split keep the memory in step with the list.
pub proof fn lemma_split_mem(mem: Map<usize, Header>, bs: Seq<BlockInfo>, i: int, d: usize)
    requires
        well_placed(bs),
        mem_matches(mem, bs),
        0 <= i < bs.len(),
        bs[i].size != 0 || i + 1 == bs.len(),
        bs[i].size == 0 || d + HEADER_SIZE < bs[i].size,
        bs[i].size != 0 || bs[i].addr + 2 * HEADER_SIZE + d <= usize::MAX,
    ensures
        mem_matches(split_mem(mem, bs, i, d), split_blocks(bs, i, d)),
{
    reveal(mem_matches);
    let ns = split_blocks(bs, i, d);
    let nm = split_mem(mem, bs, i, d);
    let n = bs.len();
    lemma_split_index(bs, i, d);
    lemma_split_placed(bs, i, d);
    let a = bs[i].addr;
    let na = ns[i + 1].addr;
    lemma_placed(bs, i, i);
    if i + 1 < n {
        lemma_placed(bs, i, i + 1);
    }
    assert forall|k: int| 0 <= k < n && k != i implies (#[trigger] bs[k]).addr != na by {
        lemma_placed(bs, k, i);
        lemma_placed(bs, i, k);
    }
    assert forall|k: int| 0 <= k < ns.len() implies {
        &&& nm.contains_key(#[trigger] ns[k].addr)
        &&& nm[ns[k].addr] == header_for(ns, k)
    } by {
        if k < i {
            lemma_distinct(bs, k, i);
            if i + 1 < n {
                lemma_distinct(bs, k, i + 1);
            }
            assert(mem.contains_key(bs[k].addr));
            assert(header_for(ns, k) == header_for(bs, k));
        } else if k == i + 2 {
            lemma_distinct(bs, i, i + 1);
        } else if k > i + 2 {
            lemma_distinct(bs, k - 1, i);
            lemma_distinct(bs, k - 1, i + 1);
            assert(mem.contains_key(bs[k - 1].addr));
            assert(header_for(ns, k) == header_for(bs, k - 1));
        }
    }
}

/// Where the boxes of a merged list come from.
pub proof fn lemma_merge_index(bs: Seq<BlockInfo>, i: int)
    requires
        0 <= i,
        i + 1 < bs.len(),
    ensures
        merged_blocks(bs, i).len() == bs.len() - 1,
        forall|k: int| 0 <= k < i ==> #[trigger] merged_blocks(bs, i)[k] == bs[k],
        forall|k: int| i < k < bs.len() - 1 ==> #[trigger] merged_blocks(bs, i)[k] == bs[k + 1],
        merged_blocks(bs, i)[i] == (BlockInfo {
            addr: bs[i].addr,
            size: (bs[i].size + HEADER_SIZE + bs[i + 1].size) as usize,
            free: bs[i].free,
        }),
{
}

/// Merging two neighbouring boxes keeps the list well placed.
pub proof fn lemma_merge_placed(bs: Seq<BlockInfo>, i: int)
    requires
        well_placed(bs),
        0 <= i,
        i + 1 < bs.len(),
    ensures
        well_placed(merged_blocks(bs, i)),
        block_end(merged_blocks(bs, i)[i]) == bs[i].addr + 2 * HEADER_SIZE + bs[i].size + bs[i
            + 1].size,
        block_end(merged_blocks(bs, i)[i]) <= block_end(bs[i + 1]),
        bs[i + 1].addr == block_end(bs[i]) ==> block_end(merged_blocks(bs, i)[i]) == block_end(
            bs[i + 1],
        ),
{
    lemma_placed(bs, 0, 0);
    let ns = merged_blocks(bs, i);
    lemma_merge_index(bs, i);
    lemma_placed(bs, i, i + 1);
    lemma_placed(bs, i + 1, i + 1);
    assert forall|k: int, l: int|
        #![trigger ns[k], ns[l]]
        0 <= k < l < ns.len() implies block_end(ns[k]) <= ns[l].addr by {
        if l <= i {
            lemma_placed(bs, k, l);
        } else if k < i {
            lemma_placed(bs, k, l + 1);
        } else if k == i {
            lemma_placed(bs, i + 1, l + 1);
        } else {
            lemma_placed(bs, k + 1, l + 1);
        }
    }
    assert forall|k: int| 0 <= k < ns.len() implies block_end(#[trigger] ns[k]) <= usize::MAX by {
        if k < i {
            lemma_placed(bs, k, k);
        } else if k > i {
            lemma_placed(bs, k + 1, k + 1);
        }
    }
    if i > 0 {
        assert(ns[0] == bs[0]);
    }
    lemma_placed_intro(ns);
}

/// The header memory after a merge: the box after the pair points back at
/// the first of them, which takes the second one's place; the second
/// header stays in memory, off the list.
pub open spec fn merge_mem(mem: Map<usize, Header>, bs: Seq<BlockInfo>, i: int) -> Map<usize, Header> {
    let ns = merged_blocks(bs, i);
    let m1 = if i + 2 < bs.len() {
        mem.insert(bs[i + 2].addr, header_for(ns, i + 1))
    } else {
        mem
    };
    m1.insert(bs[i].addr, header_for(ns, i))
}

/// The header writes of a merge keep the memory in step with the list.
pub proof fn lemma_merge_mem(mem: Map<usize, Header>, bs: Seq<BlockInfo>, i: int)
    requires
        well_placed(bs),
        mem_matches(mem, bs),
        0 <= i,
        i + 1 < bs.len(),
    ensures
        mem_matches(merge_mem(mem, bs, i), merged_blocks(bs, i)),
{
    reveal(mem_matches);
    let ns = merged_blocks(bs, i);
    let nm = merge_mem(mem, bs, i);
    let n = bs.len();
    lemma_merge_index(bs, i);
    let a = bs[i].addr;
    let na = bs[i + 1].addr;
    lemma_distinct(bs, i, i + 1);
    if i + 2 < n {
        lemma_distinct(bs, i + 1, i + 2);
        lemma_distinct(bs, i, i + 2);
    }
    assert forall|k: int| 0 <= k < ns.len() implies {
        &&& nm.contains_key(#[trigger] ns[k].addr)
        &&& nm[ns[k].addr] == header_for(ns, k)
    } by {
        if k < i {
            lemma_distinct(bs, k, i);
            lemma_distinct(bs, k, i + 1);
            if i + 2 < n {
                lemma_distinct(bs, k, i + 2);
            }
            assert(mem.contains_key(bs[k].addr));
            assert(header_for(ns, k) == header_for(bs, k));
        } else if k > i + 1 {
            lemma_distinct(bs, k + 1, i);
            lemma_distinct(bs, k + 1, i + 1);
            lemma_distinct(bs, k + 1, i + 2);
            assert(mem.contains_key(bs[k + 1].addr));
            assert(header_for(ns, k) == header_for(bs, k + 1));
        }
    }
}

/// Appending a box past the end of the last one keeps the list well placed.
pub proof fn lemma_append_placed(bs: Seq<BlockInfo>, nb: BlockInfo)
    requires
        well_placed(bs),
        nb.addr >= block_end(bs.last()),
        block_end(nb) <= usize::MAX,
    ensures
        well_placed(bs.push(nb)),
{
    let ns = bs.push(nb);
    lemma_nonempty(bs);
    lemma_placed(bs, 0, 0);
    let n = bs.len() - 1;
    assert forall|i: int, j: int|
        #![trigger ns[i], ns[j]]
        0 <= i < j < ns.len() implies block_end(ns[i]) <= ns[j].addr by {
        if j == ns.len() - 1 {
            lemma_placed(bs, i, n);
        } else {
            lemma_placed(bs, i, j);
        }
    }
    assert forall|k: int| 0 <= k < ns.len() implies block_end(#[trigger] ns[k]) <= usize::MAX by {
        if k < bs.len() {
            lemma_placed(bs, k, k);
        }
    }
    assert(ns[0] == bs[0]);
    lemma_placed_intro(ns);
}

/// Two header writes keep the memory in step with a list that a box was
/// appended to.
pub proof fn lemma_append(mem: Map<usize, Header>, bs: Seq<BlockInfo>, nb: BlockInfo)
    requires
        well_placed(bs),
        mem_matches(mem, bs),
        nb.addr >= block_end(bs.last()),
        block_end(nb) <= usize::MAX,
    ensures
        well_placed(bs.push(nb)),
        mem_matches(
            mem.insert(nb.addr, header_for(bs.push(nb), bs.len() as int)).insert(
                bs.last().addr,
                header_for(bs.push(nb), bs.len() - 1),
            ),
            bs.push(nb),
        ),
{
    reveal(mem_matches);
    lemma_append_placed(bs, nb);
    lemma_nonempty(bs);
    let ns = bs.push(nb);
    let n = bs.len() - 1;
    let nm = mem.insert(nb.addr, header_for(ns, bs.len() as int)).insert(
        bs.last().addr,
        header_for(ns, n),
    );
    lemma_placed(bs, n, n);
    assert forall|k: int| 0 <= k < ns.len() implies {
        &&& nm.contains_key(#[trigger] ns[k].addr)
        &&& nm[ns[k].addr] == header_for(ns, k)
    } by {
        if k < n {
            lemma_distinct(bs, k, n);
            lemma_placed(bs, k, n);
            assert(mem.contains_key(bs[k].addr));
            assert(header_for(ns, k) == header_for(bs, k));
        }
    }
}

/// Splitting a box keeps its extent: the used part stays where the box
/// was, the free rest starts right after it, and ends where the box ended.
pub proof fn lemma_split_keeps_extent(bs: Seq<BlockInfo>, i: int, d: usize)
    requires
        0 <= i < bs.len(),
        d + HEADER_SIZE < bs[i].size,
        block_end(bs[i]) <= usize::MAX,
    ensures
        split_blocks(bs, i, d)[i].addr == bs[i].addr,
        split_blocks(bs, i, d)[i + 1].addr == block_end(split_blocks(bs, i, d)[i]),
        block_end(split_blocks(bs, i, d)[i + 1]) == block_end(bs[i]),
{
    lemma_split_index(bs, i, d);
}

/// Merging a split box, once both parts are free, gives back the box as it
/// was, free.
pub proof fn lemma_merge_undoes_split(bs: Seq<BlockInfo>, i: int, d: usize)
    requires
        0 <= i < bs.len(),
        d + HEADER_SIZE < bs[i].size,
    ensures
        merged_blocks(marked_blocks(split_blocks(bs, i, d), i, true), i) == marked_blocks(bs, i, true),
{
    let ss = split_blocks(bs, i, d);
    let ms = marked_blocks(ss, i, true);
    lemma_split_index(bs, i, d);
    lemma_merge_index(ms, i);
    let r = merged_blocks(ms, i);
    let e = marked_blocks(bs, i, true);
    assert(r.len() == e.len());
    assert forall|k: int| 0 <= k < r.len() implies r[k] == e[k] by {
        if k > i {
            assert(r[k] == ms[k + 1]);
        }
    }
    assert(r =~= e);
}

/// In a well-placed list, the data areas of two different boxes do not
/// overlap.
pub proof fn lemma_data_disjoint(bs: Seq<BlockInfo>, i: int, j: int)
    requires
        well_placed(bs),
        0 <= i < bs.len(),
        0 <= j < bs.len(),
        i != j,
    ensures
        block_end(bs[i]) <= bs[j].addr + HEADER_SIZE || block_end(bs[j]) <= bs[i].addr + HEADER_SIZE,
{
    lemma_placed(bs, i, j);
    lemma_placed(bs, j, i);
}

/// A merge leaves the absorbed box's header in memory as it was: the box
/// is only unlinked.
pub proof fn lemma_merge_keeps_absorbed_header(mem: Map<usize, Header>, bs: Seq<BlockInfo>, i: int)
    requires
        well_placed(bs),
        mem_matches(mem, bs),
        0 <= i,
        i + 1 < bs.len(),
    ensures
        merge_mem(mem, bs, i).contains_key(bs[i + 1].addr),
        merge_mem(mem, bs, i)[bs[i + 1].addr] == mem[bs[i + 1].addr],
        mem[bs[i + 1].addr] == header_for(bs, i + 1),
{
    lemma_mem_at(mem, bs, i + 1);
    lemma_distinct(bs, i, i + 1);
    if i + 2 < bs.len() {
        lemma_distinct(bs, i + 1, i + 2);
    }
}

/// The address lies in the data area of a box of the list.
pub open spec fn in_data(bs: Seq<BlockInfo>, addr: usize) -> bool {
    exists|i: int| 0 <= i < bs.len() && bs[i].addr + HEADER_SIZE <= addr < block_end(#[trigger] bs[i])
}

/// The addresses of the headers whose bytes cover `addr`.
pub open spec fn covering(addr: usize) -> Set<usize> {
    Set::new(|k: usize| k <= addr < k + HEADER_SIZE)
}

/// A store into the data area of a box overwrites no header of the list.
pub proof fn lemma_store_misses_list(mem: Map<usize, Header>, bs: Seq<BlockInfo>, addr: usize)
    requires
        well_placed(bs),
        mem_matches(mem, bs),
        in_data(bs, addr),
    ensures
        mem_matches(mem.remove_keys(covering(addr)), bs),
        forall|j: int| 0 <= j < bs.len() ==> !covering(addr).contains(#[trigger] bs[j].addr),
{
    let i = choose|i: int| 0 <= i < bs.len() && bs[i].addr + HEADER_SIZE <= addr < block_end(#[trigger] bs[i]);
    assert forall|j: int| 0 <= j < bs.len() implies !covering(addr).contains(#[trigger] bs[j].addr) by {
        lemma_placed(bs, i, j);
        lemma_placed(bs, j, i);
    }
    reveal(mem_matches);
    let nm = mem.remove_keys(covering(addr));
    assert forall|j: int| 0 <= j < bs.len() implies {
        &&& nm.contains_key(#[trigger] bs[j].addr)
        &&& nm[bs[j].addr] == header_for(bs, j)
    } by {
        assert(!covering(addr).contains(bs[j].addr));
        assert(mem.contains_key(bs[j].addr));
    }
}

/// The bytes that the boxes of the list take, their headers included.
pub open spec fn span(bs: Seq<BlockInfo>) -> int
    decreases bs.len(),
{
    if bs.len() == 0 {
        0
    } else {
        span(bs.drop_last()) + HEADER_SIZE + bs.last().size
    }
}

/// The bytes of two lists put end to end add up.
pub proof fn lemma_span_concat(a: Seq<BlockInfo>, b: Seq<BlockInfo>)
    ensures
        span(a + b) == span(a) + span(b),
    decreases b.len(),
{
    if b.len() == 0 {
        assert(a + b =~= a);
    } else {
        lemma_span_concat(a, b.drop_last());
        assert((a + b).drop_last() =~= a + b.drop_last());
    }
}

/// The bytes of a list of one or two boxes.
proof fn lemma_span_short(x: BlockInfo, y: BlockInfo)
    ensures
        span(seq![x]) == HEADER_SIZE + x.size,
        span(seq![x, y]) == 2 * HEADER_SIZE + x.size + y.size,
{
    assert(seq![x].drop_last() =~= Seq::<BlockInfo>::empty());
    assert(span(Seq::<BlockInfo>::empty()) == 0);
    assert(span(seq![x]) == HEADER_SIZE + x.size);
    assert(seq![x, y].drop_last() =~= seq![x]);
}

/// Splitting a box keeps the bytes that the list takes, headers included.
pub proof fn lemma_split_keeps_span(bs: Seq<BlockInfo>, i: int, d: usize)
    requires
        0 <= i < bs.len(),
        d + HEADER_SIZE < bs[i].size,
    ensures
        span(split_blocks(bs, i, d)) == span(bs),
{
    let p = bs.take(i);
    let q = bs.skip(i + 1);
    assert(bs =~= p + seq![bs[i]] + q);
    lemma_split_index(bs, i, d);
    let ns = split_blocks(bs, i, d);
    let pair = seq![ns[i], ns[i + 1]];
    assert(ns =~= p + pair + q);
    lemma_span_concat(p + seq![bs[i]], q);
    lemma_span_concat(p, seq![bs[i]]);
    lemma_span_concat(p + pair, q);
    lemma_span_concat(p, pair);
    lemma_span_short(bs[i], bs[i]);
    lemma_span_short(ns[i], ns[i + 1]);
}

/// Merging two boxes keeps the bytes that the list takes, headers included.
pub proof fn lemma_merge_keeps_span(bs: Seq<BlockInfo>, i: int)
    requires
        well_placed(bs),
        0 <= i,
        i + 1 < bs.len(),
    ensures
        span(merged_blocks(bs, i)) == span(bs),
{
    lemma_placed(bs, i, i + 1);
    lemma_placed(bs, i + 1, i + 1);
    let p = bs.take(i);
    let q = bs.skip(i + 2);
    let pair = seq![bs[i], bs[i + 1]];
    assert(bs =~= p + pair + q);
    lemma_merge_index(bs, i);
    let ns = merged_blocks(bs, i);
    assert(ns =~= p + seq![ns[i]] + q);
    lemma_span_concat(p + pair, q);
    lemma_span_concat(p, pair);
    lemma_span_concat(p + seq![ns[i]], q);
    lemma_span_concat(p, seq![ns[i]]);
    lemma_span_short(bs[i], bs[i + 1]);
    lemma_span_short(ns[i], ns[i]);
}

/// Counts over the first `k` boxes of the list: free boxes, their data
/// bytes, used boxes, their data bytes.
pub open spec fn tally(bs: Seq<BlockInfo>, k: int) -> (nat, nat, nat, nat)
    decreases k,
{
    if k <= 0 {
        (0, 0, 0, 0)
    } else {
        let t = tally(bs, k - 1);
        let b = bs[k - 1];
        if b.free {
            (t.0 + 1, t.1 + b.size as nat, t.2, t.3)
        } else {
            (t.0, t.1, t.2 + 1, t.3 + b.size as nat)
        }
    }
}

/// Every box counted is either free or used, and the counted boxes with
/// their headers fit between the first box and the end of the last one
/// counted.
pub proof fn lemma_tally_bound(bs: Seq<BlockInfo>, k: int)
    requires
        well_placed(bs),
        0 <= k <= bs.len(),
    ensures
        tally(bs, k).0 + tally(bs, k).2 == k,
        k == 0 ==> tally(bs, k).1 + tally(bs, k).3 == 0,
        k > 0 ==> tally(bs, k).1 + tally(bs, k).3 + k * HEADER_SIZE <= block_end(bs[k - 1])
            - bs[0].addr,
        tally(bs, k).1 + tally(bs, k).3 + k * HEADER_SIZE <= usize::MAX,
    decreases k,
{
    if k > 0 {
        lemma_tally_bound(bs, k - 1);
        lemma_placed(bs, k - 1, k - 1);
        lemma_placed(bs, 0, k - 1);
        if k > 1 {
            lemma_placed(bs, k - 2, k - 1);
        }
    }
}

/// Freeing a used box among the first `k` moves one box, with its data
/// bytes, from the used counts to the free ones.
pub proof fn lemma_tally_after_free(bs: Seq<BlockInfo>, i: int, k: int)
    requires
        0 <= i < k <= bs.len(),
        !bs[i].free,
    ensures
        tally(marked_blocks(bs, i, true), k) == ({
            let t = tally(bs, k);
            (t.0 + 1, (t.1 + bs[i].size) as nat, (t.2 - 1) as nat, (t.3 - bs[i].size) as nat)
        }),
        tally(bs, k).2 >= 1,
        tally(bs, k).3 >= bs[i].size,
    decreases k,
{
    let ns = marked_blocks(bs, i, true);
    if k - 1 > i {
        lemma_tally_after_free(bs, i, k - 1);
        assert(ns[k - 1] == bs[k - 1]);
    } else {
        lemma_tally_same_prefix(bs, ns, i);
    }
}

/// Two lists that agree on their first `k` boxes count the same over them.
pub proof fn lemma_tally_same_prefix(bs: Seq<BlockInfo>, ns: Seq<BlockInfo>, k: int)
    requires
        0 <= k <= bs.len(),
        k <= ns.len(),
        forall|j: int| 0 <= j < k ==> bs[j] == ns[j],
    ensures
        tally(bs, k) == tally(ns, k),
    decreases k,
{
    if k > 0 {
        lemma_tally_same_prefix(bs, ns, k - 1);
    }
}

} // verus!
