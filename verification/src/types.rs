//! Boxes and their headers, and the memory that holds them.
//!
//! Every allocation is a *box*: a header followed by its data. The headers
//! form a doubly linked list, in increasing address order, that starts at the
//! heap's root box. `Heap` is the memory of these headers (and of the bytes a
//! program stores in the data areas); `Box` and `Data` are addresses into it.
use crate::list::{
    block_end, can_merge, covering, header_for, holds, in_data, index_of, lemma_append, lemma_index_of, lemma_marked,
    lemma_mem_at, lemma_merge_index, lemma_merge_mem, lemma_merge_placed,
    lemma_nonempty, lemma_placed, lemma_split_index, lemma_store_misses_list, lemma_split_mem, lemma_split_placed,
    marked_blocks, mem_matches, merge_mem, merged_blocks, split_blocks, split_mem, well_placed,
};
use std::collections::HashMap;
use vstd::prelude::*;

verus! {

broadcast use vstd::std_specs::hash::group_hash_axioms;

/// Bytes that a header takes in front of the data of its box: a link to the
/// previous box, a link to the next one, the data size and the free flag,
/// one machine word each on the 64-bit target.
pub const HEADER_SIZE: usize = 32;

/// Address of a box, that is, of its header. Address 0 is the null box.
#[derive(Clone, Copy)]
pub struct Box(pub usize);

/// Address of the data of a box, right after its header.
#[derive(Clone, Copy)]
pub struct Data(pub usize);

/// The header in front of every box.
#[derive(Clone, Copy)]
pub struct Header {
    pub prev: Box,
    pub next: Box,
    pub size: usize,
    pub free: bool,
}

/// What the list says of one box: where it is, how much data it holds,
/// and whether it is free.
#[derive(Clone, Copy)]
pub struct BlockInfo {
    pub addr: usize,
    pub size: usize,
    pub free: bool,
}

impl Header {
    /// The header of a fresh root box: no neighbours, no data, free.
    pub fn default() -> (h: Header)
        ensures
            h == (Header { prev: Box(0), next: Box(0), size: 0, free: true }),
    {
        Header { prev: Box::null(), next: Box::null(), size: 0, free: true }
    }
}

/// The number of bytes a header takes.
pub fn header_size() -> (r: usize)
    ensures
        r == HEADER_SIZE,
{
    HEADER_SIZE
}

/// The memory of the boxes: the header at each box address, and the bytes
/// that programs store in the data areas.
pub struct Heap {
    root: Box,
    mem: HashMap<usize, Header>,
    bytes: HashMap<usize, u8>,
    blocks: Ghost<Seq<BlockInfo>>,
}

impl Heap {
    /// The boxes of the list, from the root on.
    pub closed spec fn blocks(&self) -> Seq<BlockInfo> {
        self.blocks@
    }

    /// The bytes stored in the data areas, by address.
    pub closed spec fn contents(&self) -> Map<usize, u8> {
        self.bytes@
    }

    /// The headers in memory, by address: those of the boxes of the list,
    /// and those that boxes absorbed by merges left behind.
    pub closed spec fn headers(&self) -> Map<usize, Header> {
        self.mem@
    }

    /// The headers in memory are exactly those of the list, each one linked
    /// to its neighbours, and the list is well placed.
    pub closed spec fn wf(&self) -> bool {
        &&& well_placed(self.blocks@)
        &&& self.root.0 == self.blocks@[0].addr
        &&& mem_matches(self.mem@, self.blocks@)
    }

    /// The list of a valid heap is well placed.
    pub proof fn lemma_wf_placed(&self)
        requires
            self.wf(),
        ensures
            well_placed(self.blocks()),
            self.blocks().len() >= 1,
    {
        lemma_nonempty(self.blocks@);
    }

    /// The header memory of a valid heap holds the header of every box of
    /// the list, at the box's address.
    pub proof fn lemma_headers(&self, i: int)
        requires
            self.wf(),
            0 <= i < self.blocks().len(),
        ensures
            self.headers().contains_key(self.blocks()[i].addr),
            self.headers()[self.blocks()[i].addr] == header_for(self.blocks(), i),
    {
        lemma_mem_at(self.mem@, self.blocks@, i);
    }

    /// The data areas of two different boxes of a valid heap never overlap.
    pub proof fn lemma_data_disjoint(&self, i: int, j: int)
        requires
            self.wf(),
            0 <= i < self.blocks().len(),
            0 <= j < self.blocks().len(),
            i != j,
        ensures
            block_end(self.blocks()[i]) <= self.blocks()[j].addr + HEADER_SIZE
                || block_end(self.blocks()[j]) <= self.blocks()[i].addr + HEADER_SIZE,
    {
        crate::list::lemma_data_disjoint(self.blocks@, i, j);
    }

    /// A heap whose only box is a free, empty root at `root`.
    pub fn new(root: Box) -> (h: Heap)
        requires
            root.0 > 0,
            root.0 + HEADER_SIZE <= usize::MAX,
        ensures
            h.wf(),
            h.blocks() == seq![BlockInfo { addr: root.0, size: 0, free: true }],
            h.contents() == Map::<usize, u8>::empty(),
            h.headers() == Map::<usize, Header>::empty().insert(
                root.0,
                Header { prev: Box(0), next: Box(0), size: 0, free: true },
            ),
    {
        let mut mem: HashMap<usize, Header> = HashMap::new();
        mem.insert(root.0, Header::default());
        let ghost first = seq![BlockInfo { addr: root.0, size: 0, free: true }];
        let h = Heap { root, mem, bytes: HashMap::new(), blocks: Ghost(first) };
        proof {
            reveal(well_placed);
            reveal(mem_matches);
            let bs = h.blocks@;
            assert(h.mem@[bs[0].addr] == header_for(bs, 0));
            assert forall|a: usize| #[trigger] h.mem@.contains_key(a) implies holds(bs, a) by {
                assert(bs[0].addr == a);
            }
        }
        h
    }

    /// The root box, where the list starts.
    pub fn root(&self) -> (r: Box)
        requires
            self.wf(),
        ensures
            r.0 == self.blocks()[0].addr,
    {
        self.root
    }

    /// A box of the list sits at `addr`.
    pub fn is_box(&self, addr: usize) -> (r: bool)
        requires
            self.wf(),
        ensures
            r == holds(self.blocks(), addr),
    {
        let ghost bs = self.blocks@;
        proof {
            lemma_nonempty(bs);
            lemma_index_of(bs, 0);
        }
        let mut ptr = self.root;
        let ghost mut k: int = 0;
        loop
            invariant
                self.wf(),
                bs == self.blocks@,
                well_placed(bs),
                0 <= k < bs.len(),
                ptr.0 == bs[k].addr,
                index_of(bs, ptr.0) == k,
                holds(bs, ptr.0),
                forall|j: int| 0 <= j < k ==> #[trigger] bs[j].addr != addr,
            ensures
                k + 1 == bs.len(),
                forall|j: int| 0 <= j < bs.len() ==> #[trigger] bs[j].addr != addr,
            decreases bs.len() - k,
        {
            if ptr.0 == addr {
                return true;
            }
            if !ptr.has_next(self) {
                break ;
            }
            proof {
                lemma_index_of(bs, k + 1);
            }
            ptr = ptr.next(self);
            proof {
                k = k + 1;
            }
        }
        false
    }

    /// The first address past the last box of the list.
    pub fn end(&self) -> (r: usize)
        requires
            self.wf(),
        ensures
            r == block_end(self.blocks().last()),
    {
        let ghost bs = self.blocks@;
        proof {
            lemma_nonempty(bs);
            lemma_index_of(bs, 0);
        }
        let mut ptr = self.root;
        let ghost mut k: int = 0;
        while ptr.has_next(self)
            invariant
                self.wf(),
                bs == self.blocks@,
                well_placed(bs),
                0 <= k < bs.len(),
                ptr.0 == bs[k].addr,
                index_of(bs, ptr.0) == k,
                holds(bs, ptr.0),
            decreases bs.len() - k,
        {
            proof {
                lemma_index_of(bs, k + 1);
            }
            ptr = ptr.next(self);
            proof {
                k = k + 1;
            }
        }
        ptr.next_box_by_size(self).0
    }

    /// The byte stored at `addr`, if a program stored one there.
    pub fn read_byte(&self, addr: usize) -> (r: Option<u8>)
        ensures
            r == (if self.contents().contains_key(addr) {
                Some(self.contents()[addr])
            } else {
                None
            }),
    {
        match self.bytes.get(&addr) {
            Some(v) => Some(*v),
            None => None,
        }
    }

    /// The address lies in the data area of a box of the list.
    pub fn is_data(&self, addr: usize) -> (r: bool)
        requires
            self.wf(),
        ensures
            r == in_data(self.blocks(), addr),
    {
        let ghost bs = self.blocks@;
        proof {
            lemma_nonempty(bs);
            lemma_index_of(bs, 0);
        }
        let mut ptr = self.root;
        let ghost mut k: int = 0;
        loop
            invariant
                self.wf(),
                bs == self.blocks@,
                well_placed(bs),
                0 <= k < bs.len(),
                ptr.0 == bs[k].addr,
                index_of(bs, ptr.0) == k,
                holds(bs, ptr.0),
                forall|j: int|
                    0 <= j < k ==> !(bs[j].addr + HEADER_SIZE <= addr < block_end(#[trigger] bs[j])),
            ensures
                k + 1 == bs.len(),
                forall|j: int|
                    0 <= j < bs.len() ==> !(bs[j].addr + HEADER_SIZE <= addr < block_end(
                        #[trigger] bs[j],
                    )),
            decreases bs.len() - k,
        {
            proof {
                lemma_placed(bs, k, k);
            }
            let start = ptr.data().0;
            let end = ptr.next_box_by_size(self).0;
            if start <= addr && addr < end {
                return true;
            }
            if !ptr.has_next(self) {
                break ;
            }
            proof {
                lemma_index_of(bs, k + 1);
            }
            ptr = ptr.next(self);
            proof {
                k = k + 1;
            }
        }
        false
    }

    /// Store `value` at `addr`, in the data area of a box. Headers left in
    /// memory by merged boxes whose bytes cover `addr` are overwritten.
    pub fn write_byte(&mut self, addr: usize, value: u8)
        requires
            old(self).wf(),
            in_data(old(self).blocks(), addr),
        ensures
            final(self).wf(),
            final(self).blocks() == old(self).blocks(),
            final(self).contents() == old(self).contents().insert(addr, value),
            final(self).headers() == old(self).headers().remove_keys(covering(addr)),
    {
        let ghost bs = self.blocks@;
        proof {
            lemma_nonempty(bs);
            lemma_store_misses_list(self.mem@, bs, addr);
            let i = choose|i: int| 0 <= i < bs.len() && bs[i].addr + HEADER_SIZE <= addr < block_end(#[trigger] bs[i]);
            lemma_placed(bs, i, i);
        }
        self.bytes.insert(addr, value);
        let lo: usize = if addr >= HEADER_SIZE - 1 {
            addr - (HEADER_SIZE - 1)
        } else {
            0
        };
        let mut k = lo;
        while k <= addr
            invariant
                lo <= k <= addr + 1,
                addr + 1 <= usize::MAX,
                addr >= HEADER_SIZE - 1 ==> lo == addr - (HEADER_SIZE - 1),
                addr < HEADER_SIZE - 1 ==> lo == 0,
                self.mem@ == old(self).mem@.remove_keys(Set::new(|x: usize| lo <= x < k)),
                self.bytes@ == old(self).bytes@.insert(addr, value),
                self.blocks == old(self).blocks,
                self.root == old(self).root,
            decreases addr + 1 - k,
        {
            self.mem.remove(&k);
            proof {
                assert(self.mem@ =~= old(self).mem@.remove_keys(Set::new(|x: usize| lo <= x < k + 1)));
            }
            k = k + 1;
        }
        proof {
            assert(Set::new(|x: usize| lo <= x < k) =~= covering(addr));
        }
    }

    /// Link a new used box of `data_size` bytes at `new_box` after `last`,
    /// the last box of the list.
    pub fn append_box(&mut self, last: Box, new_box: Box, data_size: usize)
        requires
            old(self).wf(),
            last.0 == old(self).blocks().last().addr,
            new_box.0 >= block_end(old(self).blocks().last()),
            new_box.0 + HEADER_SIZE + data_size <= usize::MAX,
        ensures
            final(self).wf(),
            final(self).blocks() == old(self).blocks().push(
                BlockInfo { addr: new_box.0, size: data_size, free: false },
            ),
            final(self).contents() == old(self).contents(),
            final(self).headers() == old(self).headers().insert(
                new_box.0,
                header_for(final(self).blocks(), old(self).blocks().len() as int),
            ).insert(last.0, header_for(final(self).blocks(), old(self).blocks().len() - 1)),
    {
        let ghost bs = self.blocks@;
        let ghost n = bs.len() - 1;
        let ghost nb = BlockInfo { addr: new_box.0, size: data_size, free: false };
        let ghost ns = bs.push(nb);
        proof {
            lemma_nonempty(bs);
            lemma_index_of(bs, n);
        }
        let h = last.header(self);
        self.mem.insert(new_box.0, Header { prev: last, next: Box::null(), size: data_size, free: false });
        self.mem.insert(last.0, Header { prev: h.prev, next: new_box, size: h.size, free: h.free });
        self.blocks = Ghost(ns);
        proof {
            lemma_append(old(self).mem@, bs, nb);
            assert(header_for(ns, n) == (Header { prev: h.prev, next: new_box, size: h.size, free: h.free }));
            if n > 0 {
                assert(ns[0] == bs[0]);
            }
        }
    }
}

impl Box {
    /// The null box.
    pub fn null() -> (r: Box)
        ensures
            r.0 == 0,
    {
        Box::from_uint(0)
    }

    /// This is the null box.
    pub fn is_null(&self) -> (r: bool)
        ensures
            r == (self.0 == 0),
    {
        self.0 == 0
    }

    /// The box whose header is at `ptr`.
    pub fn from_ptr(ptr: usize) -> (r: Box)
        ensures
            r.0 == ptr,
    {
        Box(ptr)
    }

    /// The box whose header is at address `u`.
    pub fn from_uint(u: usize) -> (r: Box)
        ensures
            r.0 == u,
    {
        Box(u)
    }

    /// The data of this box, right after its header.
    pub fn data(&self) -> (r: Data)
        requires
            self.0 + HEADER_SIZE <= usize::MAX,
        ensures
            r.0 == self.0 + HEADER_SIZE,
    {
        Data::from_uint(self.0 + header_size())
    }

    /// A copy of this box's header.
    pub fn header(&self, heap: &Heap) -> (h: Header)
        requires
            heap.wf(),
            holds(heap.blocks(), self.0),
        ensures
            h == header_for(heap.blocks(), index_of(heap.blocks(), self.0)),
            heap.headers().contains_key(self.0),
            h == heap.headers()[self.0],
    {
        let ghost i = index_of(heap.blocks(), self.0);
        proof {
            lemma_index_of(heap.blocks@, i);
            lemma_mem_at(heap.mem@, heap.blocks@, i);
        }
        match heap.mem.get(&self.0) {
            Some(h) => *h,
            None => {
                proof {
                    lemma_mem_at(heap.mem@, heap.blocks@, i);
                }
                Header::default()
            },
        }
    }

    /// The next box in the list, or the null box after the last one.
    pub fn next(&self, heap: &Heap) -> (r: Box)
        requires
            heap.wf(),
            holds(heap.blocks(), self.0),
        ensures
            r == header_for(heap.blocks(), index_of(heap.blocks(), self.0)).next,
    {
        self.header(heap).next
    }

    /// This is not the last box of the list.
    pub fn has_next(&self, heap: &Heap) -> (r: bool)
        requires
            heap.wf(),
            holds(heap.blocks(), self.0),
        ensures
            r == (index_of(heap.blocks(), self.0) + 1 < heap.blocks().len()),
    {
        proof {
            let bs = heap.blocks();
            let i = index_of(bs, self.0);
            if i + 1 < bs.len() {
                lemma_index_of(bs, i + 1);
            }
        }
        !self.next(heap).is_null()
    }

    /// The previous box in the list, or the null box before the root.
    pub fn prev(&self, heap: &Heap) -> (r: Box)
        requires
            heap.wf(),
            holds(heap.blocks(), self.0),
        ensures
            r == header_for(heap.blocks(), index_of(heap.blocks(), self.0)).prev,
    {
        self.header(heap).prev
    }

    /// This is not the root box.
    pub fn has_prev(&self, heap: &Heap) -> (r: bool)
        requires
            heap.wf(),
            holds(heap.blocks(), self.0),
        ensures
            r == (index_of(heap.blocks(), self.0) > 0),
    {
        proof {
            let bs = heap.blocks();
            let i = index_of(bs, self.0);
            if i > 0 {
                lemma_index_of(bs, i - 1);
            }
        }
        !self.prev(heap).is_null()
    }

    /// The number of data bytes of this box.
    pub fn size(&self, heap: &Heap) -> (r: usize)
        requires
            heap.wf(),
            holds(heap.blocks(), self.0),
        ensures
            r == heap.blocks()[index_of(heap.blocks(), self.0)].size,
    {
        self.header(heap).size
    }

    /// This box is free.
    pub fn is_free(&self, heap: &Heap) -> (r: bool)
        requires
            heap.wf(),
            holds(heap.blocks(), self.0),
        ensures
            r == heap.blocks()[index_of(heap.blocks(), self.0)].free,
    {
        self.header(heap).free
    }

    /// The box that fits immediately after this allocation.
    pub fn next_box_by_size(&self, heap: &Heap) -> (r: Box)
        requires
            heap.wf(),
            holds(heap.blocks(), self.0),
        ensures
            r.0 == block_end(heap.blocks()[index_of(heap.blocks(), self.0)]),
    {
        proof {
            let i = index_of(heap.blocks(), self.0);
            lemma_index_of(heap.blocks(), i);
            lemma_placed(heap.blocks(), i, i);
        }
        Box::from_uint(self.0 + header_size() + self.size(heap))
    }

    /// Set the free flag of this box's header.
    pub fn set_free(&self, heap: &mut Heap, free: bool)
        requires
            old(heap).wf(),
            holds(old(heap).blocks(), self.0),
        ensures
            final(heap).wf(),
            final(heap).blocks() == marked_blocks(
                old(heap).blocks(),
                index_of(old(heap).blocks(), self.0),
                free,
            ),
            final(heap).contents() == old(heap).contents(),
            final(heap).headers() == old(heap).headers().insert(
                self.0,
                header_for(final(heap).blocks(), index_of(old(heap).blocks(), self.0)),
            ),
    {
        let ghost bs = heap.blocks@;
        let ghost i = index_of(bs, self.0);
        proof {
            lemma_index_of(bs, i);
        }
        let h = self.header(heap);
        heap.mem.insert(self.0, Header { prev: h.prev, next: h.next, size: h.size, free });
        let ghost ns = marked_blocks(bs, i, free);
        heap.blocks = Ghost(ns);
        proof {
            lemma_marked(old(heap).mem@, bs, i, free);
            assert(header_for(ns, i) == (Header { prev: h.prev, next: h.next, size: h.size, free }));
        }
    }

    /// Splits a box into a non-free and free section, updating the
    /// linked list appropriately. The caller must make sure that
    /// `data_size` fits within the box.
    pub fn split_box(&self, heap: &mut Heap, data_size: usize) -> (r: Box)
        requires
            old(heap).wf(),
            holds(old(heap).blocks(), self.0),
            ({
                let bs = old(heap).blocks();
                let i = index_of(bs, self.0);
                &&& bs[i].size != 0 || i + 1 == bs.len()
                &&& bs[i].size == 0 || data_size + HEADER_SIZE < bs[i].size
                &&& bs[i].size != 0 || self.0 + 2 * HEADER_SIZE + data_size <= usize::MAX
            }),
        ensures
            final(heap).wf(),
            final(heap).blocks() == split_blocks(
                old(heap).blocks(),
                index_of(old(heap).blocks(), self.0),
                data_size,
            ),
            r.0 == self.0 + HEADER_SIZE + data_size,
            final(heap).contents() == old(heap).contents(),
            final(heap).headers() == split_mem(
                old(heap).headers(),
                old(heap).blocks(),
                index_of(old(heap).blocks(), self.0),
                data_size,
            ),
            final(heap).headers().dom() == old(heap).headers().dom().insert(r.0),
    {
        let ghost bs = heap.blocks@;
        let ghost i = index_of(bs, self.0);
        let ghost n = bs.len();
        let ghost ns = split_blocks(bs, i, data_size);
        proof {
            lemma_index_of(bs, i);
            lemma_split_index(bs, i, data_size);
            lemma_placed(bs, i, i);
            if i + 1 < n {
                lemma_index_of(bs, i + 1);
                lemma_placed(bs, i, i + 1);
            }
        }
        let h = self.header(heap);
        let old_size = h.size;
        let new_box = Box::from_uint(self.0 + header_size() + data_size);
        let nx = h.next;
        if !nx.is_null() {
            let hn = nx.header(heap);
            proof {
                assert(header_for(ns, i + 2) == (Header { prev: new_box, next: hn.next, size: hn.size, free: hn.free })) by {
                    assert(ns[i + 2] == bs[i + 1]);
                    if i + 3 < ns.len() {
                        assert(ns[i + 3] == bs[i + 2]);
                    }
                }
            }
            heap.mem.insert(nx.0, Header { prev: new_box, next: hn.next, size: hn.size, free: hn.free });
        }
        let rest = if old_size == 0 {
            0
        } else {
            old_size - data_size - header_size()
        };
        heap.mem.insert(new_box.0, Header { prev: *self, next: nx, size: rest, free: true });
        heap.mem.insert(self.0, Header { prev: h.prev, next: new_box, size: data_size, free: false });
        heap.blocks = Ghost(ns);
        proof {
            lemma_split_placed(bs, i, data_size);
            lemma_split_mem(old(heap).mem@, bs, i, data_size);
            if i + 1 < n {
                assert(ns[i + 2] == bs[i + 1]);
            }
            if i > 0 {
                assert(ns[i - 1] == bs[i - 1]);
                assert(ns[0] == bs[0]);
            }
            assert(header_for(ns, i + 1) == (Header { prev: *self, next: nx, size: rest, free: true }));
            assert(header_for(ns, i) == (Header { prev: h.prev, next: new_box, size: data_size, free: false }));
            assert(heap.mem@ == split_mem(old(heap).mem@, bs, i, data_size));
        }
        new_box
    }

    /// Attempt to merge self and self.next, only succeeds if they are
    /// both non-null and both free.
    pub fn try_merge(&self, heap: &mut Heap)
        requires
            old(heap).wf(),
            self.0 == 0 || holds(old(heap).blocks(), self.0),
        ensures
            final(heap).wf(),
            final(heap).blocks() == (if self.0 != 0 && can_merge(
                old(heap).blocks(),
                index_of(old(heap).blocks(), self.0),
            ) {
                merged_blocks(old(heap).blocks(), index_of(old(heap).blocks(), self.0))
            } else {
                old(heap).blocks()
            }),
            final(heap).headers() == (if self.0 != 0 && can_merge(
                old(heap).blocks(),
                index_of(old(heap).blocks(), self.0),
            ) {
                merge_mem(old(heap).headers(), old(heap).blocks(), index_of(old(heap).blocks(), self.0))
            } else {
                old(heap).headers()
            }),
            final(heap).contents() == old(heap).contents(),
            ({
                let bs = old(heap).blocks();
                let i = index_of(bs, self.0);
                (self.0 == 0 || !bs[i].free || i + 1 == bs.len() || !bs[i + 1].free) ==> {
                    &&& final(heap).blocks() == bs
                    &&& final(heap).headers() == old(heap).headers()
                }
            }),
            ({
                let bs = old(heap).blocks();
                let i = index_of(bs, self.0);
                (self.0 != 0 && bs[i].free && i + 1 < bs.len() && bs[i + 1].free) ==> {
                    &&& final(heap).blocks().len() + 1 == bs.len()
                    &&& final(heap).blocks()[i].addr == bs[i].addr
                    &&& final(heap).blocks()[i].free
                    &&& final(heap).blocks()[i].size == bs[i].size + HEADER_SIZE + bs[i + 1].size
                }
            }),
    {
        if self.is_null() {
            return ;
        }
        let ghost bs = heap.blocks@;
        let ghost i = index_of(bs, self.0);
        let ghost len = bs.len();
        proof {
            lemma_index_of(bs, i);
            if i + 1 < len {
                lemma_index_of(bs, i + 1);
            }
            if i + 2 < len {
                lemma_index_of(bs, i + 2);
            }
        }
        let n = self.next(heap);
        if self.is_free(heap) && !n.is_null() && n.is_free(heap) {
            let ghost ns = merged_blocks(bs, i);
            proof {
                lemma_merge_index(bs, i);
                lemma_merge_placed(bs, i);
                lemma_placed(bs, i, i + 1);
            }
            let h = self.header(heap);
            let hn = n.header(heap);
            let nn = hn.next;
            if !nn.is_null() {
                let hnn = nn.header(heap);
                proof {
                    assert(header_for(ns, i + 1) == (Header { prev: *self, next: hnn.next, size: hnn.size, free: hnn.free })) by {
                        assert(ns[i + 1] == bs[i + 2]);
                        if i + 2 < ns.len() {
                            assert(ns[i + 2] == bs[i + 3]);
                        }
                    }
                }
                heap.mem.insert(nn.0, Header { prev: *self, next: hnn.next, size: hnn.size, free: hnn.free });
            }
            heap.mem.insert(
                self.0,
                Header { prev: h.prev, next: nn, size: h.size + header_size() + hn.size, free: h.free },
            );
            heap.blocks = Ghost(ns);
            proof {
                lemma_merge_mem(old(heap).mem@, bs, i);
                if i > 0 {
                    assert(ns[i - 1] == bs[i - 1]);
                    assert(ns[0] == bs[0]);
                }
                if i + 2 < len {
                    assert(ns[i + 1] == bs[i + 2]);
                }
                assert(header_for(ns, i) == (Header { prev: h.prev, next: nn, size: (h.size + HEADER_SIZE + hn.size) as usize, free: h.free }));
                assert(heap.mem@ == merge_mem(old(heap).mem@, bs, i));
            }
        }
    }
}

/// The box of the data of a box is that box again.
pub proof fn lemma_data_round_trip(b: Box)
    requires
        b.0 + HEADER_SIZE <= usize::MAX,
    ensures
        (b.0 + HEADER_SIZE) as usize >= HEADER_SIZE,
        ((b.0 + HEADER_SIZE) as usize - HEADER_SIZE) as usize == b.0,
{
}

impl Data {
    /// The data at address `u`.
    pub fn from_uint(u: usize) -> (r: Data)
        ensures
            r.0 == u,
    {
        Data(u)
    }

    /// The box that this data belongs to, whose header is right before it.
    pub fn to_box(&self) -> (r: Box)
        requires
            self.0 >= HEADER_SIZE,
        ensures
            r.0 == self.0 - HEADER_SIZE,
    {
        Box::from_uint(self.0 - header_size())
    }
}

} // verus!
