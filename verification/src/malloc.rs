//! First-fit allocation over the box list, and the program break behind it.
//!
//! The allocator's state is the heap of boxes and the last program break
//! that the kernel reported. Growing the break is the kernel's work: where
//! an allocation needs more memory, the functions here answer `Step::Grow`
//! with the number of bytes to ask for, and the caller comes back with the
//! kernel's reply.
use crate::diag::{print_line, push_line, push_str, text};
use crate::list::{
    block_end, header_for, holds, index_of, lemma_index_of, lemma_nonempty, lemma_placed, lemma_split_index,
    lemma_tally_bound, marked_blocks, merged_blocks, split_blocks, tally, well_placed,
};
use crate::types::{header_size, BlockInfo, Box, Data, Heap, HEADER_SIZE};
use crate::util::{has_power_of_two_at_least, least_power_of_two_at_least, round_up_spec};
use vstd::prelude::*;

verus! {

/// What an allocation that may need more memory answers.
pub enum Step<T> {
    /// The allocation is done.
    Ready(T),
    /// The program break must grow by this many bytes first.
    Grow(usize),
}

/// The allocator: the heap of boxes, and the program break as the kernel
/// last reported it.
pub struct Allocator {
    pub heap: Heap,
    pub current_brk: usize,
}

impl Allocator {
    /// The heap is valid and lies below the program break.
    pub open spec fn wf(&self) -> bool {
        &&& self.heap.wf()
        &&& block_end(self.heap.blocks().last()) <= self.current_brk
    }
}

/// The value of a machine word read as a signed integer.
pub open spec fn signed(x: usize) -> int {
    if x <= isize::MAX {
        x as int
    } else {
        x - usize::MAX - 1
    }
}

/// Round `n` up to the nearest power of two.
pub fn round_up(n: usize) -> (r: usize)
    ensures
        r == round_up_spec(n),
        has_power_of_two_at_least(n) ==> least_power_of_two_at_least(n, r),
        !has_power_of_two_at_least(n) ==> r == 0,
{
    crate::util::round_up(n)
}

/// Bytes that a request of `size` takes, header included.
pub open spec fn total_size_of(size: usize) -> usize {
    round_up_spec((HEADER_SIZE + size) as usize)
}

/// The request's header and data fit in the address space, so that its
/// rounded size is at least what was asked.
pub open spec fn request_fits(size: usize) -> bool {
    &&& HEADER_SIZE + size <= usize::MAX
    &&& total_size_of(size) >= HEADER_SIZE + size
}

/// A box can take a request of `size` bytes: it is free and big enough.
pub open spec fn fits(b: BlockInfo, size: usize) -> bool {
    b.free && b.size >= size
}

/// The first box from position `k` on that can take the request.
pub open spec fn first_fit_from(bs: Seq<BlockInfo>, size: usize, k: int) -> Option<int>
    decreases bs.len() - k,
{
    if 0 <= k && k < bs.len() {
        if fits(bs[k], size) {
            Some(k)
        } else {
            first_fit_from(bs, size, k + 1)
        }
    } else {
        None
    }
}

/// The first box of the list that can take the request.
pub open spec fn first_fit(bs: Seq<BlockInfo>, size: usize) -> Option<int> {
    first_fit_from(bs, size, 0)
}

/// The list after the box at position `i` is claimed for a request of
/// `size` bytes: it is marked used, and split when it is bigger than the
/// whole rounded request.
pub open spec fn claimed(bs: Seq<BlockInfo>, i: int, size: usize) -> Seq<BlockInfo> {
    let t = total_size_of(size);
    if bs[i].size > t {
        split_blocks(bs, i, (t - HEADER_SIZE) as usize)
    } else {
        marked_blocks(bs, i, false)
    }
}

/// What `first_fit_from` finds.
proof fn lemma_first_fit_from(bs: Seq<BlockInfo>, size: usize, k: int)
    requires
        0 <= k,
    ensures
        first_fit_from(bs, size, k) matches Some(i) ==> {
            &&& k <= i
            &&& i < bs.len()
            &&& fits(bs[i], size)
            &&& forall|j: int| k <= j < i ==> !fits(#[trigger] bs[j], size)
        },
        first_fit_from(bs, size, k) is None ==> forall|j: int|
            k <= j < bs.len() ==> !fits(#[trigger] bs[j], size),
    decreases bs.len() - k,
{
    if 0 <= k && k < bs.len() && !fits(bs[k], size) {
        lemma_first_fit_from(bs, size, k + 1);
    }
}

/// The first box that can take a request is free and big enough, and no
/// box before it can take the request; when there is none, no box can.
pub proof fn lemma_first_fit(bs: Seq<BlockInfo>, size: usize)
    ensures
        first_fit(bs, size) matches Some(i) ==> {
            &&& 0 <= i
            &&& i < bs.len()
            &&& fits(bs[i], size)
            &&& forall|j: int| 0 <= j < i ==> !fits(#[trigger] bs[j], size)
        },
        first_fit(bs, size) is None ==> forall|j: int|
            0 <= j < bs.len() ==> !fits(#[trigger] bs[j], size),
{
    lemma_first_fit_from(bs, size, 0);
}

/// The box that first fit picks for a request of `size` bytes is the first
/// free box whose data holds at least `size` bytes; there is none exactly
/// when no free box of the list holds that many.
pub proof fn lemma_first_fit_is_first_big_enough(bs: Seq<BlockInfo>, size: usize)
    ensures
        first_fit(bs, size) is None <==> forall|j: int|
            0 <= j < bs.len() ==> !(#[trigger] bs[j].free && bs[j].size >= size),
        forall|i: int|
            first_fit(bs, size) == Some(i) <==> {
                &&& 0 <= i < bs.len()
                &&& bs[i].free
                &&& bs[i].size >= size
                &&& forall|j: int| 0 <= j < i ==> !(#[trigger] bs[j].free && bs[j].size >= size)
            },
{
    lemma_first_fit(bs, size);
    assert forall|i: int|
        {
            &&& 0 <= i < bs.len()
            &&& bs[i].free
            &&& bs[i].size >= size
            &&& forall|j: int| 0 <= j < i ==> !(#[trigger] bs[j].free && bs[j].size >= size)
        } implies first_fit(bs, size) == Some(i) by {
        {
            assert(fits(bs[i], size));
            if first_fit(bs, size) is None {
                assert(!fits(bs[i], size));
            } else {
                let k = first_fit(bs, size)->0;
                if k < i {
                    assert(!(bs[k].free && bs[k].size >= size));
                }
                if k > i {
                    assert(!fits(bs[i], size));
                }
            }
        }
    }
    if first_fit(bs, size) is None {
    } else {
        let k = first_fit(bs, size)->0;
        assert(fits(bs[k], size));
        assert(bs[k].free && bs[k].size >= size);
    }
}

/// The break that setting up a heap at `base` asks the kernel for: one
/// header past it, room for the root box.
pub fn init_request(base: usize) -> (r: usize)
    requires
        base + HEADER_SIZE <= usize::MAX,
    ensures
        r == base + HEADER_SIZE,
{
    base + header_size()
}

/// Set up the heap: its root box goes at `base`, the program break that the
/// kernel reported before any allocation, and the break then grew to
/// `returned`, the kernel's reply to `init_request(base)`.
pub fn init_malloc(base: usize, returned: usize) -> (a: Allocator)
    requires
        base > 0,
        base + HEADER_SIZE <= usize::MAX,
        returned >= base + HEADER_SIZE,
    ensures
        a.wf(),
        a.heap.blocks() == seq![BlockInfo { addr: base, size: 0, free: true }],
        a.heap.contents() == Map::<usize, u8>::empty(),
        a.current_brk == returned,
{
    let mut a = Allocator { heap: Heap::new(Box::from_ptr(base)), current_brk: base };
    let requested = init_request(base);
    brk(&mut a, requested, returned);
    a
}

/// The break to ask the kernel for, to grow the current one by `increment`
/// bytes. A valid allocator always has a break, which `init_malloc` learnt.
pub fn sbrk(a: &Allocator, increment: usize) -> (r: usize)
    requires
        a.wf(),
        a.current_brk + increment <= usize::MAX,
    ensures
        r == a.current_brk + increment,
{
    a.current_brk + increment
}

/// Record the kernel's reply `returned` to a request for the break
/// `requested`: the reply becomes the current break, and the result is the
/// reply, or `usize::MAX` (the pointer -1) when, read as signed words, the
/// reply falls short of the request.
pub fn brk(a: &mut Allocator, requested: usize, returned: usize) -> (r: usize)
    ensures
        final(a).current_brk == returned,
        final(a).heap == old(a).heap,
        r == (if signed(returned) < signed(requested) {
            usize::MAX
        } else {
            returned
        }),
{
    a.current_brk = returned;
    let top = isize::MAX as usize;
    let returned_negative = returned > top;
    let requested_negative = requested > top;
    let short = if returned_negative != requested_negative {
        returned_negative
    } else {
        returned < requested
    };
    if short {
        usize::MAX
    } else {
        returned
    }
}

/// Claiming a box leaves the end of the list where it was.
proof fn lemma_claimed_end(bs: Seq<BlockInfo>, i: int, size: usize)
    requires
        well_placed(bs),
        0 <= i < bs.len(),
        fits(bs[i], size),
        request_fits(size),
    ensures
        block_end(claimed(bs, i, size).last()) == block_end(bs.last()),
{
    let t = total_size_of(size);
    let d = (t - HEADER_SIZE) as usize;
    lemma_placed(bs, i, i);
    if bs[i].size > t {
        lemma_split_index(bs, i, d);
        crate::list::lemma_split_keeps_extent(bs, i, d);
    }
}

/// Find the first free box that holds `size` bytes and claim it, splitting
/// off a free box from the rest when it is bigger than the whole rounded
/// request; answer `Step::Grow` with the bytes to ask the kernel for when
/// there is none.
pub fn boxy_malloc(a: &mut Allocator, size: usize) -> (r: Step<Box>)
    requires
        old(a).wf(),
        request_fits(size),
    ensures
        final(a).wf(),
        final(a).current_brk == old(a).current_brk,
        final(a).heap.contents() == old(a).heap.contents(),
        match first_fit(old(a).heap.blocks(), size) {
            Some(i) => {
                &&& r matches Step::Ready(b) && b.0 == old(a).heap.blocks()[i].addr
                &&& final(a).heap.blocks() == claimed(old(a).heap.blocks(), i, size)
            },
            None => {
                &&& r matches Step::Grow(t) && t == total_size_of(size)
                &&& final(a).heap.blocks() == old(a).heap.blocks()
            },
        },
        (r is Ready) <==> exists|j: int|
            0 <= j < old(a).heap.blocks().len() && #[trigger] old(a).heap.blocks()[j].free
                && old(a).heap.blocks()[j].size >= size,
        r matches Step::Ready(b) ==> exists|i: int|
            {
                &&& 0 <= i < old(a).heap.blocks().len()
                &&& b.0 == #[trigger] old(a).heap.blocks()[i].addr
                &&& old(a).heap.blocks()[i].free
                &&& old(a).heap.blocks()[i].size >= size
                &&& forall|j: int|
                    0 <= j < i ==> !(#[trigger] old(a).heap.blocks()[j].free
                        && old(a).heap.blocks()[j].size >= size)
            },
{
    let ghost bs = a.heap.blocks();
    proof {
        lemma_first_fit_is_first_big_enough(bs, size);
    }
    proof {
        a.heap.lemma_wf_placed();
        lemma_nonempty(bs);
        lemma_first_fit(bs, size);
    }
    let total_size = round_up(header_size() + size);
    let data_size = total_size - header_size();
    let mut ptr = a.heap.root();
    let ghost mut k: int = 0;
    proof {
        lemma_index_of(bs, 0);
    }
    loop
        invariant
            a.wf(),
            a.heap.blocks() == bs,
            bs == old(a).heap.blocks(),
            a.current_brk == old(a).current_brk,
            a.heap.contents() == old(a).heap.contents(),
            well_placed(bs),
            0 <= k < bs.len(),
            ptr.0 == bs[k].addr,
            index_of(bs, ptr.0) == k,
            holds(bs, ptr.0),
            first_fit(bs, size) == first_fit_from(bs, size, k),
            total_size == total_size_of(size),
            data_size == total_size - HEADER_SIZE,
            request_fits(size),
        ensures
            k + 1 == bs.len(),
            !fits(bs[k], size),
        decreases bs.len() - k,
    {
        if ptr.is_free(&a.heap) && ptr.size(&a.heap) >= size {
            proof {
                assert(first_fit_from(bs, size, k) == Some(k));
                lemma_claimed_end(bs, k, size);
                lemma_first_fit_is_first_big_enough(bs, size);
                assert(bs[k].addr == ptr.0);
            }
            ptr.set_free(&mut a.heap, false);
            let ghost ms = a.heap.blocks();
            proof {
                lemma_index_of(bs, k);
                lemma_placed(bs, k, k);
                assert(ms[k].addr == ptr.0);
                a.heap.lemma_wf_placed();
                lemma_index_of(ms, k);
            }
            if ptr.size(&a.heap) > total_size {
                ptr.split_box(&mut a.heap, data_size);
                proof {
                    assert(ms.take(k) =~= bs.take(k));
                    assert(ms.skip(k + 1) =~= bs.skip(k + 1));
                    assert(split_blocks(ms, k, data_size) =~= split_blocks(bs, k, data_size));
                }
            }
            return Step::Ready(ptr);
        }
        if !ptr.has_next(&a.heap) {
            break ;
        }
        proof {
            lemma_index_of(bs, k + 1);
        }
        ptr = ptr.next(&a.heap);
        proof {
            k = k + 1;
        }
    }
    proof {
        assert(first_fit_from(bs, size, k + 1) is None);
        assert(first_fit_from(bs, size, k) is None);
    }
    Step::Grow(total_size)
}

/// The second half of `boxy_malloc` once the kernel has answered the
/// request for `total_size_of(size)` more bytes with `returned`: the new
/// break is recorded, and a new used box for `size` bytes goes at the old
/// break, after the last box.
pub fn boxy_malloc_grown(a: &mut Allocator, size: usize, returned: usize) -> (r: Box)
    requires
        old(a).wf(),
        request_fits(size),
        old(a).current_brk + total_size_of(size) <= usize::MAX,
        returned >= old(a).current_brk + total_size_of(size),
    ensures
        final(a).wf(),
        final(a).current_brk == returned,
        final(a).heap.contents() == old(a).heap.contents(),
        r.0 == old(a).current_brk,
        final(a).heap.blocks() == old(a).heap.blocks().push(
            BlockInfo {
                addr: old(a).current_brk,
                size: (total_size_of(size) - HEADER_SIZE) as usize,
                free: false,
            },
        ),
{
    let ghost bs = a.heap.blocks();
    proof {
        a.heap.lemma_wf_placed();
        lemma_index_of(bs, 0);
    }
    let total_size = round_up(header_size() + size);
    let data_size = total_size - header_size();
    let new_box = Box::from_ptr(a.current_brk);
    let requested = sbrk(a, total_size);
    brk(a, requested, returned);
    let mut ptr = a.heap.root();
    let ghost mut k: int = 0;
    while ptr.has_next(&a.heap)
        invariant
            a.heap.wf(),
            a.heap.blocks() == bs,
            well_placed(bs),
            0 <= k < bs.len(),
            ptr.0 == bs[k].addr,
            index_of(bs, ptr.0) == k,
            holds(bs, ptr.0),
        decreases bs.len() - k,
    {
        proof {
            lemma_index_of(bs, k + 1);
        }
        ptr = ptr.next(&a.heap);
        proof {
            k = k + 1;
        }
    }
    a.heap.append_box(ptr, new_box, data_size);
    new_box
}

/// The memory `m` with the `size` bytes from `ptr` on set to zero.
pub open spec fn zero_filled(m: Map<usize, u8>, ptr: usize, size: usize) -> Map<usize, u8> {
    m.union_prefer_right(Map::new(|x: usize| ptr <= x < ptr + size, |x: usize| 0u8))
}

/// The box claimed for a request stays where it was, is used, holds at
/// least the request, and ends no later than the box it came from.
pub proof fn lemma_claimed(bs: Seq<BlockInfo>, i: int, size: usize)
    requires
        well_placed(bs),
        0 <= i < bs.len(),
        fits(bs[i], size),
        request_fits(size),
    ensures
        claimed(bs, i, size)[i].addr == bs[i].addr,
        claimed(bs, i, size)[i].size >= size,
        !claimed(bs, i, size)[i].free,
        block_end(claimed(bs, i, size)[i]) <= block_end(bs[i]),
        block_end(bs[i]) <= usize::MAX,
{
    lemma_placed(bs, i, i);
    let t = total_size_of(size);
    if bs[i].size > t {
        lemma_split_index(bs, i, (t - HEADER_SIZE) as usize);
    }
}

/// Allocate `size` bytes: the address of the data of the first box that
/// can take them, claimed; or `Step::Grow` when the heap must grow first.
pub fn malloc(a: &mut Allocator, size: usize) -> (r: Step<usize>)
    requires
        old(a).wf(),
        request_fits(size),
    ensures
        final(a).wf(),
        final(a).current_brk == old(a).current_brk,
        final(a).heap.contents() == old(a).heap.contents(),
        match first_fit(old(a).heap.blocks(), size) {
            Some(i) => {
                &&& r matches Step::Ready(p) && p == old(a).heap.blocks()[i].addr + HEADER_SIZE
                &&& final(a).heap.blocks() == claimed(old(a).heap.blocks(), i, size)
            },
            None => {
                &&& r matches Step::Grow(t) && t == total_size_of(size)
                &&& final(a).heap.blocks() == old(a).heap.blocks()
            },
        },
        (r is Ready) <==> exists|j: int|
            0 <= j < old(a).heap.blocks().len() && #[trigger] old(a).heap.blocks()[j].free
                && old(a).heap.blocks()[j].size >= size,
        r matches Step::Ready(p) ==> exists|i: int|
            {
                &&& 0 <= i < old(a).heap.blocks().len()
                &&& p == #[trigger] old(a).heap.blocks()[i].addr + HEADER_SIZE
                &&& old(a).heap.blocks()[i].free
                &&& old(a).heap.blocks()[i].size >= size
                &&& forall|j: int|
                    0 <= j < i ==> !(#[trigger] old(a).heap.blocks()[j].free
                        && old(a).heap.blocks()[j].size >= size)
            },
{
    proof {
        lemma_first_fit_is_first_big_enough(a.heap.blocks(), size);
        a.heap.lemma_wf_placed();
        lemma_first_fit(a.heap.blocks(), size);
        if let Some(i) = first_fit(a.heap.blocks(), size) {
            lemma_placed(a.heap.blocks(), i, i);
        }
    }
    match boxy_malloc(a, size) {
        Step::Ready(b) => Step::Ready(b.data().0),
        Step::Grow(t) => Step::Grow(t),
    }
}

/// The second half of `malloc` once the kernel has answered the request
/// for more memory with `returned`: the data of a new box at the old break.
pub fn malloc_grown(a: &mut Allocator, size: usize, returned: usize) -> (r: usize)
    requires
        old(a).wf(),
        request_fits(size),
        old(a).current_brk + total_size_of(size) <= usize::MAX,
        returned >= old(a).current_brk + total_size_of(size),
    ensures
        final(a).wf(),
        final(a).current_brk == returned,
        final(a).heap.contents() == old(a).heap.contents(),
        r == old(a).current_brk + HEADER_SIZE,
        final(a).heap.blocks() == old(a).heap.blocks().push(
            BlockInfo {
                addr: old(a).current_brk,
                size: (total_size_of(size) - HEADER_SIZE) as usize,
                free: false,
            },
        ),
{
    boxy_malloc_grown(a, size, returned).data().0
}

/// Set the `size` bytes from `ptr` on, within the data area of the box at
/// position `i`, to zero.
fn fill_zero(heap: &mut Heap, ptr: usize, size: usize, Ghost(i): Ghost<int>)
    requires
        old(heap).wf(),
        0 <= i < old(heap).blocks().len(),
        old(heap).blocks()[i].addr + HEADER_SIZE <= ptr,
        ptr + size <= block_end(old(heap).blocks()[i]),
    ensures
        final(heap).wf(),
        final(heap).blocks() == old(heap).blocks(),
        final(heap).contents() == zero_filled(old(heap).contents(), ptr, size),
{
    proof {
        heap.lemma_wf_placed();
        lemma_placed(heap.blocks(), i, i);
    }
    let mut idx = ptr;
    let end = ptr + size;
    while idx < end
        invariant
            heap.wf(),
            heap.blocks() == old(heap).blocks(),
            0 <= i < old(heap).blocks().len(),
            old(heap).blocks()[i].addr + HEADER_SIZE <= ptr,
            ptr + size <= block_end(old(heap).blocks()[i]),
            ptr <= idx <= end,
            end == ptr + size,
            heap.contents() == zero_filled(old(heap).contents(), ptr, (idx - ptr) as usize),
        decreases end - idx,
    {
        proof {
            let bs = heap.blocks();
            assert(bs[i].addr + HEADER_SIZE <= idx < block_end(bs[i]));
        }
        heap.write_byte(idx, 0);
        proof {
            assert(heap.contents() =~= zero_filled(old(heap).contents(), ptr, (idx + 1 - ptr) as usize));
        }
        idx = idx + 1;
    }
    proof {
        assert(heap.contents() =~= zero_filled(old(heap).contents(), ptr, size));
    }
}

/// Allocate `size` bytes set to zero; `Step::Grow` when the heap must grow first.
pub fn calloc(a: &mut Allocator, size: usize) -> (r: Step<usize>)
    requires
        old(a).wf(),
        request_fits(size),
    ensures
        final(a).wf(),
        final(a).current_brk == old(a).current_brk,
        match first_fit(old(a).heap.blocks(), size) {
            Some(i) => {
                &&& r matches Step::Ready(p) && p == old(a).heap.blocks()[i].addr + HEADER_SIZE
                &&& final(a).heap.blocks() == claimed(old(a).heap.blocks(), i, size)
                &&& final(a).heap.contents() == zero_filled(
                    old(a).heap.contents(),
                    (old(a).heap.blocks()[i].addr + HEADER_SIZE) as usize,
                    size,
                )
            },
            None => {
                &&& r matches Step::Grow(t) && t == total_size_of(size)
                &&& final(a).heap.blocks() == old(a).heap.blocks()
                &&& final(a).heap.contents() == old(a).heap.contents()
            },
        },
{
    let ghost bs = a.heap.blocks();
    proof {
        a.heap.lemma_wf_placed();
        lemma_first_fit(bs, size);
        if let Some(i) = first_fit(bs, size) {
            lemma_claimed(bs, i, size);
        }
    }
    match malloc(a, size) {
        Step::Ready(p) => {
            let ghost i = first_fit(bs, size)->0;
            fill_zero(&mut a.heap, p, size, Ghost(i));
            Step::Ready(p)
        },
        Step::Grow(t) => Step::Grow(t),
    }
}

/// The second half of `calloc` once the kernel has answered the request
/// for more memory with `returned`: the data of a new box at the old break,
/// set to zero.
pub fn calloc_grown(a: &mut Allocator, size: usize, returned: usize) -> (r: usize)
    requires
        old(a).wf(),
        request_fits(size),
        old(a).current_brk + total_size_of(size) <= usize::MAX,
        returned >= old(a).current_brk + total_size_of(size),
    ensures
        final(a).wf(),
        final(a).current_brk == returned,
        r == old(a).current_brk + HEADER_SIZE,
        final(a).heap.blocks() == old(a).heap.blocks().push(
            BlockInfo {
                addr: old(a).current_brk,
                size: (total_size_of(size) - HEADER_SIZE) as usize,
                free: false,
            },
        ),
        final(a).heap.contents() == zero_filled(old(a).heap.contents(), r, size),
{
    let p = malloc_grown(a, size, returned);
    let ghost i = old(a).heap.blocks().len() as int;
    fill_zero(&mut a.heap, p, size, Ghost(i));
    p
}

/// Resizing is not supported: the answer is always the null pointer.
pub fn realloc(ptr: usize, size: usize) -> (r: usize)
    ensures
        r == 0,
{
    0
}

/// Mark the box whose data is at `ptr` free again.
pub fn free(a: &mut Allocator, ptr: usize)
    requires
        old(a).wf(),
        ptr >= HEADER_SIZE,
        holds(old(a).heap.blocks(), (ptr - HEADER_SIZE) as usize),
    ensures
        final(a).wf(),
        final(a).current_brk == old(a).current_brk,
        final(a).heap.contents() == old(a).heap.contents(),
        final(a).heap.blocks() == marked_blocks(
            old(a).heap.blocks(),
            index_of(old(a).heap.blocks(), (ptr - HEADER_SIZE) as usize),
            true,
        ),
        final(a).heap.headers() == old(a).heap.headers().insert(
            (ptr - HEADER_SIZE) as usize,
            header_for(
                final(a).heap.blocks(),
                index_of(old(a).heap.blocks(), (ptr - HEADER_SIZE) as usize),
            ),
        ),
{
    let b = Data::from_uint(ptr).to_box();
    b.set_free(&mut a.heap, true);
}

/// Count the boxes short of the last one: free boxes, their data bytes,
/// used boxes, their data bytes.
pub fn count_blocks(heap: &Heap) -> (r: (usize, usize, usize, usize))
    requires
        heap.wf(),
    ensures
        (r.0 as nat, r.1 as nat, r.2 as nat, r.3 as nat) == tally(
            heap.blocks(),
            heap.blocks().len() - 1,
        ),
{
    let ghost bs = heap.blocks();
    proof {
        heap.lemma_wf_placed();
        lemma_index_of(bs, 0);
    }
    let mut ptr = heap.root();
    let mut free: usize = 0;
    let mut fsize: usize = 0;
    let mut not_free: usize = 0;
    let mut nsize: usize = 0;
    let ghost mut k: int = 0;
    while ptr.has_next(heap)
        invariant
            heap.wf(),
            bs == heap.blocks(),
            well_placed(bs),
            0 <= k < bs.len(),
            ptr.0 == bs[k].addr,
            index_of(bs, ptr.0) == k,
            holds(bs, ptr.0),
            (free as nat, fsize as nat, not_free as nat, nsize as nat) == tally(bs, k),
        decreases bs.len() - k,
    {
        proof {
            lemma_tally_bound(bs, k + 1);
            lemma_index_of(bs, k + 1);
        }
        if ptr.is_free(heap) {
            free = free + 1;
            fsize = fsize + ptr.size(heap);
        } else {
            not_free = not_free + 1;
            nsize = nsize + ptr.size(heap);
        }
        ptr = ptr.next(heap);
        proof {
            k = k + 1;
        }
    }
    (free, fsize, not_free, nsize)
}

/// The request of `size` bytes fits: its header and data fit in the
/// address space, and rounding does not wrap around.
pub fn can_request(size: usize) -> (r: bool)
    ensures
        r == request_fits(size),
{
    if size > usize::MAX - header_size() {
        return false;
    }
    let n = header_size() + size;
    round_up(n) >= n
}

/// The text that the allocator's diagnostics print, given the four counts.
pub open spec fn diagnostics_text(t: (nat, nat, nat, nat)) -> Seq<u8> {
    text("\t** DIAGS **\n") + print_line("\t*    f = ", t.0) + print_line("\t*  f s = ", t.1)
        + print_line("\t*   nf = ", t.2) + print_line("\t* nf s = ", t.3)
}

/// The allocator's diagnostics that are printed: the counts of
/// `count_blocks`, over the boxes short of the last one.
pub fn diagnostics(heap: &Heap) -> (out: Vec<u8>)
    requires
        heap.wf(),
    ensures
        out@ == diagnostics_text(tally(heap.blocks(), heap.blocks().len() - 1)),
{
    let (f, fs, n, ns) = count_blocks(heap);
    let mut out: Vec<u8> = Vec::new();
    push_str(&mut out, "\t** DIAGS **\n");
    push_line(&mut out, "\t*    f = ", f);
    push_line(&mut out, "\t*  f s = ", fs);
    push_line(&mut out, "\t*   nf = ", n);
    push_line(&mut out, "\t* nf s = ", ns);
    proof {
        assert(out@ =~= diagnostics_text(tally(heap.blocks(), heap.blocks().len() - 1)));
    }
    out
}

/// The box that `malloc` claims keeps its place in the list, so that its
/// data pointer can be handed to `free`.
pub proof fn lemma_claimed_box(bs: Seq<BlockInfo>, i: int, size: usize)
    requires
        well_placed(bs),
        0 <= i,
        i + 1 < bs.len(),
        fits(bs[i], size),
        request_fits(size),
    ensures
        well_placed(claimed(bs, i, size)),
        claimed(bs, i, size)[i].addr == bs[i].addr,
        holds(claimed(bs, i, size), bs[i].addr),
        index_of(claimed(bs, i, size), bs[i].addr) == i,
{
    lemma_claimed(bs, i, size);
    let t = total_size_of(size);
    let ns = claimed(bs, i, size);
    if bs[i].size > t {
        crate::list::lemma_split_placed(bs, i, (t - HEADER_SIZE) as usize);
    } else {
        crate::list::lemma_marked_placed(bs, i, false);
    }
    lemma_index_of(ns, i);
}

/// Freeing the data that `malloc` handed out, from a box that it did not
/// split, gives back the list as it was.
pub proof fn lemma_free_undoes_malloc(bs: Seq<BlockInfo>, i: int, size: usize)
    requires
        0 <= i < bs.len(),
        fits(bs[i], size),
        bs[i].size <= total_size_of(size),
    ensures
        marked_blocks(claimed(bs, i, size), i, true) == bs,
{
    assert(marked_blocks(claimed(bs, i, size), i, true) =~= bs);
}

/// Freeing the data that `malloc` handed out from a box that it split, and
/// merging the box with the free rest, gives back the list as it was.
pub proof fn lemma_free_and_merge_undo_malloc(bs: Seq<BlockInfo>, i: int, size: usize)
    requires
        0 <= i < bs.len(),
        fits(bs[i], size),
        bs[i].size > total_size_of(size),
        request_fits(size),
    ensures
        merged_blocks(marked_blocks(claimed(bs, i, size), i, true), i) == bs,
{
    let d = (total_size_of(size) - HEADER_SIZE) as usize;
    crate::list::lemma_merge_undoes_split(bs, i, d);
    assert(marked_blocks(bs, i, true) =~= bs);
}

/// Claiming a box changes no other box: those before it stay where they
/// are, those after it move one place on when the box is split, and the
/// claimed box stays on the list at its address.
pub proof fn lemma_claim_keeps_other_boxes(bs: Seq<BlockInfo>, i: int, size: usize)
    requires
        0 <= i < bs.len(),
        fits(bs[i], size),
    ensures
        ({
            let e: int = if bs[i].size > total_size_of(size) { 1 } else { 0 };
            &&& claimed(bs, i, size).len() == bs.len() + e
            &&& forall|k: int| 0 <= k < i ==> #[trigger] claimed(bs, i, size)[k] == bs[k]
            &&& forall|k: int| i < k < bs.len() ==> #[trigger] claimed(bs, i, size)[k + e] == bs[k]
        }),
        claimed(bs, i, size)[i].addr == bs[i].addr,
{
    let t = total_size_of(size);
    if bs[i].size > t {
        lemma_split_index(bs, i, (t - HEADER_SIZE) as usize);
    }
}

/// Asking again for the same size after freeing the data that `malloc`
/// handed out gets the same box again, split by the first call or not.
pub proof fn lemma_malloc_after_free(bs: Seq<BlockInfo>, size: usize)
    requires
        first_fit(bs, size) is Some,
        bs[first_fit(bs, size)->0].size <= total_size_of(size) || request_fits(size),
    ensures
        ({
            let i = first_fit(bs, size)->0;
            first_fit(marked_blocks(claimed(bs, i, size), i, true), size) == Some(i)
        }),
{
    lemma_first_fit(bs, size);
    let i = first_fit(bs, size)->0;
    let t = total_size_of(size);
    let ns = marked_blocks(claimed(bs, i, size), i, true);
    if bs[i].size > t {
        lemma_split_index(bs, i, (t - HEADER_SIZE) as usize);
    }
    assert(ns.len() >= bs.len());
    assert(fits(ns[i], size));
    assert forall|j: int| 0 <= j < i implies !fits(#[trigger] ns[j], size) by {
        assert(ns[j] == bs[j]);
    }
    lemma_first_fit(ns, size);
    if first_fit(ns, size) is None {
        assert(!fits(ns[i], size));
    } else {
        let k = first_fit(ns, size)->0;
        if k > i {
            assert(!fits(ns[i], size));
        }
        if k < i {
            assert(!fits(ns[k], size));
        }
    }
}

/// Every box of a valid allocator, its data included, lies below the
/// program break: all the memory handed out came from the kernel.
pub proof fn lemma_boxes_below_break(a: &Allocator, i: int)
    requires
        a.wf(),
        0 <= i < a.heap.blocks().len(),
    ensures
        block_end(a.heap.blocks()[i]) <= a.current_brk,
{
    a.heap.lemma_wf_placed();
    let bs = a.heap.blocks();
    lemma_placed(bs, i, bs.len() - 1);
}

} // verus!
