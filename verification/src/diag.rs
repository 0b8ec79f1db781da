//! Diagnostics over the box list: counts of free and used boxes, and the
//! text that the diagnostic printers write.
use crate::list::{holds, index_of, lemma_index_of, lemma_tally_bound, tally, well_placed};
use crate::types::{BlockInfo, Heap};
use crate::util::{decimal, putn};
use vstd::prelude::*;
use vstd::string::StringSliceAdditionalSpecFns;

verus! {

/// Walks through more boxes than this are cut short.
pub const WALK_LIMIT: usize = 10_000_000;

/// The bytes of `s`, as `puts` writes them.
pub open spec fn text(s: &str) -> Seq<u8> {
    s.spec_bytes()
}

/// The bytes that printing `label` and then the integer `n` on a line writes.
pub open spec fn print_line(label: &str, n: nat) -> Seq<u8> {
    text(label) + decimal(n) + text("\n")
}

/// Append the bytes of `s` to `out`.
pub fn push_str(out: &mut Vec<u8>, s: &str)
    ensures
        final(out)@ == old(out)@ + text(s),
{
    let bytes = s.as_bytes();
    let mut i: usize = 0;
    while i < bytes.len()
        invariant
            0 <= i <= bytes@.len(),
            bytes@ == text(s),
            out@ == old(out)@ + bytes@.take(i as int),
        decreases bytes@.len() - i,
    {
        out.push(bytes[i]);
        i = i + 1;
        proof {
            assert(out@ =~= old(out)@ + bytes@.take(i as int));
        }
    }
    proof {
        assert(bytes@.take(i as int) =~= bytes@);
    }
}

/// Append to `out` what printing `label` and `n` on a line writes.
pub fn push_line(out: &mut Vec<u8>, label: &str, n: usize)
    ensures
        final(out)@ == old(out)@ + print_line(label, n as nat),
{
    push_str(out, label);
    let mut digits = putn(n);
    out.append(&mut digits);
    push_str(out, "\n");
    proof {
        assert(out@ =~= old(out)@ + print_line(label, n as nat));
    }
}

/// The number of boxes that a walk of at most `WALK_LIMIT` steps counts.
pub open spec fn walk_len(bs: Seq<BlockInfo>) -> int {
    if bs.len() < WALK_LIMIT {
        bs.len() as int
    } else {
        WALK_LIMIT as int
    }
}

/// Count the boxes of the whole list, stopping after `WALK_LIMIT` of them:
/// free boxes, their data bytes, used boxes, their data bytes.
pub fn count_blocks(heap: &Heap) -> (r: (usize, usize, usize, usize))
    requires
        heap.wf(),
    ensures
        (r.0 as nat, r.1 as nat, r.2 as nat, r.3 as nat) == tally(heap.blocks(), walk_len(heap.blocks())),
{
    let ghost bs = heap.blocks();
    proof {
        heap.lemma_wf_placed();
        lemma_index_of(bs, 0);
    }
    let mut count: usize = 0;
    let mut ptr = heap.root();
    let mut free: usize = 0;
    let mut fsize: usize = 0;
    let mut not_free: usize = 0;
    let mut nsize: usize = 0;
    while !ptr.is_null() && count < WALK_LIMIT
        invariant
            heap.wf(),
            bs == heap.blocks(),
            well_placed(bs),
            0 <= count <= bs.len(),
            count <= WALK_LIMIT,
            count < bs.len() ==> ptr.0 == bs[count as int].addr && index_of(bs, ptr.0) == count
                && holds(bs, ptr.0) && ptr.0 > 0,
            count == bs.len() ==> ptr.0 == 0,
            (free as nat, fsize as nat, not_free as nat, nsize as nat) == tally(bs, count as int),
        decreases bs.len() - count,
    {
        proof {
            lemma_tally_bound(bs, count + 1);
            if count + 1 < bs.len() {
                lemma_index_of(bs, count + 1);
            }
        }
        if ptr.is_free(heap) {
            free = free + 1;
            fsize = fsize + ptr.size(heap);
        } else {
            not_free = not_free + 1;
            nsize = nsize + ptr.size(heap);
        }
        ptr = ptr.next(heap);
        count = count + 1;
    }
    (free, fsize, not_free, nsize)
}

/// The text that the diagnostics print, given the four counts.
pub open spec fn diagnostics_text(t: (nat, nat, nat, nat)) -> Seq<u8> {
    text("\t** DIAGS **\n") + print_line("\t*  free # = ", t.0) + print_line("\t*    free = ", t.1)
        + print_line("\t* alloc # = ", t.2) + print_line("\t*   alloc = ", t.3)
}

/// The diagnostics that are printed: the counts of free and used boxes
/// over the whole list, and their data bytes.
pub fn diagnostics(heap: &Heap) -> (out: Vec<u8>)
    requires
        heap.wf(),
    ensures
        out@ == diagnostics_text(tally(heap.blocks(), walk_len(heap.blocks()))),
{
    let (f, fs, n, ns) = count_blocks(heap);
    let mut out: Vec<u8> = Vec::new();
    push_str(&mut out, "\t** DIAGS **\n");
    push_line(&mut out, "\t*  free # = ", f);
    push_line(&mut out, "\t*    free = ", fs);
    push_line(&mut out, "\t* alloc # = ", n);
    push_line(&mut out, "\t*   alloc = ", ns);
    proof {
        assert(out@ =~= diagnostics_text(tally(heap.blocks(), walk_len(heap.blocks()))));
    }
    out
}

/// The line that the chain printer writes for one box.
pub open spec fn box_line(b: BlockInfo) -> Seq<u8> {
    text("\t+ ptr = ") + decimal(b.addr as nat) + text(", size = ") + decimal(b.size as nat) + (if b.free {
        text(", free\n")
    } else {
        text(", alloc\n")
    })
}

/// The lines for the first `k` boxes of the list.
pub open spec fn chain_lines(bs: Seq<BlockInfo>, k: int) -> Seq<u8>
    decreases k,
{
    if k <= 0 {
        Seq::empty()
    } else {
        chain_lines(bs, k - 1) + box_line(bs[k - 1])
    }
}

/// The text that printing the chain of boxes writes: a title, then a line
/// for every box with its address, its data size and whether it is free.
pub fn print_boxes(heap: &Heap) -> (out: Vec<u8>)
    requires
        heap.wf(),
    ensures
        out@ == text("\t++ CHAIN ++\n") + chain_lines(heap.blocks(), heap.blocks().len() as int),
{
    let ghost bs = heap.blocks();
    proof {
        heap.lemma_wf_placed();
        lemma_index_of(bs, 0);
    }
    let mut out: Vec<u8> = Vec::new();
    push_str(&mut out, "\t++ CHAIN ++\n");
    let mut ptr = heap.root();
    let ghost mut k: int = 0;
    while !ptr.is_null()
        invariant
            heap.wf(),
            bs == heap.blocks(),
            well_placed(bs),
            0 <= k <= bs.len(),
            k < bs.len() ==> ptr.0 == bs[k].addr && index_of(bs, ptr.0) == k && holds(bs, ptr.0)
                && ptr.0 > 0,
            k == bs.len() ==> ptr.0 == 0,
            out@ == text("\t++ CHAIN ++\n") + chain_lines(bs, k),
        decreases bs.len() - k,
    {
        proof {
            if k + 1 < bs.len() {
                lemma_index_of(bs, k + 1);
            }
        }
        let ghost before = out@;
        push_str(&mut out, "\t+ ptr = ");
        let mut digits = putn(ptr.0);
        out.append(&mut digits);
        push_str(&mut out, ", size = ");
        let mut digits = putn(ptr.size(heap));
        out.append(&mut digits);
        if ptr.is_free(heap) {
            push_str(&mut out, ", free\n");
        } else {
            push_str(&mut out, ", alloc\n");
        }
        proof {
            assert(out@ =~= before + box_line(bs[k]));
            assert(chain_lines(bs, k + 1) == chain_lines(bs, k) + box_line(bs[k]));
            assert(out@ =~= text("\t++ CHAIN ++\n") + chain_lines(bs, k + 1));
        }
        ptr = ptr.next(heap);
        proof {
            k = k + 1;
        }
    }
    out
}

} // verus!
