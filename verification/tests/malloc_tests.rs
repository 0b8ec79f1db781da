use lib::diag;
use lib::malloc::{self, Allocator, Step};
use lib::mmap;
use lib::types::{header_size, Box, Data, Header, HEADER_SIZE};
use lib::util;

const BASE: usize = 4096;

/// A heap with its root at `BASE` and the break one header past it, the
/// kernel granting every request.
fn fresh() -> Allocator {
    let target = malloc::init_request(BASE);
    assert_eq!(target, BASE + 32);
    let a = malloc::init_malloc(BASE, target);
    assert_eq!(a.current_brk, BASE + 32);
    a
}

/// Allocate `size` bytes, growing the break as the kernel would when needed.
fn allocate(a: &mut Allocator, size: usize) -> usize {
    match malloc::malloc(a, size) {
        Step::Ready(p) => p,
        Step::Grow(t) => {
            let target = malloc::sbrk(a, t);
            malloc::malloc_grown(a, size, target)
        }
    }
}

fn sizes(a: &Allocator) -> Vec<(usize, usize, bool)> {
    let mut out = Vec::new();
    let mut b = a.heap.root();
    loop {
        out.push((b.0, b.size(&a.heap), b.is_free(&a.heap)));
        if !b.has_next(&a.heap) {
            break;
        }
        b = b.next(&a.heap);
    }
    out
}

#[test]
fn round_up_gives_powers_of_two() {
    assert_eq!(util::round_up(1), 1);
    assert_eq!(util::round_up(2), 2);
    assert_eq!(util::round_up(3), 4);
    assert_eq!(util::round_up(5), 8);
    assert_eq!(util::round_up(33), 64);
    assert_eq!(util::round_up(1000), 1024);
    assert_eq!(util::round_up(4096), 4096);
    assert_eq!(util::round_up(0x1_0000_0000), 0x1_0000_0000);
    assert_eq!(malloc::round_up(42), 64);
}

#[test]
fn round_up_past_32_bits() {
    assert_eq!(util::round_up((1usize << 32) + 1), 1usize << 33);
    assert_eq!(util::round_up((1usize << 40) - 3), 1usize << 40);
    assert_eq!(util::round_up(1usize << 63), 1usize << 63);
    assert_eq!(util::round_up((1usize << 63) + 1), 0);
    assert_eq!(malloc::round_up((1usize << 32) + 1), 1usize << 33);
}

#[test]
fn round_up_wraps_on_zero() {
    assert_eq!(util::round_up(0), 0);
    assert_eq!(malloc::round_up(0), 0);
}

#[test]
fn putn_writes_decimal_digits() {
    assert_eq!(util::putn(0), b"0".to_vec());
    assert_eq!(util::putn(7), b"7".to_vec());
    assert_eq!(util::putn(10), b"10".to_vec());
    assert_eq!(util::putn(12345), b"12345".to_vec());
    assert_eq!(util::putn(usize::MAX), format!("{}", usize::MAX).into_bytes());
}

#[test]
fn bench_sizes_follow_the_formula() {
    assert_eq!(util::bench_size(0), 31647);
    assert_eq!(util::bench_size(1), 63960);
    assert_eq!(util::bench_size(4), 97039);
    assert_eq!(util::bench_size(10), 11331);
    assert_eq!(util::bench_size(1000), 80031);
}

#[test]
fn header_and_box_addresses() {
    assert_eq!(header_size(), 32);
    assert_eq!(HEADER_SIZE, 32);
    let h = Header::default();
    assert_eq!(h.prev.0, 0);
    assert_eq!(h.next.0, 0);
    assert_eq!(h.size, 0);
    assert!(h.free);
    assert!(Box::null().is_null());
    assert!(!Box::from_uint(8).is_null());
    assert_eq!(Box::from_ptr(100).0, 100);
    assert_eq!(Box::from_uint(100).data().0, 132);
    assert_eq!(Data::from_uint(132).to_box().0, 100);
    assert_eq!(Box::from_uint(100).data().to_box().0, 100);
}

#[test]
fn init_makes_an_empty_free_root() {
    let a = fresh();
    assert_eq!(sizes(&a), vec![(BASE, 0, true)]);
    let root = a.heap.root();
    assert!(!root.has_next(&a.heap));
    assert!(!root.has_prev(&a.heap));
    assert_eq!(root.next_box_by_size(&a.heap).0, BASE + 32);
    assert_eq!(a.heap.end(), BASE + 32);
    assert!(a.heap.is_box(BASE));
    assert!(!a.heap.is_box(BASE + 32));
}

#[test]
fn init_records_the_granted_break() {
    let a = malloc::init_malloc(BASE, BASE + 4096);
    assert_eq!(a.current_brk, BASE + 4096);
    assert_eq!(sizes(&a), vec![(BASE, 0, true)]);
}

#[test]
fn brk_reports_a_short_grant_as_all_ones() {
    let mut a = fresh();
    assert_eq!(malloc::sbrk(&a, 64), BASE + 96);
    assert_eq!(malloc::brk(&mut a, BASE + 96, BASE + 32), usize::MAX);
    assert_eq!(a.current_brk, BASE + 32);
    assert_eq!(malloc::brk(&mut a, BASE + 96, BASE + 96), BASE + 96);
    assert_eq!(a.current_brk, BASE + 96);
}

#[test]
fn brk_compares_as_signed_words() {
    let mut a = fresh();
    let high = isize::MAX as usize + 1;
    assert_eq!(malloc::brk(&mut a, high, 5), 5);
    assert_eq!(a.current_brk, 5);
    assert_eq!(malloc::brk(&mut a, 5, high), usize::MAX);
    assert_eq!(a.current_brk, high);
}

#[test]
fn first_malloc_grows_the_break() {
    let mut a = fresh();
    match malloc::malloc(&mut a, 10) {
        Step::Grow(t) => assert_eq!(t, 64),
        Step::Ready(_) => panic!("a fresh heap has no box that holds 10 bytes"),
    }
    assert_eq!(sizes(&a), vec![(BASE, 0, true)]);
    let p = malloc::malloc_grown(&mut a, 10, BASE + 96);
    assert_eq!(p, BASE + 64);
    assert_eq!(a.current_brk, BASE + 96);
    assert_eq!(sizes(&a), vec![(BASE, 0, true), (BASE + 32, 32, false)]);
}

#[test]
fn boxy_malloc_grown_places_the_box_at_the_old_break() {
    let mut a = fresh();
    let b = malloc::boxy_malloc_grown(&mut a, 100, BASE + 32 + 256);
    assert_eq!(b.0, BASE + 32);
    assert_eq!(b.size(&a.heap), 224);
    assert!(!b.is_free(&a.heap));
    assert_eq!(a.current_brk, BASE + 288);
    assert_eq!(a.heap.end(), BASE + 288);
}

#[test]
fn malloc_zero_takes_the_free_empty_root() {
    let mut a = fresh();
    match malloc::boxy_malloc(&mut a, 0) {
        Step::Ready(b) => assert_eq!(b.0, BASE),
        Step::Grow(_) => panic!("the root is free and holds 0 bytes"),
    }
    assert_eq!(sizes(&a), vec![(BASE, 0, false)]);
}

#[test]
fn first_fit_reuses_a_free_last_box() {
    let mut a = fresh();
    let x = allocate(&mut a, 10);
    assert_eq!(x, BASE + 64);
    malloc::free(&mut a, x);
    let brk_before = a.current_brk;
    let y = allocate(&mut a, 10);
    assert_eq!(y, x);
    assert_eq!(a.current_brk, brk_before);
}

#[test]
fn smaller_request_after_bigger_one_does_not_overlap() {
    let mut a = fresh();
    let x = allocate(&mut a, 100);
    let y = allocate(&mut a, 10);
    assert_eq!(x, BASE + 64);
    assert_eq!(y, BASE + 32 + 256 + 32);
    assert!(x + 100 <= y);
    assert_eq!(a.heap.end(), a.current_brk);
}

#[test]
fn freed_box_is_reused_and_split() {
    let mut a = fresh();
    let x = allocate(&mut a, 200);
    assert_eq!(x, BASE + 64);
    let y = allocate(&mut a, 300);
    assert_eq!(y, BASE + 32 + 256 + 32);
    malloc::free(&mut a, x);
    assert_eq!(
        sizes(&a),
        vec![(BASE, 0, true), (BASE + 32, 224, true), (BASE + 288, 480, false)]
    );
    let z = allocate(&mut a, 50);
    assert_eq!(z, x);
    assert_eq!(
        sizes(&a),
        vec![
            (BASE, 0, true),
            (BASE + 32, 96, false),
            (BASE + 160, 96, true),
            (BASE + 288, 480, false)
        ]
    );
    let b = Data::from_uint(z).to_box();
    assert_eq!(b.next(&a.heap).0, BASE + 160);
    assert_eq!(b.next(&a.heap).prev(&a.heap).0, b.0);
    assert!(b.has_prev(&a.heap));
}

#[test]
fn free_then_merge_restores_the_box() {
    let mut a = fresh();
    let x = allocate(&mut a, 200);
    let _y = allocate(&mut a, 300);
    malloc::free(&mut a, x);
    let z = allocate(&mut a, 50);
    malloc::free(&mut a, z);
    let b = Data::from_uint(z).to_box();
    b.try_merge(&mut a.heap);
    assert_eq!(
        sizes(&a),
        vec![(BASE, 0, true), (BASE + 32, 224, true), (BASE + 288, 480, false)]
    );
}

#[test]
fn try_merge_leaves_used_neighbours_alone() {
    let mut a = fresh();
    let x = allocate(&mut a, 200);
    let _y = allocate(&mut a, 300);
    let before = sizes(&a);
    Data::from_uint(x).to_box().try_merge(&mut a.heap);
    assert_eq!(sizes(&a), before);
    Box::null().try_merge(&mut a.heap);
    assert_eq!(sizes(&a), before);
    malloc::free(&mut a, x);
    Data::from_uint(x).to_box().try_merge(&mut a.heap);
    assert_eq!(
        sizes(&a),
        vec![(BASE, 0, true), (BASE + 32, 224, true), (BASE + 288, 480, false)]
    );
}

#[test]
fn split_box_directly() {
    let mut a = fresh();
    let x = allocate(&mut a, 200);
    let _y = allocate(&mut a, 300);
    let b = Data::from_uint(x).to_box();
    let n = b.split_box(&mut a.heap, 64);
    assert_eq!(n.0, BASE + 32 + 32 + 64);
    assert_eq!(n.size(&a.heap), 224 - 64 - 32);
    assert!(n.is_free(&a.heap));
    assert!(!b.is_free(&a.heap));
    assert_eq!(b.size(&a.heap), 64);
    assert_eq!(b.next_box_by_size(&a.heap).0, n.0);
}

#[test]
fn calloc_zeroes_the_data() {
    let mut a = fresh();
    let x = allocate(&mut a, 200);
    let _y = allocate(&mut a, 300);
    for i in 0..200 {
        a.heap.write_byte(x + i, 0xAB);
    }
    malloc::free(&mut a, x);
    let z = match malloc::calloc(&mut a, 100) {
        Step::Ready(p) => p,
        Step::Grow(_) => panic!("the freed box fits"),
    };
    assert_eq!(z, x);
    for i in 0..100 {
        assert_eq!(a.heap.read_byte(z + i), Some(0));
    }
    assert_eq!(a.heap.read_byte(z + 100), Some(0xAB));
    assert_eq!(a.heap.read_byte(z + 1000), None);
}

#[test]
fn calloc_grown_zeroes_the_new_data() {
    let mut a = fresh();
    let t = match malloc::calloc(&mut a, 8) {
        Step::Grow(t) => t,
        Step::Ready(_) => panic!("a fresh heap has no box that holds 8 bytes"),
    };
    assert_eq!(t, 64);
    let target = malloc::sbrk(&a, t);
    let z = malloc::calloc_grown(&mut a, 8, target);
    assert_eq!(z, BASE + 64);
    for i in 0..8 {
        assert_eq!(a.heap.read_byte(z + i), Some(0));
    }
}

#[test]
fn realloc_always_fails() {
    assert_eq!(malloc::realloc(0, 10), 0);
    assert_eq!(malloc::realloc(4096, 0), 0);
}

#[test]
fn can_request_rejects_sizes_that_wrap() {
    assert!(malloc::can_request(0));
    assert!(malloc::can_request(100000));
    assert!(!malloc::can_request(usize::MAX));
    assert!(!malloc::can_request(usize::MAX - 31));
}

#[test]
fn counts_skip_or_include_the_last_box() {
    let mut a = fresh();
    let x = allocate(&mut a, 200);
    let _y = allocate(&mut a, 300);
    malloc::free(&mut a, x);
    assert_eq!(malloc::count_blocks(&a.heap), (2, 224, 0, 0));
    assert_eq!(diag::count_blocks(&a.heap), (2, 224, 1, 480));
}

#[test]
fn free_moves_one_box_from_used_to_free_in_the_counts() {
    let mut a = fresh();
    let x = allocate(&mut a, 200);
    let y = allocate(&mut a, 300);
    let _z = allocate(&mut a, 600);
    assert_eq!(diag::count_blocks(&a.heap), (1, 0, 3, 224 + 480 + 992));
    assert_eq!(malloc::count_blocks(&a.heap), (1, 0, 2, 224 + 480));
    malloc::free(&mut a, y);
    assert_eq!(diag::count_blocks(&a.heap), (2, 480, 2, 224 + 992));
    assert_eq!(malloc::count_blocks(&a.heap), (2, 480, 1, 224));
    malloc::free(&mut a, x);
    assert_eq!(diag::count_blocks(&a.heap), (3, 704, 1, 992));
}

#[test]
fn diagnostics_text() {
    let mut a = fresh();
    let x = allocate(&mut a, 200);
    let _y = allocate(&mut a, 300);
    malloc::free(&mut a, x);
    let text = String::from_utf8(malloc::diagnostics(&a.heap)).unwrap();
    assert_eq!(
        text,
        "\t** DIAGS **\n\t*    f = 2\n\t*  f s = 224\n\t*   nf = 0\n\t* nf s = 0\n"
    );
    let text = String::from_utf8(diag::diagnostics(&a.heap)).unwrap();
    assert_eq!(
        text,
        "\t** DIAGS **\n\t*  free # = 2\n\t*    free = 224\n\t* alloc # = 1\n\t*   alloc = 480\n"
    );
}

#[test]
fn print_boxes_lists_the_chain() {
    let mut a = fresh();
    let _x = allocate(&mut a, 10);
    let text = String::from_utf8(diag::print_boxes(&a.heap)).unwrap();
    assert_eq!(
        text,
        "\t++ CHAIN ++\n\t+ ptr = 4096, size = 0, free\n\t+ ptr = 4128, size = 32, alloc\n"
    );
}

#[test]
fn mmap_requests() {
    let r = mmap::malloc_request(100);
    assert_eq!(r.addr, 0);
    assert_eq!(r.length, 108);
    assert_eq!(r.prot, 3);
    assert_eq!(r.flags, 0x22);
    assert_eq!(r.fd, -1);
    assert_eq!(r.offset, 0);
    assert_eq!(mmap::malloc_data(0x7000), 0x7008);
    assert_eq!(mmap::free_region(0x7008), 0x7000);
    assert_eq!(mmap::free_request(0x7008, 100), (0x7000, 100));
}

#[test]
fn first_fit_takes_the_earliest_free_box() {
    let mut a = fresh();
    let x = allocate(&mut a, 200);
    let y = allocate(&mut a, 300);
    let _z = allocate(&mut a, 600);
    malloc::free(&mut a, y);
    malloc::free(&mut a, x);
    let before = sizes(&a);
    let w = allocate(&mut a, 100);
    assert_eq!(w, x);
    malloc::free(&mut a, w);
    assert_eq!(sizes(&a), before);
    let v = allocate(&mut a, 100);
    assert_eq!(v, x);
}

#[test]
fn allocations_do_not_overlap() {
    let mut a = fresh();
    let requests = [700usize, 10, 300, 20, 100, 40];
    let mut spans = Vec::new();
    for r in requests.iter() {
        let p = allocate(&mut a, *r);
        spans.push((p, p + *r));
        assert!(p + *r <= a.current_brk);
    }
    for i in 0..spans.len() {
        for j in 0..spans.len() {
            if i != j {
                assert!(spans[i].1 <= spans[j].0 || spans[j].1 <= spans[i].0);
            }
        }
    }
}

#[test]
fn split_keeps_the_extent_of_the_box() {
    let mut a = fresh();
    let x = allocate(&mut a, 200);
    let _y = allocate(&mut a, 300);
    let b = Data::from_uint(x).to_box();
    let end = b.next_box_by_size(&a.heap).0;
    let n = b.split_box(&mut a.heap, 100);
    assert_eq!(b.next_box_by_size(&a.heap).0, n.0);
    assert_eq!(n.next_box_by_size(&a.heap).0, end);
}

#[test]
fn is_data_covers_data_areas_only() {
    let mut a = fresh();
    let x = allocate(&mut a, 200);
    let b = Data::from_uint(x).to_box();
    let end = b.next_box_by_size(&a.heap).0;
    assert!(!a.heap.is_data(BASE));
    assert!(!a.heap.is_data(b.0));
    assert!(!a.heap.is_data(x - 1));
    assert!(a.heap.is_data(x));
    assert!(a.heap.is_data(end - 1));
    assert!(!a.heap.is_data(end));
}

#[test]
fn merge_restores_the_extent_after_a_split() {
    let mut a = fresh();
    let x = allocate(&mut a, 200);
    let _y = allocate(&mut a, 300);
    let b = Data::from_uint(x).to_box();
    let end = b.next_box_by_size(&a.heap).0;
    let size = b.size(&a.heap);
    let n = b.split_box(&mut a.heap, 100);
    b.set_free(&mut a.heap, true);
    n.set_free(&mut a.heap, true);
    b.try_merge(&mut a.heap);
    assert_eq!(b.next_box_by_size(&a.heap).0, end);
    assert_eq!(b.size(&a.heap), size);
}

#[test]
fn malloc_after_free_gets_the_split_box_again() {
    let mut a = fresh();
    let x = allocate(&mut a, 200);
    let _y = allocate(&mut a, 300);
    malloc::free(&mut a, x);
    let z = allocate(&mut a, 50);
    assert_eq!(z, x);
    malloc::free(&mut a, z);
    let w = allocate(&mut a, 50);
    assert_eq!(w, z);
    assert_eq!(
        sizes(&a),
        vec![
            (BASE, 0, true),
            (BASE + 32, 96, false),
            (BASE + 160, 96, true),
            (BASE + 288, 480, false)
        ]
    );
}
