//! Small arithmetic helpers: power-of-two rounding and decimal printing.
use vstd::prelude::*;

verus! {

/// `x` is a power of two.
pub open spec fn is_power_of_two(x: usize) -> bool {
    x != 0 && x & ((x - 1) as usize) == 0
}

/// `r` is the least power of two that is at least `n`.
pub open spec fn least_power_of_two_at_least(n: usize, r: usize) -> bool {
    &&& is_power_of_two(r)
    &&& n <= r
    &&& r / 2 < n
}

/// Some power of two at least `n` fits in a machine word.
pub open spec fn has_power_of_two_at_least(n: usize) -> bool {
    1 <= n && 2 * (n - 1) <= usize::MAX
}

/// `n` rounded up to the nearest power of two; 0 where `n` is 0 or no
/// power of two at least `n` fits in a machine word.
pub open spec fn round_up_spec(n: usize) -> usize {
    if has_power_of_two_at_least(n) {
        choose|r: usize| least_power_of_two_at_least(n, r)
    } else {
        0
    }
}

/// Every bit of `m` below its highest set bit, set.
spec fn smear(m: usize) -> usize {
    let m1 = m | (m >> 1usize);
    let m2 = m1 | (m1 >> 2usize);
    let m3 = m2 | (m2 >> 4usize);
    let m4 = m3 | (m3 >> 8usize);
    let m5 = m4 | (m4 >> 16usize);
    m5 | ((m5 >> 16usize) >> 16usize)
}

/// With the top bit of `m` clear, `smear(m) + 1` is a power of two above
/// `m` and at most twice `m + 1`; with it set, `smear(m)` is all ones.
proof fn lemma_smear(m: usize)
    ensures
        m >> ((usize::BITS - 1) as usize) == 0usize ==> {
            &&& ((smear(m) + 1) as usize) == smear(m) + 1
            &&& smear(m) >= m
            &&& smear(m) <= 2 * m
            &&& smear(m) & ((smear(m) + 1) as usize) == 0usize
        },
        m >> ((usize::BITS - 1) as usize) != 0usize ==> ((smear(m) + 1) as usize) == 0usize,
{
    assert(m >> ((usize::BITS - 1) as usize) == 0usize ==> (((smear(m) + 1) as usize) == smear(m) + 1
        && smear(m) >= m && smear(m) <= 2 * m && smear(m) & ((smear(m) + 1) as usize) == 0usize))
        by (bit_vector);
    assert(m >> ((usize::BITS - 1) as usize) != 0usize ==> ((smear(m) + 1) as usize) == 0usize)
        by (bit_vector);
}

/// There is only one least power of two at least `n`.
proof fn lemma_least_power_of_two_unique(n: usize, r1: usize, r2: usize)
    requires
        least_power_of_two_at_least(n, r1),
        least_power_of_two_at_least(n, r2),
    ensures
        r1 == r2,
{
    assert(r1 == r2) by (bit_vector)
        requires
            r1 != 0usize,
            r1 & ((r1 - 1) as usize) == 0usize,
            r2 != 0usize,
            r2 & ((r2 - 1) as usize) == 0usize,
            n <= r1,
            r1 / 2 < n,
            n <= r2,
            r2 / 2 < n,
    ;
}

/// What the rounding computes, for a word `m` that is `n - 1`: the least
/// power of two at least `n` where there is one in a word, else 0.
proof fn lemma_smear_rounds(n: usize, m: usize)
    requires
        n >= 1,
        m == n - 1,
    ensures
        has_power_of_two_at_least(n) ==> ((smear(m) + 1) as usize) == smear(m) + 1
            && least_power_of_two_at_least(n, (smear(m) + 1) as usize),
        !has_power_of_two_at_least(n) ==> ((smear(m) + 1) as usize) == 0usize,
{
    lemma_smear(m);
    let s = smear(m);
    let d = (2 * m) as usize;
    if has_power_of_two_at_least(n) {
        assert(d == 2 * m);
        assert(m >> ((usize::BITS - 1) as usize) == 0usize) by (bit_vector)
            requires
                d == 2 * m,
        ;
        let r = (s + 1) as usize;
        assert(r & ((r - 1) as usize) == 0usize) by (bit_vector)
            requires
                s & ((s + 1) as usize) == 0usize,
                r == (s + 1) as usize,
                ((s + 1) as usize) == s + 1,
        ;
    } else {
        assert(d != 2 * m);
        assert(m >> ((usize::BITS - 1) as usize) != 0usize) by (bit_vector)
            requires
                d == (2 * m) as usize,
                d != 2 * m,
        ;
    }
}

/// Round `n` up to the nearest power of two.
pub fn round_up(n: usize) -> (r: usize)
    ensures
        r == round_up_spec(n),
        has_power_of_two_at_least(n) ==> least_power_of_two_at_least(n, r),
        !has_power_of_two_at_least(n) ==> r == 0,
{
    if n == 0 {
        return 0;
    }
    let mut m: usize = n - 1;
    m = m | (m >> 1);
    m = m | (m >> 2);
    m = m | (m >> 4);
    m = m | (m >> 8);
    m = m | (m >> 16);
    m = m | ((m >> 16) >> 16);
    let r = m.wrapping_add(1);
    proof {
        let m0 = (n - 1) as usize;
        assert(m == smear(m0));
        lemma_smear_rounds(n, m0);
        if has_power_of_two_at_least(n) {
            lemma_round_up_spec(n);
            lemma_least_power_of_two_unique(n, r, round_up_spec(n));
        }
    }
    r
}

/// Where a power of two at least `n` fits in a word, `round_up_spec(n)` is
/// the least one.
pub proof fn lemma_round_up_spec(n: usize)
    requires
        has_power_of_two_at_least(n),
    ensures
        least_power_of_two_at_least(n, round_up_spec(n)),
{
    let m = (n - 1) as usize;
    lemma_smear_rounds(n, m);
    let w = (smear(m) + 1) as usize;
    assert(least_power_of_two_at_least(n, w));
}

/// The ASCII decimal representation of `n`, most significant digit first.
pub open spec fn decimal(n: nat) -> Seq<u8>
    decreases n,
{
    if n < 10 {
        seq![(48 + n) as u8]
    } else {
        decimal(n / 10).push((48 + n % 10) as u8)
    }
}

/// The bytes that printing the integer `x` writes: its decimal digits.
pub fn putn(x: usize) -> (out: Vec<u8>)
    ensures
        out@ == decimal(x as nat),
{
    let mut out: Vec<u8> = Vec::new();
    let mut x = x;
    let ghost orig = x as nat;
    if x == 0 {
        out.insert(0, 48u8);
        return out;
    }
    while x != 0
        invariant
            x > 0 ==> decimal(orig) == decimal(x as nat) + out@,
            x == 0 ==> decimal(orig) == out@,
        decreases x,
    {
        let digit = x % 10;
        proof {
            if x >= 10 {
                assert(decimal(x as nat) == decimal((x / 10) as nat).push((48 + x % 10) as u8));
                assert(decimal(x as nat) + out@ =~= decimal((x / 10) as nat) + seq![(48 + digit) as u8] + out@);
            } else {
                assert(decimal(x as nat) =~= seq![(48 + x) as u8]);
            }
        }
        out.insert(0, 48u8 + digit as u8);
        x = x / 10;
        proof {
            if x > 0 {
                assert(decimal(orig) =~= decimal(x as nat) + out@);
            } else {
                assert(decimal(orig) =~= out@);
            }
        }
    }
    out
}

/// The request size that the benchmarks use at step `i`, with the
/// machine's wrapping arithmetic.
pub open spec fn bench_size_spec(i: usize) -> usize {
    (i.wrapping_mul(i).wrapping_sub(13).wrapping_mul(32313) % 100000 + 100) as usize
}

/// The request size that the benchmarks use at step `i`.
pub fn bench_size(i: usize) -> (r: usize)
    ensures
        r == bench_size_spec(i),
        100 <= r < 100100,
{
    i.wrapping_mul(i).wrapping_sub(13).wrapping_mul(32313) % 100000 + 100
}

} // verus!
