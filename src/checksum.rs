use vstd::prelude::*;
use vstd::arithmetic::div_mod::{lemma_add_mod_noop, lemma_mod_equivalence, lemma_small_mod};

verus! {

/// The modulus of both Adler-32 accumulators: the largest prime below 2^16.
pub const ADLER_BASE: u32 = 65521;

/// The two accumulators (running sum, sum of sums) after folding `b` into the
/// state that `seed` packs (sum of sums in the high half, sum in the low half).
pub open spec fn adler_parts(seed: u32, b: Seq<u8>) -> (int, int)
    decreases b.len(),
{
    if b.len() == 0 {
        ((seed % 65536) as int, (seed / 65536) as int)
    } else {
        let (s1, s2) = adler_parts(seed, b.drop_last());
        let a = (s1 + b.last()) % (ADLER_BASE as int);
        (a, (s2 + a) % (ADLER_BASE as int))
    }
}

/// The Adler-32 value of `b` started from `seed`.
pub open spec fn adler_spec(seed: u32, b: Seq<u8>) -> int {
    adler_parts(seed, b).1 * 65536 + adler_parts(seed, b).0
}

/// The plain sum of the bytes of `b`.
pub open spec fn byte_sum(b: Seq<u8>) -> int
    decreases b.len(),
{
    if b.len() == 0 {
        0
    } else {
        byte_sum(b.drop_last()) + b.last()
    }
}

proof fn lemma_parts_bounds(seed: u32, b: Seq<u8>)
    ensures
        0 <= adler_parts(seed, b).0 < 65536,
        0 <= adler_parts(seed, b).1 < 65536,
    decreases b.len(),
{
    if b.len() > 0 {
        lemma_parts_bounds(seed, b.drop_last());
    }
}

/// For a non-empty buffer the running sum is the seed's low half plus all
/// bytes, reduced once.
proof fn lemma_first_part(seed: u32, b: Seq<u8>)
    requires
        b.len() > 0,
    ensures
        adler_parts(seed, b).0 == ((seed % 65536) as int + byte_sum(b)) % (ADLER_BASE as int),
    decreases b.len(),
{
    let p = ADLER_BASE as int;
    let lo = (seed % 65536) as int;
    let c = b.last() as int;
    if b.len() > 1 {
        lemma_first_part(seed, b.drop_last());
        let x = lo + byte_sum(b.drop_last());
        lemma_add_mod_noop(x, c, p);
        lemma_small_mod(c as nat, p as nat);
        assert(c % p == c);
        assert((x % p + c) % p == (x + c) % p);
    } else {
        assert(b.drop_last().len() == 0);
        assert(byte_sum(b.drop_last()) == 0);
        assert(byte_sum(b) == c);
        assert(adler_parts(seed, b.drop_last()).0 == lo);
    }
}

proof fn lemma_sum_update(b: Seq<u8>, i: int, v: u8)
    requires
        0 <= i < b.len(),
    ensures
        byte_sum(b.update(i, v)) == byte_sum(b) - b[i] + v,
    decreases b.len(),
{
    let b2 = b.update(i, v);
    if i == b.len() - 1 {
        assert(b2.drop_last() =~= b.drop_last());
    } else {
        lemma_sum_update(b.drop_last(), i, v);
        assert(b2.drop_last() =~= b.drop_last().update(i, v));
    }
}

/// Changing any single byte of a buffer changes its checksum, whatever the
/// seed; in particular flipping one bit always does.
pub proof fn lemma_checksum_detects_byte_change(seed: u32, b: Seq<u8>, i: int, v: u8)
    requires
        0 <= i < b.len(),
        v != b[i],
    ensures
        adler_spec(seed, b) != adler_spec(seed, b.update(i, v)),
{
    let b2 = b.update(i, v);
    let p = ADLER_BASE as int;
    let x = (seed % 65536) as int + byte_sum(b);
    let y = (seed % 65536) as int + byte_sum(b2);
    lemma_first_part(seed, b);
    lemma_first_part(seed, b2);
    lemma_sum_update(b, i, v);
    lemma_parts_bounds(seed, b);
    lemma_parts_bounds(seed, b2);
    let d = x - y;
    assert(d != 0 && -p < d < p);
    lemma_mod_equivalence(x, y, p);
    if d % p == 0 {
        assert(false) by (nonlinear_arith)
            requires
                d % p == 0,
                d != 0,
                -p < d < p,
                p == 65521,
        {
            vstd::arithmetic::div_mod::lemma_fundamental_div_mod(d, p);
        }
    }
    assert(adler_parts(seed, b).0 != adler_parts(seed, b2).0);
}

/// The Adler-32 checksum of `buf`, continued from the checksum `seed`
/// (1 for a fresh computation).
pub fn checksum(buf: &[u8], seed: u32) -> (r: u32)
    ensures
        r as int == adler_spec(seed, buf@),
{
    let mut s1: u32 = seed % 65536;
    let mut s2: u32 = seed / 65536;
    let mut i: usize = 0;
    while i < buf.len()
        invariant
            i <= buf.len(),
            s1 as int == adler_parts(seed, buf@.subrange(0, i as int)).0,
            s2 as int == adler_parts(seed, buf@.subrange(0, i as int)).1,
        decreases buf.len() - i,
    {
        proof {
            lemma_parts_bounds(seed, buf@.subrange(0, i as int));
            assert(buf@.subrange(0, i + 1).drop_last() =~= buf@.subrange(0, i as int));
        }
        s1 = (s1 + buf[i] as u32) % ADLER_BASE;
        s2 = (s2 + s1) % ADLER_BASE;
        i = i + 1;
    }
    proof {
        assert(buf@.subrange(0, i as int) =~= buf@);
        lemma_parts_bounds(seed, buf@);
    }
    assert(s2 * 65536 + s1 <= u32::MAX) by (nonlinear_arith)
        requires
            s1 < 65536,
            s2 < 65536,
    ;
    s2 * 65536 + s1
}

/// The Adler-32 checksum of `buf` from the conventional seed 1.
pub fn adler32(buf: &[u8]) -> (r: u32)
    ensures
        r as int == adler_spec(1, buf@),
{
    checksum(buf, 1)
}

} // verus!
