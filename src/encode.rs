//! The instructions the compressor writes, and what the decoder makes of each.
use vstd::prelude::*;
use crate::format::{copy_match, do_match, ext_len, far_match, len_field, mid_match, run, step, Phase, Step};

verus! {

/// The longest distance a match can reach.
pub const MAX_DIST: usize = 49151;

/// A run length of at least one continued over extra bytes: zeros for each
/// 255, then the non-zero remainder.
pub open spec fn ext_bytes(r: nat) -> Seq<u8>
    decreases r,
{
    if r <= 255 {
        seq![r as u8]
    } else {
        seq![0u8] + ext_bytes((r - 255) as nat)
    }
}

/// A literal run of four or more bytes as it stands after a match.
pub open spec fn lit_run_bytes(l: Seq<u8>) -> Seq<u8> {
    if l.len() <= 18 {
        seq![(l.len() - 3) as u8] + l
    } else {
        seq![0u8] + ext_bytes((l.len() - 18) as nat) + l
    }
}

/// The literal run that opens a stream.
pub open spec fn first_bytes(l: Seq<u8>) -> Seq<u8> {
    if l.len() <= 238 {
        seq![(l.len() + 17) as u8] + l
    } else {
        lit_run_bytes(l)
    }
}

/// The phase after the opening literal run of `n` bytes.
pub open spec fn first_phase(n: nat) -> Phase {
    if n < 4 {
        Phase::Short
    } else {
        Phase::AfterLit
    }
}

/// A match that the compressor may write: the short class up to eight bytes
/// within 2 KiB, otherwise at least four bytes within the window.
pub open spec fn match_ok(d: nat, l: nat) -> bool {
    1 <= d <= MAX_DIST && 3 <= l && (l <= 8 && d <= 2048 || l >= 4)
}

/// A length field of a match class with `bits` values, in the opcode `base`.
pub open spec fn len_head(base: nat, bits: nat, v: nat) -> Seq<u8> {
    if v <= bits - 1 {
        seq![(base + v) as u8]
    } else {
        seq![base as u8] + ext_bytes((v - (bits - 1)) as nat)
    }
}

/// A match of `l` bytes at distance `d`, followed by `k` (at most three)
/// literals that its low bits announce.
pub open spec fn match_bytes(d: nat, l: nat, k: nat) -> Seq<u8> {
    if l <= 8 && d <= 2048 {
        let dm = (d - 1) as nat;
        seq![((l - 1) * 32 + dm % 8 * 4 + k) as u8, (dm / 8) as u8]
    } else if d <= 16384 {
        let dm = (d - 1) as nat;
        len_head(32, 32, (l - 2) as nat) + seq![(dm % 64 * 4 + k) as u8, (dm / 64) as u8]
    } else {
        let dm = (d - 16384) as nat;
        len_head(16 + dm / 16384 * 8, 8, (l - 2) as nat) + seq![(dm % 16384 % 64 * 4 + k) as u8, (dm % 16384 / 64) as u8]
    }
}

/// A match followed by the literals up to the next instruction.
pub open spec fn match_unit(d: nat, l: nat, lits: Seq<u8>) -> Seq<u8> {
    if lits.len() <= 3 {
        match_bytes(d, l, lits.len()) + lits
    } else {
        match_bytes(d, l, 0) + lit_run_bytes(lits)
    }
}

/// The phase after a match followed by `n` literals.
pub open spec fn unit_phase(n: nat) -> Phase {
    if n == 0 {
        Phase::Top
    } else if n <= 3 {
        Phase::Short
    } else {
        Phase::AfterLit
    }
}

/// The end-of-stream marker: a far match with offset zero.
pub open spec fn end_marker() -> Seq<u8> {
    seq![17u8, 0u8, 0u8]
}

/// Decoding `u` in front of any remaining stream leads from phase `p1` and
/// output `o1` to phase `p2` and output `o2`.
pub open spec fn moves(u: Seq<u8>, p1: Phase, o1: Seq<u8>, p2: Phase, o2: Seq<u8>, cap: nat) -> bool {
    forall|t: Seq<u8>| #[trigger] run(u + t, p1, o1, cap) == run(t, p2, o2, cap)
}

pub proof fn lemma_moves_empty(p: Phase, o: Seq<u8>, cap: nat)
    ensures
        moves(Seq::empty(), p, o, p, o, cap),
{
    assert forall|t: Seq<u8>| #[trigger] run(Seq::empty() + t, p, o, cap) == run(t, p, o, cap) by {
        assert(Seq::<u8>::empty() + t =~= t);
    }
}

pub proof fn lemma_moves_chain(a: Seq<u8>, b: Seq<u8>, p0: Phase, o0: Seq<u8>, p1: Phase, o1: Seq<u8>, p2: Phase, o2: Seq<u8>, cap: nat)
    requires
        moves(a, p0, o0, p1, o1, cap),
        moves(b, p1, o1, p2, o2, cap),
    ensures
        moves(a + b, p0, o0, p2, o2, cap),
{
    assert forall|t: Seq<u8>| #[trigger] run((a + b) + t, p0, o0, cap) == run(t, p2, o2, cap) by {
        assert((a + b) + t =~= a + (b + t));
        assert(run(a + (b + t), p0, o0, cap) == run(b + t, p1, o1, cap));
    }
}

/// One instruction that decodes the same whatever follows it.
pub open spec fn steps_to(u: Seq<u8>, p1: Phase, o1: Seq<u8>, p2: Phase, o2: Seq<u8>, cap: nat) -> bool {
    forall|t: Seq<u8>| #[trigger] step(u + t, p1, o1, cap) == (Step::Next { used: u.len(), phase: p2, out: o2 })
}

pub proof fn lemma_step_moves(u: Seq<u8>, p1: Phase, o1: Seq<u8>, p2: Phase, o2: Seq<u8>, cap: nat)
    requires
        u.len() > 0,
        steps_to(u, p1, o1, p2, o2, cap),
    ensures
        moves(u, p1, o1, p2, o2, cap),
{
    assert forall|t: Seq<u8>| #[trigger] run(u + t, p1, o1, cap) == run(t, p2, o2, cap) by {
        assert(step(u + t, p1, o1, cap) == (Step::Next { used: u.len(), phase: p2, out: o2 }));
        assert((u + t).subrange(u.len() as int, (u + t).len() as int) =~= t);
    }
}

pub proof fn lemma_ext_bytes(r: nat, t: Seq<u8>)
    requires
        r >= 1,
    ensures
        ext_len(ext_bytes(r) + t) == Some((ext_bytes(r).len(), r)),
        ext_bytes(r).len() >= 1,
        255 * ext_bytes(r).len() <= r + 254,
    decreases r,
{
    let s = ext_bytes(r) + t;
    if r <= 255 {
        assert(s[0] == r as u8);
    } else {
        lemma_ext_bytes((r - 255) as nat, t);
        assert(s[0] == 0);
        assert(s.subrange(1, s.len() as int) =~= ext_bytes((r - 255) as nat) + t);
    }
}

pub proof fn lemma_len_head(base: nat, bits: nat, v: nat, rest: Seq<u8>)
    requires
        bits == 8 || bits == 32,
        base % bits == 0,
        16 <= base,
        base + bits <= 256,
        v >= 1,
    ensures
        ({
            let h = len_head(base, bits, v);
            &&& (h + rest)[0] as nat == if v <= bits - 1 { base + v } else { base }
            &&& len_field(h + rest, (h + rest)[0] as nat, bits) == Some((h.len(), v))
            &&& h.len() >= 1
            &&& v <= bits - 1 ==> h.len() == 1
            &&& v > bits - 1 ==> 255 * (h.len() - 1) <= v - bits + 255
        }),
{
    let h = len_head(base, bits, v);
    let r = h + rest;
    if v <= bits - 1 {
        assert(r[0] == (base + v) as u8);
        assert((base + v) % bits == v) by (nonlinear_arith)
            requires base % bits == 0, v < bits, bits > 0;
    } else {
        let e = ext_bytes((v - (bits - 1)) as nat);
        lemma_ext_bytes((v - (bits - 1)) as nat, rest);
        assert(r[0] == base as u8);
        assert(r.subrange(1, r.len() as int) =~= e + rest);
    }
}

proof fn lemma_lit_run_step(l: Seq<u8>, t: Seq<u8>, ph: Phase, x: Seq<u8>, cap: nat)
    requires
        l.len() >= 4,
        ph == Phase::Start || ph == Phase::Top,
        x.len() + l.len() <= cap,
    ensures
        step(lit_run_bytes(l) + t, ph, x, cap) == (Step::Next { used: lit_run_bytes(l).len(), phase: Phase::AfterLit, out: x + l }),
{
    reveal(step);
    let u = lit_run_bytes(l);
    let r = u + t;
    let n = l.len();
    if n <= 18 {
        assert(r[0] == (n - 3) as u8);
        assert(r.subrange(1, 1 + n as int) =~= l);
    } else {
        let e = ext_bytes((n - 18) as nat);
        lemma_ext_bytes((n - 18) as nat, l + t);
        assert(r[0] == 0);
        assert(r.subrange(1, r.len() as int) =~= e + (l + t));
        assert(r.subrange(1 + e.len() as int, 1 + e.len() + n as int) =~= l);
    }
}

/// A literal run after a match decodes to its bytes, whatever follows.
pub proof fn lemma_lit_run_moves(l: Seq<u8>, ph: Phase, x: Seq<u8>, cap: nat)
    requires
        l.len() >= 4,
        ph == Phase::Start || ph == Phase::Top,
        x.len() + l.len() <= cap,
    ensures
        moves(lit_run_bytes(l), ph, x, Phase::AfterLit, x + l, cap),
        l.len() <= 18 ==> lit_run_bytes(l).len() == l.len() + 1,
        l.len() > 18 ==> 255 * lit_run_bytes(l).len() <= 256 * l.len() + 491,
{
    assert forall|t: Seq<u8>| #[trigger] step(lit_run_bytes(l) + t, ph, x, cap) == (Step::Next { used: lit_run_bytes(l).len(), phase: Phase::AfterLit, out: x + l }) by {
        lemma_lit_run_step(l, t, ph, x, cap);
    }
    if l.len() > 18 {
        lemma_ext_bytes((l.len() - 18) as nat, Seq::empty());
    }
    lemma_step_moves(lit_run_bytes(l), ph, x, Phase::AfterLit, x + l, cap);
}

proof fn lemma_first_step(l: Seq<u8>, t: Seq<u8>, x: Seq<u8>, cap: nat)
    requires
        1 <= l.len() <= 238,
        x.len() + l.len() <= cap,
    ensures
        step(first_bytes(l) + t, Phase::Start, x, cap) == (Step::Next { used: first_bytes(l).len(), phase: first_phase(l.len()), out: x + l }),
{
    reveal(step);
    let r = first_bytes(l) + t;
    assert(r[0] == (l.len() + 17) as u8);
    assert(r.subrange(1, 1 + l.len() as int) =~= l);
}

/// The opening literal run decodes to its bytes, whatever follows.
pub proof fn lemma_first_moves(l: Seq<u8>, x: Seq<u8>, cap: nat)
    requires
        l.len() >= 1,
        x.len() + l.len() <= cap,
    ensures
        moves(first_bytes(l), Phase::Start, x, first_phase(l.len()), x + l, cap),
        l.len() <= 238 ==> first_bytes(l).len() == l.len() + 1,
        l.len() > 238 ==> 255 * first_bytes(l).len() <= 256 * l.len() + 491,
{
    if l.len() <= 238 {
        assert forall|t: Seq<u8>| #[trigger] step(first_bytes(l) + t, Phase::Start, x, cap) == (Step::Next { used: first_bytes(l).len(), phase: first_phase(l.len()), out: x + l }) by {
            lemma_first_step(l, t, x, cap);
        }
        lemma_step_moves(first_bytes(l), Phase::Start, x, first_phase(l.len()), x + l, cap);
    } else {
        lemma_lit_run_moves(l, Phase::Start, x, cap);
    }
}

proof fn lemma_end_step(t: Seq<u8>, ph: Phase, x: Seq<u8>, cap: nat)
    ensures
        step(end_marker() + t, ph, x, cap) == (Step::Stop { used: 3, out: x }),
{
    reveal(step);
    let r = end_marker() + t;
    assert(r[0] == 17 && r[1] == 0 && r[2] == 0);
}

/// The end marker stops decoding with the output as it stands.
pub proof fn lemma_end_run(ph: Phase, x: Seq<u8>, cap: nat)
    ensures
        run(end_marker(), ph, x, cap) == Ok::<(Seq<u8>, nat), crate::error::Error>((x, 0)),
{
    lemma_end_step(Seq::empty(), ph, x, cap);
    assert(end_marker() + Seq::empty() =~= end_marker());
}

proof fn lemma_do_match(r: Seq<u8>, used: nat, d: nat, l: nat, lits: Seq<u8>, x: Seq<u8>, cap: nat)
    requires
        1 <= d <= x.len(),
        x.len() + l + lits.len() <= cap,
        used + lits.len() <= r.len(),
        r.subrange(used as int, (used + lits.len()) as int) == lits,
    ensures
        do_match(r, used, d, l, lits.len(), x, cap) == (Step::Next {
            used: used + lits.len(),
            phase: if lits.len() == 0 { Phase::Top } else { Phase::Short },
            out: copy_match(x, d, l) + lits,
        }),
{
    crate::decode::lemma_copy_match_len(x, d, l);
    let cm = copy_match(x, d, l);
    assert(cm + Seq::<u8>::empty() =~= cm);
    if lits.len() == 0 {
        assert(lits =~= Seq::<u8>::empty());
    }
}

pub open spec fn match_next(d: nat, l: nat, lits: Seq<u8>, x: Seq<u8>) -> Step {
    Step::Next {
        used: match_bytes(d, l, lits.len()).len() + lits.len(),
        phase: if lits.len() == 0 { Phase::Top } else { Phase::Short },
        out: copy_match(x, d, l) + lits,
    }
}

proof fn lemma_short_match_step(d: nat, l: nat, lits: Seq<u8>, t: Seq<u8>, ph: Phase, x: Seq<u8>, cap: nat)
    requires
        3 <= l <= 8,
        1 <= d <= 2048,
        ph != Phase::Start,
        lits.len() <= 3,
        d <= x.len(),
        x.len() + l + lits.len() <= cap,
    ensures
        step(match_bytes(d, l, lits.len()) + lits + t, ph, x, cap) == match_next(d, l, lits, x),
        match_bytes(d, l, lits.len()).len() + 1 <= l,
{
    reveal(step);
    let k = lits.len();
    let r = match_bytes(d, l, k) + lits + t;
    let dm = (d - 1) as nat;
    let b0 = (l - 1) * 32 + dm % 8 * 4 + k;
    assert(64 <= b0 < 256 && b0 / 4 % 8 == dm % 8 && b0 / 32 == l - 1 && b0 % 4 == k && dm / 8 < 256
        && 1 + dm % 8 + dm / 8 * 8 == d) by (nonlinear_arith)
        requires
            3 <= l <= 8,
            dm < 2048,
            k < 4,
            b0 == (l - 1) * 32 + dm % 8 * 4 + k,
            d == dm + 1,
    ;
    assert(r[0] == b0 as u8 && r[1] == (dm / 8) as u8);
    assert(r.subrange(2, 2 + k as int) =~= lits);
    lemma_do_match(r, 2, d, l, lits, x, cap);
}

proof fn lemma_mid_match_step(d: nat, l: nat, lits: Seq<u8>, t: Seq<u8>, ph: Phase, x: Seq<u8>, cap: nat)
    requires
        match_ok(d, l),
        !(l <= 8 && d <= 2048),
        d <= 16384,
        ph != Phase::Start,
        lits.len() <= 3,
        d <= x.len(),
        x.len() + l + lits.len() <= cap,
    ensures
        step(match_bytes(d, l, lits.len()) + lits + t, ph, x, cap) == match_next(d, l, lits, x),
        match_bytes(d, l, lits.len()).len() + 1 <= l,
{
    let k = lits.len();
    let r = match_bytes(d, l, k) + lits + t;
    let dm = (d - 1) as nat;
    let h = len_head(32, 32, (l - 2) as nat);
    let a = dm % 64 * 4 + k;
    let tail = seq![a as u8, (dm / 64) as u8] + lits + t;
    lemma_len_head(32, 32, (l - 2) as nat, tail);
    assert(r =~= h + tail);
    assert(a < 256 && a / 4 == dm % 64 && a % 4 == k && dm / 64 < 256 && 1 + dm % 64 + dm / 64 * 64 == d) by (nonlinear_arith)
        requires
            dm < 16384,
            k < 4,
            a == dm % 64 * 4 + k,
            d == dm + 1,
    ;
    let hl = h.len() as int;
    assert(r[hl] == a as u8 && r[hl + 1] == (dm / 64) as u8);
    assert(r.subrange(hl + 2, hl + 2 + k) =~= lits);
    lemma_do_match(r, (hl + 2) as nat, d, l, lits, x, cap);
    assert(step(r, ph, x, cap) == mid_match(r, h.len(), l, x, cap)) by {
        reveal(step);
    }
}

proof fn lemma_far_match_step(d: nat, l: nat, lits: Seq<u8>, t: Seq<u8>, ph: Phase, x: Seq<u8>, cap: nat)
    requires
        match_ok(d, l),
        d > 16384,
        ph != Phase::Start,
        lits.len() <= 3,
        d <= x.len(),
        x.len() + l + lits.len() <= cap,
    ensures
        step(match_bytes(d, l, lits.len()) + lits + t, ph, x, cap) == match_next(d, l, lits, x),
        match_bytes(d, l, lits.len()).len() + 1 <= l,
{
    let k = lits.len();
    let r = match_bytes(d, l, k) + lits + t;
    let dm = (d - 16384) as nat;
    let hi = dm / 16384;
    let lo = dm % 16384;
    let base = 16 + hi * 8;
    let h = len_head(base, 8, (l - 2) as nat);
    let a = lo % 64 * 4 + k;
    assert(hi <= 1 && (base == 16 || base == 24) && a < 256 && a / 4 == lo % 64 && a % 4 == k && lo / 64 < 256
        && hi * 16384 + lo % 64 + lo / 64 * 64 == dm) by (nonlinear_arith)
        requires
            1 <= dm <= 32767,
            k < 4,
            hi == dm / 16384,
            lo == dm % 16384,
            base == 16 + hi * 8,
            a == lo % 64 * 4 + k,
    ;
    let tail = seq![a as u8, (lo / 64) as u8] + lits + t;
    lemma_len_head(base, 8, (l - 2) as nat, tail);
    assert(r =~= h + tail);
    let t0 = r[0] as nat;
    assert(t0 / 8 % 2 == hi) by (nonlinear_arith)
        requires
            hi <= 1,
            16 + hi * 8 <= t0 < 16 + hi * 8 + 8,
    ;
    let hl = h.len() as int;
    assert(r[hl] == a as u8 && r[hl + 1] == (lo / 64) as u8);
    assert(r.subrange(hl + 2, hl + 2 + k) =~= lits);
    lemma_do_match(r, (hl + 2) as nat, d, l, lits, x, cap);
    assert(step(r, ph, x, cap) == far_match(r, t0, h.len(), l, x, cap)) by {
        reveal(step);
    }
}

proof fn lemma_match_step(d: nat, l: nat, lits: Seq<u8>, t: Seq<u8>, ph: Phase, x: Seq<u8>, cap: nat)
    requires
        match_ok(d, l),
        ph != Phase::Start,
        lits.len() <= 3,
        d <= x.len(),
        x.len() + l + lits.len() <= cap,
    ensures
        step(match_bytes(d, l, lits.len()) + lits + t, ph, x, cap) == match_next(d, l, lits, x),
        match_bytes(d, l, lits.len()).len() + 1 <= l,
{
    if l <= 8 && d <= 2048 {
        lemma_short_match_step(d, l, lits, t, ph, x, cap);
    } else if d <= 16384 {
        lemma_mid_match_step(d, l, lits, t, ph, x, cap);
    } else {
        lemma_far_match_step(d, l, lits, t, ph, x, cap);
    }
}

/// A match with up to three trailing literals decodes to the copied bytes and
/// the literals, whatever follows.
pub proof fn lemma_match_moves(d: nat, l: nat, lits: Seq<u8>, ph: Phase, x: Seq<u8>, cap: nat)
    requires
        match_ok(d, l),
        ph != Phase::Start,
        lits.len() <= 3,
        d <= x.len(),
        x.len() + l + lits.len() <= cap,
    ensures
        moves(match_bytes(d, l, lits.len()) + lits, ph, x, unit_phase(lits.len()), copy_match(x, d, l) + lits, cap),
        match_bytes(d, l, lits.len()).len() + 1 <= l,
{
    let u = match_bytes(d, l, lits.len()) + lits;
    let p2 = unit_phase(lits.len());
    let o2 = copy_match(x, d, l) + lits;
    assert forall|t: Seq<u8>| #[trigger] step(u + t, ph, x, cap) == (Step::Next { used: u.len(), phase: p2, out: o2 }) by {
        lemma_match_step(d, l, lits, t, ph, x, cap);
    }
    lemma_match_step(d, l, lits, Seq::empty(), ph, x, cap);
    lemma_step_moves(u, ph, x, p2, o2, cap);
}

/// A match and the literals after it decode to the copied bytes and the
/// literals; the pair is never longer than 17/16 of the bytes it stands for.
pub proof fn lemma_unit_moves(d: nat, l: nat, lits: Seq<u8>, ph: Phase, x: Seq<u8>, cap: nat)
    requires
        match_ok(d, l),
        ph != Phase::Start,
        d <= x.len(),
        x.len() + l + lits.len() <= cap,
    ensures
        moves(match_unit(d, l, lits), ph, x, unit_phase(lits.len()), copy_match(x, d, l) + lits, cap),
        16 * match_unit(d, l, lits).len() <= 17 * (l + lits.len()),
{
    if lits.len() <= 3 {
        lemma_match_moves(d, l, lits, ph, x, cap);
    } else {
        let e = Seq::<u8>::empty();
        let mb = match_bytes(d, l, 0);
        let cm = copy_match(x, d, l);
        lemma_match_moves(d, l, e, ph, x, cap);
        assert(mb + e =~= mb);
        assert(cm + e =~= cm);
        crate::decode::lemma_copy_match_len(x, d, l);
        lemma_lit_run_moves(lits, Phase::Top, cm, cap);
        lemma_moves_chain(mb, lit_run_bytes(lits), ph, x, Phase::Top, cm, Phase::AfterLit, cm + lits, cap);
    }
}

/// Copying a match out of the decoded prefix of `s` extends the prefix, when
/// the bytes it stands for repeat those `d` bytes before them.
pub proof fn lemma_copy_match_src(s: Seq<u8>, p: nat, d: nat, l: nat)
    requires
        1 <= d <= p,
        p + l <= s.len(),
        forall|j: int| p <= j < p + l ==> #[trigger] s[j] == s[j - d],
    ensures
        copy_match(s.subrange(0, p as int), d, l) == s.subrange(0, (p + l) as int),
    decreases l,
{
    if l == 0 {
        assert(s.subrange(0, p as int) =~= s.subrange(0, (p + l) as int));
    } else {
        let x = s.subrange(0, p as int);
        assert(s[p as int] == s[p - d]);
        assert(x.push(x[x.len() - d]) =~= s.subrange(0, p + 1int));
        lemma_copy_match_src(s, p + 1, d, (l - 1) as nat);
    }
}

/// The opening run is never longer than 17/16 of its bytes, plus one.
pub proof fn lemma_first_size(l: Seq<u8>, x: Seq<u8>, cap: nat)
    requires
        l.len() >= 1,
        x.len() + l.len() <= cap,
    ensures
        16 * first_bytes(l).len() <= 17 * l.len() + 16,
{
    lemma_first_moves(l, x, cap);
}

fn push_slice(out: &mut Vec<u8>, src: &[u8], from: usize, to: usize)
    requires
        from <= to <= src.len(),
    ensures
        final(out)@ == old(out)@ + src@.subrange(from as int, to as int),
{
    let mut i: usize = from;
    while i < to
        invariant
            from <= i <= to <= src.len(),
            out@ == old(out)@ + src@.subrange(from as int, i as int),
        decreases to - i,
    {
        out.push(src[i]);
        assert(out@ =~= old(out)@ + src@.subrange(from as int, i + 1));
        i = i + 1;
    }
}

fn push_ext(out: &mut Vec<u8>, r: usize)
    requires
        r >= 1,
    ensures
        final(out)@ == old(out)@ + ext_bytes(r as nat),
{
    let mut rem: usize = r;
    while rem > 255
        invariant
            rem >= 1,
            out@ + ext_bytes(rem as nat) == old(out)@ + ext_bytes(r as nat),
        decreases rem,
    {
        let ghost before = out@;
        out.push(0);
        assert(out@ + ext_bytes((rem - 255) as nat) =~= before + ext_bytes(rem as nat));
        rem = rem - 255;
    }
    out.push(rem as u8);
    assert(out@ =~= old(out)@ + ext_bytes(r as nat));
}

fn push_lit_run(out: &mut Vec<u8>, src: &[u8], from: usize, to: usize)
    requires
        from + 4 <= to <= src.len(),
    ensures
        final(out)@ == old(out)@ + lit_run_bytes(src@.subrange(from as int, to as int)),
{
    let n = to - from;
    let ghost l = src@.subrange(from as int, to as int);
    if n <= 18 {
        out.push((n - 3) as u8);
        push_slice(out, src, from, to);
        assert(out@ =~= old(out)@ + lit_run_bytes(l));
    } else {
        out.push(0);
        push_ext(out, n - 18);
        proof {
            lemma_ext_bytes((n - 18) as nat, Seq::empty());
        }
        push_slice(out, src, from, to);
        assert(out@ =~= old(out)@ + lit_run_bytes(l));
    }
}

pub(crate) fn push_first(out: &mut Vec<u8>, src: &[u8], to: usize)
    requires
        1 <= to <= src.len(),
    ensures
        final(out)@ == old(out)@ + first_bytes(src@.subrange(0, to as int)),
{
    if to <= 238 {
        out.push((to + 17) as u8);
        push_slice(out, src, 0, to);
        assert(out@ =~= old(out)@ + first_bytes(src@.subrange(0, to as int)));
    } else {
        push_lit_run(out, src, 0, to);
    }
}

fn push_len_head(out: &mut Vec<u8>, base: usize, bits: usize, v: usize)
    requires
        bits == 8 || bits == 32,
        base + bits <= 256,
        v >= 1,
    ensures
        final(out)@ == old(out)@ + len_head(base as nat, bits as nat, v as nat),
{
    if v <= bits - 1 {
        out.push((base + v) as u8);
        assert(out@ =~= old(out)@ + len_head(base as nat, bits as nat, v as nat));
    } else {
        out.push(base as u8);
        push_ext(out, v - (bits - 1));
        assert(out@ =~= old(out)@ + len_head(base as nat, bits as nat, v as nat));
    }
}

fn push_match(out: &mut Vec<u8>, d: usize, l: usize, k: usize)
    requires
        match_ok(d as nat, l as nat),
        k <= 3,
    ensures
        final(out)@ == old(out)@ + match_bytes(d as nat, l as nat, k as nat),
{
    if l <= 8 && d <= 2048 {
        let dm = d - 1;
        let b0 = (l - 1) * 32 + dm % 8 * 4 + k;
        out.push(b0 as u8);
        out.push((dm / 8) as u8);
    } else if d <= 16384 {
        let dm = d - 1;
        push_len_head(out, 32, 32, l - 2);
        out.push((dm % 64 * 4 + k) as u8);
        out.push((dm / 64) as u8);
    } else {
        let dm = d - 16384;
        assert(dm / 16384 <= 1);
        push_len_head(out, 16 + dm / 16384 * 8, 8, l - 2);
        out.push((dm % 16384 % 64 * 4 + k) as u8);
        out.push((dm % 16384 / 64) as u8);
    }
    assert(out@ =~= old(out)@ + match_bytes(d as nat, l as nat, k as nat));
}

pub(crate) fn push_unit(out: &mut Vec<u8>, src: &[u8], d: usize, l: usize, from: usize, to: usize)
    requires
        match_ok(d as nat, l as nat),
        from <= to <= src.len(),
    ensures
        final(out)@ == old(out)@ + match_unit(d as nat, l as nat, src@.subrange(from as int, to as int)),
{
    let ghost lits = src@.subrange(from as int, to as int);
    let n = to - from;
    if n <= 3 {
        push_match(out, d, l, n);
        push_slice(out, src, from, to);
    } else {
        push_match(out, d, l, 0);
        push_lit_run(out, src, from, to);
    }
    assert(out@ =~= old(out)@ + match_unit(d as nat, l as nat, lits));
}

} // verus!
