//! What the strict decoder makes of a valid stream cut short.
use vstd::prelude::*;
use crate::error::Error;
use crate::format::{
    copy_literals, decode_strict, do_match, ext_len, far_match, len_field, lemma_ext_len_bound, mid_match, run, step,
    Phase, Step,
};
use crate::decode::lemma_step_sane;

verus! {

pub open spec fn is_prefix(p: Seq<u8>, r: Seq<u8>) -> bool {
    p.len() <= r.len() && p == r.subrange(0, p.len() as int)
}

/// A step that succeeds on `r` gives the same on a prefix that holds all the
/// bytes it takes, and runs out of input on a shorter one.
pub open spec fn prefix_result(sr: Step, sp: Step, plen: nat) -> bool {
    match sr {
        Step::Next { used, .. } => if used <= plen { sp == sr } else { sp == (Step::Fail { err: Error::InputOverrun }) },
        Step::Stop { used, .. } => if used <= plen { sp == sr } else { sp == (Step::Fail { err: Error::InputOverrun }) },
        Step::Fail { .. } => true,
    }
}

proof fn lemma_ext_prefix(r: Seq<u8>, p: Seq<u8>)
    requires
        is_prefix(p, r),
    ensures
        ext_len(r) matches Some((k, v)) ==> (if k <= p.len() { ext_len(p) == ext_len(r) } else { ext_len(p) is None }),
    decreases r.len(),
{
    if r.len() > 0 && r[0] == 0 && p.len() > 0 {
        let r1 = r.subrange(1, r.len() as int);
        let p1 = p.subrange(1, p.len() as int);
        assert(p[0] == r[0]);
        assert(p1 =~= r1.subrange(0, p1.len() as int));
        lemma_ext_prefix(r1, p1);
    }
}

proof fn lemma_len_field_prefix(r: Seq<u8>, p: Seq<u8>, t: nat, bits: nat)
    requires
        is_prefix(p, r),
        p.len() >= 1,
        bits > 0,
    ensures
        len_field(r, t, bits) matches Some((h, v)) ==> (if h <= p.len() { len_field(p, t, bits) == len_field(r, t, bits) } else { len_field(p, t, bits) is None }),
{
    let r1 = r.subrange(1, r.len() as int);
    let p1 = p.subrange(1, p.len() as int);
    assert(p1 =~= r1.subrange(0, p1.len() as int));
    lemma_ext_prefix(r1, p1);
}

proof fn lemma_lits_prefix(r: Seq<u8>, p: Seq<u8>, from: nat, n: nat, out: Seq<u8>, cap: nat, next: Phase)
    requires
        is_prefix(p, r),
        from <= p.len(),
    ensures
        prefix_result(copy_literals(r, from, n, out, cap, next), copy_literals(p, from, n, out, cap, next), p.len()),
{
    if from + n <= p.len() {
        assert(p.subrange(from as int, (from + n) as int) =~= r.subrange(from as int, (from + n) as int));
    }
}

proof fn lemma_match_prefix(r: Seq<u8>, p: Seq<u8>, used: nat, d: nat, l: nat, trail: nat, out: Seq<u8>, cap: nat)
    requires
        is_prefix(p, r),
        used <= p.len(),
    ensures
        prefix_result(do_match(r, used, d, l, trail, out, cap), do_match(p, used, d, l, trail, out, cap), p.len()),
{
    if d <= out.len() && out.len() + l <= cap && trail > 0 {
        lemma_lits_prefix(r, p, used, trail, crate::format::copy_match(out, d, l), cap, Phase::Short);
    }
}

proof fn lemma_mid_prefix(r: Seq<u8>, p: Seq<u8>, hdr: nat, l: nat, out: Seq<u8>, cap: nat)
    requires
        is_prefix(p, r),
        hdr <= p.len(),
    ensures
        prefix_result(mid_match(r, hdr, l, out, cap), mid_match(p, hdr, l, out, cap), p.len()),
{
    if p.len() >= hdr + 2 {
        assert(p[hdr as int] == r[hdr as int] && p[hdr + 1int] == r[hdr + 1int]);
        let a = r[hdr as int] as nat;
        let b = r[hdr + 1int] as nat;
        lemma_match_prefix(r, p, hdr + 2, 1 + a / 4 + b * 64, l, a % 4, out, cap);
    }
}

proof fn lemma_far_prefix(r: Seq<u8>, p: Seq<u8>, t: nat, hdr: nat, l: nat, out: Seq<u8>, cap: nat)
    requires
        is_prefix(p, r),
        hdr <= p.len(),
    ensures
        prefix_result(far_match(r, t, hdr, l, out, cap), far_match(p, t, hdr, l, out, cap), p.len()),
{
    if p.len() >= hdr + 2 {
        assert(p[hdr as int] == r[hdr as int] && p[hdr + 1int] == r[hdr + 1int]);
        let a = r[hdr as int] as nat;
        let b = r[hdr + 1int] as nat;
        let off = (t / 8 % 2) * 16384 + a / 4 + b * 64;
        if off != 0 {
            lemma_match_prefix(r, p, hdr + 2, off + 16384, l, a % 4, out, cap);
        }
    }
}

proof fn lemma_step_prefix(r: Seq<u8>, p: Seq<u8>, ph: Phase, out: Seq<u8>, cap: nat)
    requires
        is_prefix(p, r),
        p.len() >= 1,
    ensures
        prefix_result(step(r, ph, out, cap), step(p, ph, out, cap), p.len()),
{
    reveal(step);
    let t = r[0] as nat;
    assert(p[0] == r[0]);
    lemma_ext_len_bound(r.subrange(1, r.len() as int));
    if ph == Phase::Start && t > 17 {
        lemma_lits_prefix(r, p, 1, (t - 17) as nat, out, cap, if t - 17 < 4 { Phase::Short } else { Phase::AfterLit });
    } else if t >= 64 {
        if p.len() >= 2 {
            assert(p[1] == r[1]);
            lemma_match_prefix(r, p, 2, 1 + t / 4 % 8 + r[1] as nat * 8, t / 32 + 1, t % 4, out, cap);
        }
    } else if t >= 32 {
        lemma_len_field_prefix(r, p, t, 32);
        if let Some((hdr, v)) = len_field(r, t, 32) {
            if hdr <= p.len() {
                lemma_mid_prefix(r, p, hdr, v + 2, out, cap);
            }
        }
    } else if t >= 16 {
        lemma_len_field_prefix(r, p, t, 8);
        if let Some((hdr, v)) = len_field(r, t, 8) {
            if hdr <= p.len() {
                lemma_far_prefix(r, p, t, hdr, v + 2, out, cap);
            }
        }
    } else if ph == Phase::Start || ph == Phase::Top {
        lemma_len_field_prefix(r, p, t, 16);
        if let Some((hdr, v)) = len_field(r, t, 16) {
            if hdr <= p.len() {
                lemma_lits_prefix(r, p, hdr, v + 3, out, cap, Phase::AfterLit);
            }
        }
    } else if p.len() >= 2 {
        assert(p[1] == r[1]);
        if ph == Phase::AfterLit {
            lemma_match_prefix(r, p, 2, 2049 + t / 4 + r[1] as nat * 4, 3, t % 4, out, cap);
        } else {
            lemma_match_prefix(r, p, 2, 1 + t / 4 + r[1] as nat * 4, 2, t % 4, out, cap);
        }
    }
}

proof fn lemma_run_prefix(r: Seq<u8>, p: Seq<u8>, ph: Phase, out: Seq<u8>, cap: nat)
    requires
        is_prefix(p, r),
        p.len() < r.len(),
        out.len() <= cap,
        run(r, ph, out, cap) matches Ok((_, left)) && left == 0,
    ensures
        run(p, ph, out, cap) == Err::<(Seq<u8>, nat), Error>(Error::InputOverrun)
            || run(p, ph, out, cap) == Err::<(Seq<u8>, nat), Error>(Error::EOFNotFound),
    decreases r.len(),
{
    if p.len() > 0 {
        lemma_step_sane(r, ph, out, cap);
        lemma_step_prefix(r, p, ph, out, cap);
        match step(r, ph, out, cap) {
            Step::Next { used, phase, out: o } => {
                if used <= p.len() {
                    lemma_step_sane(p, ph, out, cap);
                    let r1 = r.subrange(used as int, r.len() as int);
                    let p1 = p.subrange(used as int, p.len() as int);
                    assert(p1 =~= r1.subrange(0, p1.len() as int));
                    lemma_run_prefix(r1, p1, phase, o, cap);
                }
            },
            _ => {},
        }
    }
}

/// Cutting any non-empty tail off a stream that the strict decoder accepts
/// makes it report that the input ran out: either mid-instruction or before
/// the end marker.
pub proof fn lemma_truncation_detected(s: Seq<u8>, cap: nat, k: nat)
    requires
        decode_strict(s, cap) is Ok,
        0 < k <= s.len(),
    ensures
        decode_strict(s.subrange(0, s.len() - k), cap) == Err::<Seq<u8>, Error>(Error::InputOverrun)
            || decode_strict(s.subrange(0, s.len() - k), cap) == Err::<Seq<u8>, Error>(Error::EOFNotFound),
{
    let p = s.subrange(0, s.len() - k);
    lemma_run_prefix(s, p, Phase::Start, Seq::empty(), cap);
}

} // verus!
