//! The LZO1X stream format, stated as a decoder state machine over the bytes
//! that remain to be read.
use vstd::prelude::*;
use crate::error::Error;

verus! {

/// What the decoder expects of the next instruction's small opcodes
/// (those below 16); opcodes of 16 and above are matches in every phase.
#[derive(Debug, Clone, Copy, PartialEq, Eq, Structural)]
pub enum Phase {
    /// At the very first byte, where 18..=255 opens a short literal run.
    Start,
    /// After a match with no trailing literals: a small opcode is a literal run.
    Top,
    /// After a literal run of four or more bytes: a small opcode is a
    /// three-byte match reaching beyond 2 KiB.
    AfterLit,
    /// After one to three trailing literals: a small opcode is a two-byte match
    /// within 1 KiB.
    Short,
}

/// The outcome of decoding one instruction.
pub enum Step {
    /// The instruction took `used` bytes and left the output `out`.
    Next { used: nat, phase: Phase, out: Seq<u8> },
    /// The end-of-stream marker took `used` bytes.
    Stop { used: nat, out: Seq<u8> },
    /// The instruction cannot be carried out.
    Fail { err: Error },
}

/// A run length continued over extra bytes: each zero byte adds 255 and the
/// first non-zero byte adds itself and ends it. Gives the bytes taken and the
/// sum, or `None` when the input ends first.
pub open spec fn ext_len(r: Seq<u8>) -> Option<(nat, nat)>
    decreases r.len(),
{
    if r.len() == 0 {
        None
    } else if r[0] == 0 {
        match ext_len(r.subrange(1, r.len() as int)) {
            Some((k, v)) => Some((k + 1, v + 255)),
            None => None,
        }
    } else {
        Some((1, r[0] as nat))
    }
}

/// Copies `n` literal bytes that start at `from` in `r` onto `out`.
pub open spec fn copy_literals(r: Seq<u8>, from: nat, n: nat, out: Seq<u8>, cap: nat, next: Phase) -> Step {
    if out.len() + n > cap {
        Step::Fail { err: Error::OutputOverrun }
    } else if from + n > r.len() {
        Step::Fail { err: Error::InputOverrun }
    } else {
        Step::Next { used: from + n, phase: next, out: out + r.subrange(from as int, (from + n) as int) }
    }
}

/// Appends `len` bytes to `out`, each copied from `dist` bytes before it; the
/// source may overlap what is being written.
pub open spec fn copy_match(out: Seq<u8>, dist: nat, len: nat) -> Seq<u8>
    decreases len,
{
    if len == 0 {
        out
    } else {
        copy_match(out.push(out[out.len() - dist]), dist, (len - 1) as nat)
    }
}

/// Carries out a match of `len` bytes at distance `dist` whose instruction took
/// `used` bytes, then the `trail` literals that follow it.
pub open spec fn do_match(r: Seq<u8>, used: nat, dist: nat, len: nat, trail: nat, out: Seq<u8>, cap: nat) -> Step {
    if dist > out.len() {
        Step::Fail { err: Error::LookbehindOverrun }
    } else if out.len() + len > cap {
        Step::Fail { err: Error::OutputOverrun }
    } else if trail == 0 {
        Step::Next { used, phase: Phase::Top, out: copy_match(out, dist, len) }
    } else {
        copy_literals(r, used, trail, copy_match(out, dist, len), cap, Phase::Short)
    }
}

/// A length field of `bits` values in the opcode `t`: zero continues it over
/// extra bytes. Gives the header size and the field's value.
pub open spec fn len_field(r: Seq<u8>, t: nat, bits: nat) -> Option<(nat, nat)> {
    if t % bits == 0 {
        match ext_len(r.subrange(1, r.len() as int)) {
            Some((k, v)) => Some((1 + k, (v + bits - 1) as nat)),
            None => None,
        }
    } else {
        Some((1, t % bits))
    }
}

/// A match with a 14-bit distance in two bytes after a header of `hdr` bytes.
pub open spec fn mid_match(r: Seq<u8>, hdr: nat, len: nat, out: Seq<u8>, cap: nat) -> Step {
    if r.len() < hdr + 2 {
        Step::Fail { err: Error::InputOverrun }
    } else {
        let a = r[hdr as int] as nat;
        let b = r[hdr + 1int] as nat;
        do_match(r, hdr + 2, 1 + a / 4 + b * 64, len, a % 4, out, cap)
    }
}

/// A match reaching beyond 16 KiB, or the end marker when its offset is zero.
pub open spec fn far_match(r: Seq<u8>, t: nat, hdr: nat, len: nat, out: Seq<u8>, cap: nat) -> Step {
    if r.len() < hdr + 2 {
        Step::Fail { err: Error::InputOverrun }
    } else {
        let a = r[hdr as int] as nat;
        let b = r[hdr + 1int] as nat;
        let off = (t / 8 % 2) * 16384 + a / 4 + b * 64;
        if off == 0 {
            Step::Stop { used: hdr + 2, out }
        } else {
            do_match(r, hdr + 2, off + 16384, len, a % 4, out, cap)
        }
    }
}

/// Decodes the instruction at the front of `r` (non-empty) in phase `ph`, with
/// `out` decoded so far and room for `cap` bytes of output in all.
#[verifier::opaque]
pub open spec fn step(r: Seq<u8>, ph: Phase, out: Seq<u8>, cap: nat) -> Step {
    let t = r[0] as nat;
    if ph == Phase::Start && t > 17 {
        let n = (t - 17) as nat;
        copy_literals(r, 1, n, out, cap, if n < 4 { Phase::Short } else { Phase::AfterLit })
    } else if t >= 64 {
        if r.len() < 2 {
            Step::Fail { err: Error::InputOverrun }
        } else {
            do_match(r, 2, 1 + t / 4 % 8 + r[1] as nat * 8, t / 32 + 1, t % 4, out, cap)
        }
    } else if t >= 32 {
        match len_field(r, t, 32) {
            Some((hdr, v)) => mid_match(r, hdr, v + 2, out, cap),
            None => Step::Fail { err: Error::InputOverrun },
        }
    } else if t >= 16 {
        match len_field(r, t, 8) {
            Some((hdr, v)) => far_match(r, t, hdr, v + 2, out, cap),
            None => Step::Fail { err: Error::InputOverrun },
        }
    } else if ph == Phase::Start || ph == Phase::Top {
        match len_field(r, t, 16) {
            Some((hdr, v)) => copy_literals(r, hdr, v + 3, out, cap, Phase::AfterLit),
            None => Step::Fail { err: Error::InputOverrun },
        }
    } else if r.len() < 2 {
        Step::Fail { err: Error::InputOverrun }
    } else if ph == Phase::AfterLit {
        do_match(r, 2, 2049 + t / 4 + r[1] as nat * 4, 3, t % 4, out, cap)
    } else {
        do_match(r, 2, 1 + t / 4 + r[1] as nat * 4, 2, t % 4, out, cap)
    }
}

/// Decodes instructions from the front of `r` until the end marker. Gives the
/// output and the number of bytes left after the marker.
pub open spec fn run(r: Seq<u8>, ph: Phase, out: Seq<u8>, cap: nat) -> Result<(Seq<u8>, nat), Error>
    decreases r.len(),
{
    if r.len() == 0 {
        Err(Error::EOFNotFound)
    } else {
        match step(r, ph, out, cap) {
            Step::Fail { err } => Err(err),
            Step::Stop { used, out } => Ok((out, (r.len() - used) as nat)),
            Step::Next { used, phase, out } => if 0 < used <= r.len() {
                run(r.subrange(used as int, r.len() as int), phase, out, cap)
            } else {
                Err(Error::InternalError)
            },
        }
    }
}

/// Strict decoding: the stream must end exactly at its end marker and fill
/// exactly `cap` bytes.
pub open spec fn decode_strict(src: Seq<u8>, cap: nat) -> Result<Seq<u8>, Error> {
    match run(src, Phase::Start, Seq::empty(), cap) {
        Err(e) => Err(e),
        Ok((o, left)) => if left > 0 {
            Err(Error::InputNotConsumed)
        } else if o.len() != cap {
            Err(Error::OutputNotConsumed)
        } else {
            Ok(o)
        },
    }
}

/// Lenient decoding: bytes after the end marker are ignored; the output must
/// still fill exactly `cap` bytes.
pub open spec fn decode_lenient(src: Seq<u8>, cap: nat) -> Result<Seq<u8>, Error> {
    match run(src, Phase::Start, Seq::empty(), cap) {
        Err(e) => Err(e),
        Ok((o, _)) => if o.len() != cap {
            Err(Error::OutputNotConsumed)
        } else {
            Ok(o)
        },
    }
}

/// Whatever the strict decoder accepts, the lenient one accepts with the same
/// output.
pub proof fn lemma_strict_implies_lenient(src: Seq<u8>, cap: nat)
    requires
        decode_strict(src, cap) is Ok,
    ensures
        decode_lenient(src, cap) == decode_strict(src, cap),
{
}

pub proof fn lemma_ext_len_bound(r: Seq<u8>)
    ensures
        ext_len(r) matches Some((k, v)) ==> 1 <= k <= r.len() && v <= 255 * k,
    decreases r.len(),
{
    if r.len() > 0 && r[0] == 0 {
        lemma_ext_len_bound(r.subrange(1, r.len() as int));
    }
}

} // verus!
