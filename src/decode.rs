//! The decoders: one instruction at a time, each proved to do what the format
//! model says.
use vstd::prelude::*;
use crate::error::Error;
use crate::format::{decode_lenient, decode_strict, run, copy_literals, copy_match, do_match, ext_len, far_match, len_field, lemma_ext_len_bound, mid_match, step, Phase, Step};

verus! {

/// `r` and the output `o` are what an executable step gives for the modelled
/// step `s` (a failed step leaves the output unspecified).
pub open spec fn step_holds(s: Step, r: Result<(usize, Option<Phase>), Error>, o: Seq<u8>) -> bool {
    match s {
        Step::Fail { err } => r == Err::<(usize, Option<Phase>), Error>(err),
        Step::Stop { used, out } => r matches Ok((u, None)) && u == used && o == out,
        Step::Next { used, phase, out } => r matches Ok((u, Some(p))) && u == used && p == phase && o == out,
    }
}

pub open spec fn rest_of(src: Seq<u8>, ip: int) -> Seq<u8> {
    src.subrange(ip, src.len() as int)
}

pub proof fn lemma_copy_match_len(out: Seq<u8>, dist: nat, len: nat)
    ensures
        copy_match(out, dist, len).len() == out.len() + len,
    decreases len,
{
    if len > 0 {
        lemma_copy_match_len(out.push(out[out.len() - dist]), dist, (len - 1) as nat);
    }
}

proof fn lemma_lits_sane(r: Seq<u8>, from: nat, n: nat, out: Seq<u8>, cap: nat, next: Phase)
    requires
        0 < from <= r.len(),
        out.len() <= cap,
    ensures
        copy_literals(r, from, n, out, cap, next) matches Step::Next { used, out: o, .. } ==> 0 < used <= r.len() && o.len() <= cap,
        !(copy_literals(r, from, n, out, cap, next) is Stop),
{
}

proof fn lemma_match_sane(r: Seq<u8>, used: nat, dist: nat, len: nat, trail: nat, out: Seq<u8>, cap: nat)
    requires
        0 < used <= r.len(),
        out.len() <= cap,
    ensures
        do_match(r, used, dist, len, trail, out, cap) matches Step::Next { used: u, out: o, .. } ==> 0 < u <= r.len() && o.len() <= cap,
        !(do_match(r, used, dist, len, trail, out, cap) is Stop),
{
    lemma_copy_match_len(out, dist, len);
    if dist <= out.len() && out.len() + len <= cap && trail > 0 {
        lemma_lits_sane(r, used, trail, copy_match(out, dist, len), cap, Phase::Short);
    }
}

/// A step never takes more bytes than remain, always takes at least one, and
/// never writes beyond `cap`.
pub proof fn lemma_step_sane(r: Seq<u8>, ph: Phase, out: Seq<u8>, cap: nat)
    requires
        r.len() > 0,
        out.len() <= cap,
    ensures
        step(r, ph, out, cap) matches Step::Next { used, out: o, .. } ==> 0 < used <= r.len() && o.len() <= cap,
        step(r, ph, out, cap) matches Step::Stop { used, out: o } ==> 0 < used <= r.len() && o == out,
{
    reveal(step);
    lemma_ext_len_bound(r.subrange(1, r.len() as int));
    let t = r[0] as nat;
    if ph == Phase::Start && t > 17 {
        lemma_lits_sane(r, 1, (t - 17) as nat, out, cap, if t - 17 < 4 { Phase::Short } else { Phase::AfterLit });
    } else if t >= 64 {
        if r.len() >= 2 {
            lemma_match_sane(r, 2, 1 + t / 4 % 8 + r[1] as nat * 8, t / 32 + 1, t % 4, out, cap);
        }
    } else if t >= 32 {
        if let Some((hdr, v)) = len_field(r, t, 32) {
            if r.len() >= hdr + 2 {
                let a = r[hdr as int] as nat;
                let b = r[hdr + 1int] as nat;
                lemma_match_sane(r, hdr + 2, 1 + a / 4 + b * 64, v + 2, a % 4, out, cap);
            }
        }
    } else if t >= 16 {
        if let Some((hdr, v)) = len_field(r, t, 8) {
            if r.len() >= hdr + 2 {
                let a = r[hdr as int] as nat;
                let b = r[hdr + 1int] as nat;
                let off = (t / 8 % 2) * 16384 + a / 4 + b * 64;
                lemma_match_sane(r, hdr + 2, off + 16384, v + 2, a % 4, out, cap);
            }
        }
    } else if ph == Phase::Start || ph == Phase::Top {
        if let Some((hdr, v)) = len_field(r, t, 16) {
            lemma_lits_sane(r, hdr, v + 3, out, cap, Phase::AfterLit);
        }
    } else if r.len() >= 2 {
        if ph == Phase::AfterLit {
            lemma_match_sane(r, 2, 2049 + t / 4 + r[1] as nat * 4, 3, t % 4, out, cap);
        } else {
            lemma_match_sane(r, 2, 1 + t / 4 + r[1] as nat * 4, 2, t % 4, out, cap);
        }
    }
}

fn read_ext(src: &[u8], at: usize) -> (r: Option<(usize, u128)>)
    requires
        at <= src.len(),
    ensures
        match ext_len(rest_of(src@, at as int)) {
            None => r is None,
            Some((k, v)) => r matches Some((k2, v2)) && k2 == k && v2 == v,
        },
{
    let mut j: usize = at;
    let mut acc: u128 = 0;
    while j < src.len() && src[j] == 0
        invariant
            at <= j <= src.len(),
            acc == 255 * (j - at),
            j - at <= usize::MAX,
            forall|i: int| at <= i < j ==> src@[i] == 0,
            ext_len(rest_of(src@, at as int)) == match ext_len(rest_of(src@, j as int)) {
                Some((k, v)) => Some(((k + (j - at)) as nat, (v + acc) as nat)),
                None => None,
            },
        decreases src.len() - j,
    {
        proof {
            assert(rest_of(src@, j as int).subrange(1, rest_of(src@, j as int).len() as int) =~= rest_of(src@, j + 1));
        }
        assert(acc + 255 <= 255 * (usize::MAX as u128 + 1)) by (nonlinear_arith)
            requires acc == 255 * (j - at), j - at < usize::MAX;
        acc = acc + 255;
        j = j + 1;
    }
    if j == src.len() {
        None
    } else {
        Some((j - at + 1, acc + src[j] as u128))
    }
}

/// Reads a length field of `bits` values from the opcode `t` at `ip`.
fn read_len_field(src: &[u8], ip: usize, t: usize, bits: usize) -> (r: Option<(usize, u128)>)
    requires
        ip < src.len(),
        t == src@[ip as int],
        bits == 8 || bits == 16 || bits == 32,
    ensures
        match len_field(rest_of(src@, ip as int), t as nat, bits as nat) {
            None => r is None,
            Some((k, v)) => r matches Some((k2, v2)) && k2 == k && v2 == v,
        },
        r matches Some((k, v)) ==> 1 <= k <= src.len() - ip && v <= 255 * (src.len() - ip) + 255,
{
    let ghost rest = rest_of(src@, ip as int);
    proof {
        assert(rest.subrange(1, rest.len() as int) =~= rest_of(src@, ip + 1));
        lemma_ext_len_bound(rest.subrange(1, rest.len() as int));
    }
    if t % bits == 0 {
        match read_ext(src, ip + 1) {
            Some((k, v)) => Some((1 + k, v + (bits - 1) as u128)),
            None => None,
        }
    } else {
        Some((1, (t % bits) as u128))
    }
}

/// Copies `n` literals that start `from` bytes after `ip`.
fn copy_lits(src: &[u8], ip: usize, from: usize, n: u128, out: &mut Vec<u8>, cap: usize, next: Phase)
    -> (r: Result<(usize, Option<Phase>), Error>)
    requires
        ip + from <= src.len(),
        old(out)@.len() <= cap,
    ensures
        step_holds(copy_literals(rest_of(src@, ip as int), from as nat, n as nat, old(out)@, cap as nat, next), r, final(out)@),
{
    if n > (cap - out.len()) as u128 {
        return Err(Error::OutputOverrun);
    }
    if from as u128 + n > (src.len() - ip) as u128 {
        return Err(Error::InputOverrun);
    }
    let ghost start = out@;
    let ghost rest = rest_of(src@, ip as int);
    let n = n as usize;
    let base = ip + from;
    let mut i: usize = 0;
    while i < n
        invariant
            i <= n,
            base + n <= src.len(),
            base == ip + from,
            rest == rest_of(src@, ip as int),
            out@ == start + rest.subrange(from as int, from + i),
        decreases n - i,
    {
        out.push(src[base + i]);
        proof {
            assert(out@ =~= start + rest.subrange(from as int, from + i + 1));
        }
        i = i + 1;
    }
    Ok((from + n, Some(next)))
}

/// Appends `len` bytes copied from `dist` bytes back, one at a time, so that an
/// overlapping source repeats what was just written.
fn copy_back(out: &mut Vec<u8>, dist: usize, len: usize)
    requires
        1 <= dist <= old(out)@.len(),
    ensures
        final(out)@ == copy_match(old(out)@, dist as nat, len as nat),
{
    let mut i: usize = 0;
    while i < len
        invariant
            i <= len,
            1 <= dist <= out@.len(),
            copy_match(out@, dist as nat, (len - i) as nat) == copy_match(old(out)@, dist as nat, len as nat),
        decreases len - i,
    {
        let b = out[out.len() - dist];
        out.push(b);
        i = i + 1;
    }
}

fn match_exec(src: &[u8], ip: usize, used: usize, dist: usize, len: u128, trail: usize, out: &mut Vec<u8>, cap: usize)
    -> (r: Result<(usize, Option<Phase>), Error>)
    requires
        ip + used <= src.len(),
        dist >= 1,
        old(out)@.len() <= cap,
    ensures
        step_holds(do_match(rest_of(src@, ip as int), used as nat, dist as nat, len as nat, trail as nat, old(out)@, cap as nat), r, final(out)@),
{
    if dist > out.len() {
        return Err(Error::LookbehindOverrun);
    }
    if len > (cap - out.len()) as u128 {
        return Err(Error::OutputOverrun);
    }
    copy_back(out, dist, len as usize);
    proof {
        lemma_copy_match_len(old(out)@, dist as nat, len as nat);
    }
    if trail == 0 {
        Ok((used, Some(Phase::Top)))
    } else {
        copy_lits(src, ip, used, trail as u128, out, cap, Phase::Short)
    }
}

fn mid_match_exec(src: &[u8], ip: usize, hdr: usize, len: u128, out: &mut Vec<u8>, cap: usize)
    -> (r: Result<(usize, Option<Phase>), Error>)
    requires
        ip + hdr <= src.len(),
        old(out)@.len() <= cap,
    ensures
        step_holds(mid_match(rest_of(src@, ip as int), hdr as nat, len as nat, old(out)@, cap as nat), r, final(out)@),
{
    if src.len() - ip - hdr < 2 {
        return Err(Error::InputOverrun);
    }
    let a = src[ip + hdr] as usize;
    let b = src[ip + hdr + 1] as usize;
    match_exec(src, ip, hdr + 2, 1 + a / 4 + b * 64, len, a % 4, out, cap)
}

fn far_match_exec(src: &[u8], ip: usize, t: usize, hdr: usize, len: u128, out: &mut Vec<u8>, cap: usize)
    -> (r: Result<(usize, Option<Phase>), Error>)
    requires
        ip + hdr <= src.len(),
        old(out)@.len() <= cap,
        t < 256,
    ensures
        step_holds(far_match(rest_of(src@, ip as int), t as nat, hdr as nat, len as nat, old(out)@, cap as nat), r, final(out)@),
{
    if src.len() - ip - hdr < 2 {
        return Err(Error::InputOverrun);
    }
    let a = src[ip + hdr] as usize;
    let b = src[ip + hdr + 1] as usize;
    let off = (t / 8 % 2) * 16384 + a / 4 + b * 64;
    if off == 0 {
        Ok((hdr + 2, None))
    } else {
        match_exec(src, ip, hdr + 2, off + 16384, len, a % 4, out, cap)
    }
}

/// Decodes the instruction at `ip`.
fn step_exec(src: &[u8], ip: usize, ph: Phase, out: &mut Vec<u8>, cap: usize) -> (r: Result<(usize, Option<Phase>), Error>)
    requires
        ip < src.len(),
        old(out)@.len() <= cap,
    ensures
        step_holds(step(rest_of(src@, ip as int), ph, old(out)@, cap as nat), r, final(out)@),
{
    reveal(step);
    let t = src[ip] as usize;
    if ph == Phase::Start && t > 17 {
        let n = t - 17;
        copy_lits(src, ip, 1, n as u128, out, cap, if n < 4 { Phase::Short } else { Phase::AfterLit })
    } else if t >= 64 {
        if src.len() - ip < 2 {
            return Err(Error::InputOverrun);
        }
        let b = src[ip + 1] as usize;
        match_exec(src, ip, 2, 1 + t / 4 % 8 + b * 8, (t / 32 + 1) as u128, t % 4, out, cap)
    } else if t >= 32 {
        match read_len_field(src, ip, t, 32) {
            Some((hdr, v)) => mid_match_exec(src, ip, hdr, v + 2, out, cap),
            None => Err(Error::InputOverrun),
        }
    } else if t >= 16 {
        match read_len_field(src, ip, t, 8) {
            Some((hdr, v)) => far_match_exec(src, ip, t, hdr, v + 2, out, cap),
            None => Err(Error::InputOverrun),
        }
    } else if ph == Phase::Start || ph == Phase::Top {
        match read_len_field(src, ip, t, 16) {
            Some((hdr, v)) => copy_lits(src, ip, hdr, v + 3, out, cap, Phase::AfterLit),
            None => Err(Error::InputOverrun),
        }
    } else if src.len() - ip < 2 {
        Err(Error::InputOverrun)
    } else if ph == Phase::AfterLit {
        let b = src[ip + 1] as usize;
        match_exec(src, ip, 2, 2049 + t / 4 + b * 4, 3, t % 4, out, cap)
    } else {
        let b = src[ip + 1] as usize;
        match_exec(src, ip, 2, 1 + t / 4 + b * 4, 2, t % 4, out, cap)
    }
}

} // verus!

verus! {

/// Runs the decoder over the whole of `src` from its first byte. Gives the
/// output and the number of bytes after the end marker.
fn run_exec(src: &[u8], cap: usize) -> (r: Result<(Vec<u8>, usize), Error>)
    ensures
        match run(src@, Phase::Start, Seq::empty(), cap as nat) {
            Ok((o, left)) => r matches Ok((v, l)) && v@ == o && l == left,
            Err(e) => r matches Err(e2) && e2 == e,
        },
{
    let mut ip: usize = 0;
    let mut ph = Phase::Start;
    let mut out: Vec<u8> = Vec::new();
    proof {
        assert(rest_of(src@, 0) =~= src@);
    }
    loop
        invariant
            ip <= src.len(),
            out@.len() <= cap,
            run(src@, Phase::Start, Seq::empty(), cap as nat) == run(rest_of(src@, ip as int), ph, out@, cap as nat),
        decreases src.len() - ip,
    {
        if ip == src.len() {
            return Err(Error::EOFNotFound);
        }
        let ghost rest = rest_of(src@, ip as int);
        let ghost before = out@;
        proof {
            lemma_step_sane(rest, ph, before, cap as nat);
        }
        match step_exec(src, ip, ph, &mut out, cap) {
            Err(e) => {
                return Err(e);
            },
            Ok((used, None)) => {
                return Ok((out, src.len() - ip - used));
            },
            Ok((used, Some(p))) => {
                proof {
                    assert(rest.subrange(used as int, rest.len() as int) =~= rest_of(src@, ip + used));
                }
                ip = ip + used;
                ph = p;
            },
        }
    }
}

/// `r` is the executable form of the modelled result `s`.
pub open spec fn bytes_result(r: Result<Vec<u8>, Error>, s: Result<Seq<u8>, Error>) -> bool {
    match s {
        Ok(o) => r matches Ok(v) && v@ == o,
        Err(e) => r matches Err(e2) && e2 == e,
    }
}

/// Decodes `src` into exactly `dst_len` bytes, checking every read and write,
/// and rejecting bytes after the end marker.
pub fn decompress_strict(src: &[u8], dst_len: usize) -> (r: Result<Vec<u8>, Error>)
    ensures
        bytes_result(r, decode_strict(src@, dst_len as nat)),
{
    match run_exec(src, dst_len) {
        Err(e) => Err(e),
        Ok((v, left)) => if left > 0 {
            Err(Error::InputNotConsumed)
        } else if v.len() != dst_len {
            Err(Error::OutputNotConsumed)
        } else {
            Ok(v)
        },
    }
}

/// Decodes `src` into exactly `dst_len` bytes, ignoring any bytes after the
/// end marker.
pub fn decompress_lenient(src: &[u8], dst_len: usize) -> (r: Result<Vec<u8>, Error>)
    ensures
        bytes_result(r, decode_lenient(src@, dst_len as nat)),
{
    match run_exec(src, dst_len) {
        Err(e) => Err(e),
        Ok((v, _)) => if v.len() != dst_len {
            Err(Error::OutputNotConsumed)
        } else {
            Ok(v)
        },
    }
}

} // verus!
