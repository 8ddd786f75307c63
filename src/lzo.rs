//! The codec instance: a greedy LZO1X compressor with its scratch table, and
//! the two decoders.
use vstd::prelude::*;
use crate::decode::{bytes_result, decompress_lenient, decompress_strict};
use crate::encode::{
    end_marker, first_bytes, first_phase, lemma_copy_match_src, lemma_end_run, lemma_first_moves, lemma_first_size,
    lemma_moves_chain, lemma_moves_empty, lemma_unit_moves, match_ok, match_unit, moves, push_first, push_unit,
    unit_phase, MAX_DIST,
};
use crate::error::Error;
use crate::format::{decode_lenient, decode_strict, Phase};

verus! {

/// Buckets in the compressor's scratch table.
pub const DICT_SIZE: usize = 16384;

/// The largest output `compress` may give for `n` input bytes.
pub open spec fn worst_case(n: nat) -> nat {
    n + n / 16 + 64 + 3
}

/// The integer sizes that the format's arithmetic relies on.
pub open spec fn platform_ok() -> bool {
    &&& vstd::layout::size_of::<u8>() == 1
    &&& vstd::layout::size_of::<u16>() == 2
    &&& vstd::layout::size_of::<u32>() == 4
    &&& vstd::layout::size_of::<usize>() >= 4
}

/// Bytes `p..p + l` of `s` repeat the bytes `d` before them.
pub open spec fn repeats(s: Seq<u8>, p: nat, d: nat, l: nat) -> bool {
    forall|j: int| p <= j < p + l ==> #[trigger] s[j] == s[j - d]
}

/// The bucket of the three bytes at `ip`.
pub open spec fn hash_spec(s: Seq<u8>, ip: int) -> int {
    (s[ip] as int * 65536 + s[ip + 1] as int * 256 + s[ip + 2] as int) * 40503 / 64 % 16384
}

/// How far the match at `ip`, distance `d`, extends from length `l` on.
pub open spec fn match_len(s: Seq<u8>, ip: int, d: int, l: int) -> int
    decreases s.len() - ip - l,
{
    if ip + l < s.len() && 0 <= ip + l - d && s[ip + l - d] == s[ip + l] {
        match_len(s, ip, d, l + 1)
    } else {
        l
    }
}

/// The bytes written for what is pending before `upto`.
pub open spec fn flush_bytes(s: Seq<u8>, has_pend: bool, pd: nat, pl: nat, lit: int, upto: int) -> Seq<u8> {
    if !has_pend {
        if upto > 0 {
            first_bytes(s.subrange(0, upto))
        } else {
            Seq::empty()
        }
    } else {
        match_unit(pd, pl, s.subrange(lit, upto))
    }
}

/// The compressor between two positions of its scan.
pub struct Scan {
    pub ip: usize,
    pub lit: usize,
    pub has_pend: bool,
    pub pm: usize,
    pub pd: usize,
    pub pl: usize,
    pub out: Seq<u8>,
    pub table: Seq<usize>,
}

/// One position of the scan: look the position up, record it, and either take
/// the match found there or move on by one byte.
pub open spec fn scan_step(s: Seq<u8>, st: Scan) -> Scan {
    let ip = st.ip as int;
    let h = hash_spec(s, ip);
    let cand = st.table[h] as int;
    let table = st.table.update(h, st.ip);
    let d = ip - cand;
    let found = cand < ip && d <= MAX_DIST && s[cand] == s[ip] && s[cand + 1] == s[ip + 1] && s[cand + 2] == s[ip + 2];
    let l = match_len(s, ip, d, 3);
    if found && (l >= 4 || d <= 2048) {
        Scan {
            ip: (ip + l) as usize,
            lit: (ip + l) as usize,
            has_pend: true,
            pm: st.ip,
            pd: d as usize,
            pl: l as usize,
            out: st.out + flush_bytes(s, st.has_pend, st.pd as nat, st.pl as nat, st.lit as int, ip),
            table,
        }
    } else {
        Scan { ip: (ip + 1) as usize, table, ..st }
    }
}

/// The scan from `st` on, while three bytes remain.
pub open spec fn scan(s: Seq<u8>, st: Scan) -> Scan
    decreases s.len() - st.ip,
{
    if st.ip + 3 <= s.len() && st.ip < scan_step(s, st).ip <= s.len() {
        scan(s, scan_step(s, st))
    } else {
        st
    }
}

/// What `compress` gives for `s`: the scan from an empty table, what is left
/// pending, and the end marker. It depends on `s` alone.
pub open spec fn compressed(s: Seq<u8>) -> Seq<u8> {
    let st = scan(s, Scan {
        ip: 0, lit: 0, has_pend: false, pm: 0, pd: 0, pl: 0, out: Seq::empty(),
        table: Seq::new(DICT_SIZE as nat, |i: int| 0usize),
    });
    st.out + flush_bytes(s, st.has_pend, st.pd as nat, st.pl as nat, st.lit as int, s.len() as int) + end_marker()
}

/// Compression is deterministic: equal buffers compress to identical bytes,
/// whatever instance does the work and whatever it compressed before.
pub proof fn lemma_compress_deterministic(a: Seq<u8>, b: Seq<u8>)
    requires
        a == b,
    ensures
        compressed(a) == compressed(b),
{
}

/// A compressor instance: it owns the scratch table of recent positions, one
/// per hash bucket, that the match finder consults.
pub struct LZO {
    wrkmem: Vec<usize>,
}

impl LZO {
    pub closed spec fn wf(&self) -> bool {
        self.wrkmem@.len() == DICT_SIZE
    }

    fn lzo_init() -> (r: Result<(), Error>)
        ensures
            r is Ok <==> platform_ok(),
            r is Err ==> r == Err::<(), Error>(Error::Error),
    {
        if core::mem::size_of::<u8>() == 1 && core::mem::size_of::<u16>() == 2 && core::mem::size_of::<u32>() == 4
            && core::mem::size_of::<usize>() >= 4 {
            Ok(())
        } else {
            Err(Error::Error)
        }
    }

    /// Makes an instance, after checking the integer sizes the format relies on.
    pub fn init() -> (r: Result<LZO, Error>)
        ensures
            r is Ok <==> platform_ok(),
            r matches Ok(z) ==> z.wf(),
            r is Err ==> (r matches Err(e) && e == Error::Error),
    {
        match Self::lzo_init() {
            Ok(_) => {
                let mut wrkmem: Vec<usize> = Vec::new();
                let mut i: usize = 0;
                while i < DICT_SIZE
                    invariant
                        i <= DICT_SIZE,
                        wrkmem@.len() == i,
                    decreases DICT_SIZE - i,
                {
                    wrkmem.push(0);
                    i = i + 1;
                }
                Ok(LZO { wrkmem })
            },
            Err(e) => Err(e),
        }
    }

    /// Compresses `src` in one greedy pass: at each position the match finder
    /// looks up the last position with the same three-byte hash; a match is
    /// taken when it is short and near, or four bytes or more within the window,
    /// and the bytes between matches go out as literals.
    pub fn compress(&mut self, src: &[u8]) -> (r: Result<Vec<u8>, Error>)
        requires
            old(self).wf(),
        ensures
            final(self).wf(),
            r matches Ok(v) && decode_strict(v@, src@.len()) == Ok::<Seq<u8>, Error>(src@)
                && v@.len() <= worst_case(src@.len()) && v@ == compressed(src@),
    {
        let len = src.len();
        let ghost cap = len as nat;
        let mut i: usize = 0;
        while i < DICT_SIZE
            invariant
                self.wf(),
                i <= DICT_SIZE,
                forall|j: int| 0 <= j < i ==> self.wrkmem@[j] == 0,
            decreases DICT_SIZE - i,
        {
            self.wrkmem.set(i, 0);
            i = i + 1;
        }
        let mut out: Vec<u8> = Vec::new();
        let mut ip: usize = 0;
        let mut lit: usize = 0;
        let mut has_pend = false;
        let mut pm: usize = 0;
        let mut pd: usize = 0;
        let mut pl: usize = 0;
        let mut ph = Phase::Start;
        let ghost init = Scan {
            ip: 0, lit: 0, has_pend: false, pm: 0, pd: 0, pl: 0, out: Seq::empty(),
            table: Seq::new(DICT_SIZE as nat, |i: int| 0usize),
        };
        proof {
            lemma_moves_empty(Phase::Start, Seq::empty(), cap);
            assert(src@.subrange(0, 0) =~= Seq::<u8>::empty());
            assert(self.wrkmem@ =~= init.table);
        }
        while len - ip >= 3
            invariant
                len == src.len(),
                cap == len,
                self.wf(),
                lit <= ip <= len,
                !has_pend ==> lit == 0 && ph == Phase::Start && out@.len() == 0,
                has_pend ==> pm + pl == lit && match_ok(pd as nat, pl as nat) && pd <= pm && ph != Phase::Start
                    && repeats(src@, pm as nat, pd as nat, pl as nat),
                moves(out@, Phase::Start, Seq::empty(), ph, src@.subrange(0, if has_pend { pm as int } else { 0 }), cap),
                16 * out@.len() <= 17 * (if has_pend { pm as int } else { 0 }) + 16,
                scan(src@, init) == scan(src@, Scan { ip, lit, has_pend, pm, pd, pl, out: out@, table: self.wrkmem@ }),
            decreases len - ip,
        {
            let ghost st = Scan { ip, lit, has_pend, pm, pd, pl, out: out@, table: self.wrkmem@ };
            let h = hash3(src, ip);
            let cand = self.wrkmem[h];
            self.wrkmem.set(h, ip);
            let mut taken = false;
            if cand < ip && ip - cand <= MAX_DIST && src[cand] == src[ip] && src[cand + 1] == src[ip + 1]
                && src[cand + 2] == src[ip + 2] {
                let d = ip - cand;
                let mut l: usize = 3;
                while ip + l < len && src[ip + l - d] == src[ip + l]
                    invariant
                        3 <= l,
                        ip + l <= len,
                        len == src.len(),
                        1 <= d <= ip,
                        forall|j: int| ip <= j < ip + l ==> #[trigger] src@[j] == src@[j - d],
                        match_len(src@, ip as int, d as int, l as int) == match_len(src@, ip as int, d as int, 3),
                    decreases len - ip - l,
                {
                    l = l + 1;
                }
                if l >= 4 || d <= 2048 {
                    ph = flush(&mut out, src, has_pend, pm, pd, pl, lit, ip, ph);
                    has_pend = true;
                    pm = ip;
                    pd = d;
                    pl = l;
                    ip = ip + l;
                    lit = ip;
                    taken = true;
                }
            }
            if !taken {
                ip = ip + 1;
            }
            proof {
                let next = Scan { ip, lit, has_pend, pm, pd, pl, out: out@, table: self.wrkmem@ };
                assert(scan_step(src@, st) == next);
                assert(scan(src@, st) == scan(src@, next));
            }
        }
        let ghost last = Scan { ip, lit, has_pend, pm, pd, pl, out: out@, table: self.wrkmem@ };
        assert(scan(src@, last) == last);
        ph = flush(&mut out, src, has_pend, pm, pd, pl, lit, len, ph);
        let ghost body = out@;
        out.push(17);
        out.push(0);
        out.push(0);
        proof {
            assert(out@ =~= body + end_marker());
            assert(out@ =~= compressed(src@));
            assert(src@.subrange(0, len as int) =~= src@);
            lemma_end_run(ph, src@, cap);
            assert(body.len() + 3 <= worst_case(cap)) by (nonlinear_arith)
                requires
                    16 * body.len() <= 17 * cap + 16,
            ;
        }
        Ok(out)
    }

    /// Decodes `src` into `dst_len` bytes, ignoring anything after the end marker.
    pub fn decompress(&self, src: &[u8], dst_len: usize) -> (r: Result<Vec<u8>, Error>)
        ensures
            bytes_result(r, decode_lenient(src@, dst_len as nat)),
    {
        decompress_lenient(src, dst_len)
    }

    /// Decodes `src` into `dst_len` bytes, checking every read and write; the
    /// stream must end exactly at its end marker.
    pub fn decompress_safe(&self, src: &[u8], dst_len: usize) -> (r: Result<Vec<u8>, Error>)
        ensures
            bytes_result(r, decode_strict(src@, dst_len as nat)),
    {
        decompress_strict(src, dst_len)
    }
}

/// The bucket of the three bytes at `ip`.
fn hash3(src: &[u8], ip: usize) -> (h: usize)
    requires
        ip + 3 <= src.len(),
    ensures
        h < DICT_SIZE,
        h == hash_spec(src@, ip as int),
{
    let v: u64 = (src[ip] as u64) * 65536 + (src[ip + 1] as u64) * 256 + src[ip + 2] as u64;
    assert(v * 40503 < 0x100_0000_0000) by (nonlinear_arith)
        requires v < 0x100_0000;
    (v * 40503 / 64 % 16384) as usize
}

/// Writes what is pending before position `upto`: the opening literal run, or
/// the pending match at `pm` (distance `pd`, length `pl`) and the literals
/// from `lit` on.
fn flush(out: &mut Vec<u8>, src: &[u8], has_pend: bool, pm: usize, pd: usize, pl: usize, lit: usize, upto: usize, ph: Phase)
    -> (ph2: Phase)
    requires
        lit <= upto <= src.len(),
        !has_pend ==> lit == 0 && ph == Phase::Start && old(out)@.len() == 0,
        has_pend ==> pm + pl == lit && match_ok(pd as nat, pl as nat) && pd <= pm && ph != Phase::Start
            && repeats(src@, pm as nat, pd as nat, pl as nat),
        moves(old(out)@, Phase::Start, Seq::empty(), ph, src@.subrange(0, if has_pend { pm as int } else { 0 }), src.len() as nat),
        16 * old(out)@.len() <= 17 * (if has_pend { pm as int } else { 0 }) + 16,
    ensures
        moves(final(out)@, Phase::Start, Seq::empty(), ph2, src@.subrange(0, upto as int), src.len() as nat),
        16 * final(out)@.len() <= 17 * upto + 16,
        ph2 != Phase::Start || upto == 0,
        final(out)@ == old(out)@ + flush_bytes(src@, has_pend, pd as nat, pl as nat, lit as int, upto as int),
{
    let ghost cap = src.len() as nat;
    let ghost e = Seq::<u8>::empty();
    if !has_pend {
        if upto > 0 {
            push_first(out, src, upto);
            let ghost l = src@.subrange(0, upto as int);
            proof {
                lemma_first_moves(l, e, cap);
                lemma_first_size(l, e, cap);
                assert(e + first_bytes(l) =~= first_bytes(l));
                assert(e + l =~= l);
            }
            if upto < 4 {
                Phase::Short
            } else {
                Phase::AfterLit
            }
        } else {
            proof {
                assert(src@.subrange(0, 0) =~= e);
                assert(out@ =~= old(out)@ + flush_bytes(src@, has_pend, pd as nat, pl as nat, lit as int, upto as int));
            }
            ph
        }
    } else {
        let ghost before = out@;
        let ghost x = src@.subrange(0, pm as int);
        let ghost lits = src@.subrange(lit as int, upto as int);
        push_unit(out, src, pd, pl, lit, upto);
        proof {
            lemma_unit_moves(pd as nat, pl as nat, lits, ph, x, cap);
            lemma_copy_match_src(src@, pm as nat, pd as nat, pl as nat);
            assert(src@.subrange(0, lit as int) + lits =~= src@.subrange(0, upto as int));
            lemma_moves_chain(before, match_unit(pd as nat, pl as nat, lits), Phase::Start, e, ph, x,
                unit_phase(lits.len()), src@.subrange(0, upto as int), cap);
        }
        let n = upto - lit;
        if n == 0 {
            Phase::Top
        } else if n <= 3 {
            Phase::Short
        } else {
            Phase::AfterLit
        }
    }
}

} // verus!
