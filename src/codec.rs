//! The portable serialized form of a bitmap.
//!
//! Layout, little-endian throughout. Without run containers: the cookie
//! 12346 (32 bits), the container count (32 bits), then per container its
//! key and member count minus one (16 bits each), then per container the
//! byte offset of its payload (32 bits), then the payloads. With run
//! containers: the cookie 12347 with the container count minus one in its
//! high 16 bits, a bitset of one bit per container telling which are runs,
//! the key/count pairs, the offsets only from four containers on, then the
//! payloads. A payload is the ascending low parts (16 bits each), the 1,024
//! words of the dense vector (64 bits each), or the number of runs followed
//! by each run's start and length minus one (16 bits each).
use vstd::prelude::*;
use crate::chunks::{Chunk, chunks_seq, chunks_wf, lemma_chunks_count, lemma_chunks_unique};
use crate::container::{ARRAY_MAX, BITMAP_BYTES, chosen_encoding, Container};
use crate::bits::{count_bits, BitStore, WORDS};
use crate::runs::{Interval, lemma_runs_unique, run_count, runs_seq, runs_wf};
use crate::order::ascending16;

verus! {

/// Cookie of the form without run containers.
pub const COOKIE_NO_RUNS: u32 = 12346;

/// Cookie of the form with run containers (low 16 bits).
pub const COOKIE_RUNS: u32 = 12347;

/// From this many containers on, the form with runs carries offsets.
pub const OFFSETS_FROM: usize = 4;

/// A 16-bit value, low byte first.
pub open spec fn le16(x: u16) -> Seq<u8> {
    seq![(x % 256) as u8, (x / 256) as u8]
}

/// A 32-bit value, low half first.
pub open spec fn le32(x: u32) -> Seq<u8> {
    le16((x % 65536) as u16) + le16((x / 65536) as u16)
}

/// A 64-bit value, low half first.
pub open spec fn le64(x: u64) -> Seq<u8> {
    le32((x % 0x1_0000_0000) as u32) + le32((x / 0x1_0000_0000) as u32)
}

/// 16-bit values one after another.
pub open spec fn le16s(s: Seq<u16>) -> Seq<u8>
    decreases s.len(),
{
    if s.len() == 0 {
        Seq::empty()
    } else {
        le16s(s.drop_last()) + le16(s.last())
    }
}

/// 64-bit values one after another.
pub open spec fn le64s(s: Seq<u64>) -> Seq<u8>
    decreases s.len(),
{
    if s.len() == 0 {
        Seq::empty()
    } else {
        le64s(s.drop_last()) + le64(s.last())
    }
}

/// Each interval as its start and its length minus one.
pub open spec fn intervals_bytes(r: Seq<Interval>) -> Seq<u8>
    decreases r.len(),
{
    if r.len() == 0 {
        Seq::empty()
    } else {
        intervals_bytes(r.drop_last()) + le16(r.last().start) + le16(
            (r.last().end - r.last().start) as u16,
        )
    }
}

/// The payload of one container.
pub open spec fn payload(c: Container) -> Seq<u8> {
    match c {
        Container::Array(v) => le16s(v@),
        Container::Bitmap(b) => le64s(b.words@),
        Container::Run(r) => le16(r@.len() as u16) + intervals_bytes(r@),
    }
}

/// The payloads of a chunk list, in order.
pub open spec fn payloads(cs: Seq<Chunk>) -> Seq<u8>
    decreases cs.len(),
{
    if cs.len() == 0 {
        Seq::empty()
    } else {
        payloads(cs.drop_last()) + payload(cs.last().container)
    }
}

/// The key and member count minus one of each chunk.
pub open spec fn descriptors(cs: Seq<Chunk>) -> Seq<u8>
    decreases cs.len(),
{
    if cs.len() == 0 {
        Seq::empty()
    } else {
        descriptors(cs.drop_last()) + le16(cs.last().key) + le16(
            (cs.last().container@.len() - 1) as u16,
        )
    }
}

/// Where each payload starts, the first at `start`.
pub open spec fn offsets(cs: Seq<Chunk>, start: int) -> Seq<u8>
    decreases cs.len(),
{
    if cs.len() == 0 {
        Seq::empty()
    } else {
        offsets(cs.drop_last(), start) + le32((start + payloads(cs.drop_last()).len()) as u32)
    }
}

/// Some container is a run list.
pub open spec fn has_runs(cs: Seq<Chunk>) -> bool {
    exists|k: int| 0 <= k < cs.len() && (#[trigger] cs[k]).container is Run
}

/// The first `i` bits of byte `b` of the run bitset: bit `j` is set when
/// container `8 * b + j` exists and is a run list.
pub open spec fn flag_byte(cs: Seq<Chunk>, b: int, i: int) -> u8
    decreases i,
{
    if i <= 0 {
        0u8
    } else if 8 * b + i - 1 < cs.len() && cs[8 * b + i - 1].container is Run {
        flag_byte(cs, b, i - 1) | (1u8 << ((i - 1) as u8))
    } else {
        flag_byte(cs, b, i - 1)
    }
}

/// The run bitset: bit `k % 8` of byte `k / 8` is set when container `k`
/// is a run list.
pub open spec fn run_flags(cs: Seq<Chunk>) -> Seq<u8> {
    Seq::new(((cs.len() + 7) / 8) as nat, |b: int| flag_byte(cs, b, 8))
}

/// Bytes before the first payload.
pub open spec fn header_len(cs: Seq<Chunk>) -> int {
    let n = cs.len() as int;
    if !has_runs(cs) {
        8 + 8 * n
    } else if n < OFFSETS_FROM {
        4 + (n + 7) / 8 + 4 * n
    } else {
        4 + (n + 7) / 8 + 8 * n
    }
}

/// The serialized form of a chunk list.
#[verifier::opaque]
pub open spec fn encode(cs: Seq<Chunk>) -> Seq<u8> {
    let n = cs.len() as int;
    if !has_runs(cs) {
        le32(COOKIE_NO_RUNS) + le32(n as u32) + descriptors(cs) + offsets(cs, header_len(cs))
            + payloads(cs)
    } else if n < OFFSETS_FROM {
        le32((COOKIE_RUNS + 65536 * (n - 1)) as u32) + run_flags(cs) + descriptors(cs) + payloads(
            cs,
        )
    } else {
        le32((COOKIE_RUNS + 65536 * (n - 1)) as u32) + run_flags(cs) + descriptors(cs) + offsets(
            cs,
            header_len(cs),
        ) + payloads(cs)
    }
}

/// Appends `x`, low byte first.
pub fn put16(out: &mut Vec<u8>, x: u16)
    ensures
        final(out)@ == old(out)@ + le16(x),
{
    out.push((x % 256) as u8);
    out.push((x / 256) as u8);
    assert(final(out)@ =~= old(out)@ + le16(x));
}

/// Appends `x`, low half first.
pub fn put32(out: &mut Vec<u8>, x: u32)
    ensures
        final(out)@ == old(out)@ + le32(x),
{
    let ghost start = out@;
    put16(out, (x % 65536) as u16);
    put16(out, (x / 65536) as u16);
    assert(out@ =~= start + le32(x));
}

/// Appends `x`, low half first.
pub fn put64(out: &mut Vec<u8>, x: u64)
    ensures
        final(out)@ == old(out)@ + le64(x),
{
    let ghost start = out@;
    put32(out, (x % 0x1_0000_0000) as u32);
    put32(out, (x / 0x1_0000_0000) as u32);
    assert(out@ =~= start + le64(x));
}

/// Appends the payload of `c`.
pub fn put_payload(out: &mut Vec<u8>, c: &Container)
    requires
        c.wf(),
    ensures
        final(out)@ == old(out)@ + payload(*c),
{
    let ghost start = out@;
    match c {
        Container::Array(v) => {
            let mut i: usize = 0;
            assert(v@.subrange(0, 0) =~= Seq::<u16>::empty());
            while i < v.len()
                invariant
                    i <= v@.len(),
                    out@ == start + le16s(v@.subrange(0, i as int)),
                decreases v@.len() - i,
            {
                put16(out, v[i]);
                assert(v@.subrange(0, i + 1).drop_last() =~= v@.subrange(0, i as int));
                assert(out@ =~= start + le16s(v@.subrange(0, i + 1)));
                i = i + 1;
            }
            assert(v@.subrange(0, i as int) =~= v@);
        },
        Container::Bitmap(b) => {
            let mut i: usize = 0;
            assert(b.words@.subrange(0, 0) =~= Seq::<u64>::empty());
            while i < b.words.len()
                invariant
                    i <= b.words@.len(),
                    out@ == start + le64s(b.words@.subrange(0, i as int)),
                decreases b.words@.len() - i,
            {
                put64(out, b.words[i]);
                assert(b.words@.subrange(0, i + 1).drop_last() =~= b.words@.subrange(0, i as int));
                assert(out@ =~= start + le64s(b.words@.subrange(0, i + 1)));
                i = i + 1;
            }
            assert(b.words@.subrange(0, i as int) =~= b.words@);
        },
        Container::Run(r) => {
            put16(out, r.len() as u16);
            let ghost head = out@;
            let mut i: usize = 0;
            assert(r@.subrange(0, 0) =~= Seq::<Interval>::empty());
            while i < r.len()
                invariant
                    c.wf(),
                    *c == Container::Run(*r),
                    i <= r@.len(),
                    out@ == head + intervals_bytes(r@.subrange(0, i as int)),
                decreases r@.len() - i,
            {
                let iv = r[i];
                put16(out, iv.start);
                put16(out, iv.end - iv.start);
                assert(r@.subrange(0, i + 1).drop_last() =~= r@.subrange(0, i as int));
                assert(out@ =~= head + intervals_bytes(r@.subrange(0, i + 1)));
                i = i + 1;
            }
            assert(r@.subrange(0, i as int) =~= r@);
            assert(out@ =~= start + payload(*c));
        },
    }
}

/// Two bytes per 16-bit value.
pub proof fn lemma_le16s_len(s: Seq<u16>)
    ensures
        le16s(s).len() == 2 * s.len(),
    decreases s.len(),
{
    if s.len() > 0 {
        lemma_le16s_len(s.drop_last());
    }
}

/// Eight bytes per 64-bit value.
pub proof fn lemma_le64s_len(s: Seq<u64>)
    ensures
        le64s(s).len() == 8 * s.len(),
    decreases s.len(),
{
    if s.len() > 0 {
        lemma_le64s_len(s.drop_last());
    }
}

/// Four bytes per interval.
pub proof fn lemma_intervals_len(r: Seq<Interval>)
    ensures
        intervals_bytes(r).len() == 4 * r.len(),
    decreases r.len(),
{
    if r.len() > 0 {
        lemma_intervals_len(r.drop_last());
    }
}

/// Four bytes per chunk in the key/count table.
pub proof fn lemma_descriptors_len(cs: Seq<Chunk>)
    ensures
        descriptors(cs).len() == 4 * cs.len(),
    decreases cs.len(),
{
    if cs.len() > 0 {
        lemma_descriptors_len(cs.drop_last());
    }
}

/// Four bytes per chunk in the offset table.
pub proof fn lemma_offsets_len(cs: Seq<Chunk>, start: int)
    ensures
        offsets(cs, start).len() == 4 * cs.len(),
    decreases cs.len(),
{
    if cs.len() > 0 {
        lemma_offsets_len(cs.drop_last(), start);
    }
}

/// The size of one payload.
pub open spec fn payload_len(c: Container) -> int {
    match c {
        Container::Array(v) => 2 * v@.len() as int,
        Container::Bitmap(_) => BITMAP_BYTES as int,
        Container::Run(r) => 2 + 4 * r@.len() as int,
    }
}

/// A payload has `payload_len` bytes, at most 8,192.
pub proof fn lemma_payload_len(c: Container)
    requires
        c.wf(),
    ensures
        payload(c).len() == payload_len(c),
        payload_len(c) <= BITMAP_BYTES,
{
    match c {
        Container::Array(v) => lemma_le16s_len(v@),
        Container::Bitmap(b) => lemma_le64s_len(b.words@),
        Container::Run(r) => lemma_intervals_len(r@),
    }
}

/// The payloads of well-formed containers take at most 8,192 bytes each.
pub proof fn lemma_payloads_len(cs: Seq<Chunk>)
    requires
        forall|i: int| 0 <= i < cs.len() ==> (#[trigger] cs[i]).container.wf(),
    ensures
        payloads(cs).len() <= BITMAP_BYTES * cs.len(),
    decreases cs.len(),
{
    if cs.len() > 0 {
        let p = cs.drop_last();
        assert forall|i: int| 0 <= i < p.len() implies (#[trigger] p[i]).container.wf() by {
            assert(p[i] == cs[i]);
        }
        lemma_payloads_len(p);
        assert(cs.last() == cs[cs.len() - 1]);
        lemma_payload_len(cs.last().container);
    }
}

/// The payloads of one more chunk.
pub proof fn lemma_payloads_push(cs: Seq<Chunk>, c: Chunk)
    ensures
        payloads(cs.push(c)) == payloads(cs) + payload(c.container),
        descriptors(cs.push(c)) == descriptors(cs) + le16(c.key) + le16(
            (c.container@.len() - 1) as u16,
        ),
        forall|start: int|
            #[trigger] offsets(cs.push(c), start) == offsets(cs, start) + le32(
                (start + payloads(cs).len()) as u32,
            ),
{
    assert(cs.push(c).drop_last() =~= cs);
}

proof fn lemma_byte_set(x: u8, c: u8, j: u8)
    requires
        c < 8,
        j < 8,
    ensures
        ((x | (1u8 << c)) >> j) & 1u8 == 1u8 <==> ((x >> j) & 1u8 == 1u8 || j == c),
{
    assert(((x | (1u8 << c)) >> j) & 1u8 == 1u8 <==> ((x >> j) & 1u8 == 1u8 || j == c))
        by (bit_vector)
        requires
            c < 8,
            j < 8,
    ;
}

/// Bit `j` of a flag byte tells whether container `8 * b + j` is a run list.
pub proof fn lemma_flag_bit(cs: Seq<Chunk>, b: int, i: int, j: u8)
    requires
        0 <= i <= 8,
        j < 8,
    ensures
        (flag_byte(cs, b, i) >> j) & 1u8 == 1u8 <==> (j < i && 8 * b + j < cs.len()
            && cs[8 * b + j].container is Run),
    decreases i,
{
    if i <= 0 {
        assert((0u8 >> j) & 1u8 != 1u8) by (bit_vector);
    } else {
        lemma_flag_bit(cs, b, i - 1, j);
        if 8 * b + i - 1 < cs.len() && cs[8 * b + i - 1].container is Run {
            lemma_byte_set(flag_byte(cs, b, i - 1), (i - 1) as u8, j);
        }
    }
}

/// The size of the payload of `c`.
pub fn payload_size(c: &Container) -> (n: u32)
    requires
        c.wf(),
    ensures
        n == payload_len(*c),
        n == payload(*c).len(),
        n <= BITMAP_BYTES,
{
    proof {
        lemma_payload_len(*c);
    }
    match c {
        Container::Array(v) => 2 * v.len() as u32,
        Container::Bitmap(_) => BITMAP_BYTES as u32,
        Container::Run(r) => 2 + 4 * r.len() as u32,
    }
}

/// Appends the run bitset of `cs`.
pub fn put_run_flags(out: &mut Vec<u8>, cs: &Vec<Chunk>)
    ensures
        final(out)@ == old(out)@ + run_flags(cs@),
{
    let ghost start = out@;
    let n = cs.len();
    let nbytes = n / 8 + if n % 8 == 0 { 0 } else { 1 };
    assert(nbytes == (n + 7) / 8);
    let mut b: usize = 0;
    while b < nbytes
        invariant
            nbytes == (cs@.len() + 7) / 8,
            n == cs@.len(),
            b <= nbytes,
            out@ == start + run_flags(cs@).subrange(0, b as int),
        decreases nbytes - b,
    {
        let mut byte: u8 = 0;
        let mut i: usize = 0;
        while i < 8
            invariant
                i <= 8,
                n == cs@.len(),
                b < nbytes,
                nbytes == (cs@.len() + 7) / 8,
                byte == flag_byte(cs@, b as int, i as int),
            decreases 8 - i,
        {
            let k = 8 * b + i;
            if k < n {
                match cs[k].container {
                    Container::Run(_) => {
                        byte = byte | (1u8 << (i as u8));
                    },
                    _ => {},
                }
            }
            i = i + 1;
        }
        out.push(byte);
        assert(out@ =~= start + run_flags(cs@).subrange(0, b + 1));
        b = b + 1;
    }
    assert(run_flags(cs@).subrange(0, b as int) =~= run_flags(cs@));
}

/// The serialized form is the header followed by the payloads.
pub proof fn lemma_encode_len(cs: Seq<Chunk>)
    ensures
        encode(cs).len() == header_len(cs) + payloads(cs).len(),
{
    reveal(encode);
    lemma_descriptors_len(cs);
    lemma_offsets_len(cs, header_len(cs));
    assert(run_flags(cs).len() == (cs.len() + 7) / 8);
}

/// Why bytes are not a serialized bitmap.
#[derive(Clone, Copy, Debug, PartialEq, Eq, Structural)]
pub enum FormatError {
    /// The bytes end before the layout says they should.
    Truncated,
    /// The first four bytes are neither cookie.
    BadCookie,
    /// The container count, or the keys, are out of range or out of order.
    BadHeader,
    /// A container's payload is not a well-formed container.
    BadContainer,
    /// The bytes decode, but are not exactly the serialized form of what
    /// they decode to (a count, an offset, a flag or trailing bytes differ).
    Inconsistent,
}

/// The 16-bit value at `p`, low byte first.
pub fn get16(bytes: &Vec<u8>, p: usize) -> (x: u16)
    requires
        p + 2 <= bytes@.len(),
    ensures
        le16(x) == bytes@.subrange(p as int, p + 2),
{
    let _n = bytes.len();
    let lo = bytes[p] as u16;
    let hi = bytes[p + 1] as u16;
    let x = lo + 256 * hi;
    assert(x % 256 == lo && x / 256 == hi) by (nonlinear_arith)
        requires
            x == lo + 256 * hi,
            lo < 256,
    ;
    assert(le16(x) =~= bytes@.subrange(p as int, p + 2));
    x
}

/// The 32-bit value at `p`, low half first.
pub fn get32(bytes: &Vec<u8>, p: usize) -> (x: u32)
    requires
        p + 4 <= bytes@.len(),
    ensures
        le32(x) == bytes@.subrange(p as int, p + 4),
{
    let _n = bytes.len();
    let lo = get16(bytes, p);
    let hi = get16(bytes, p + 2);
    let x = lo as u32 + 65536 * (hi as u32);
    assert(x % 65536 == lo && x / 65536 == hi) by (nonlinear_arith)
        requires
            x == lo + 65536 * hi,
            lo < 65536,
    ;
    assert(le32(x) =~= bytes@.subrange(p as int, p + 4));
    x
}

/// The 64-bit value at `p`, low half first.
pub fn get64(bytes: &Vec<u8>, p: usize) -> (x: u64)
    requires
        p + 8 <= bytes@.len(),
    ensures
        le64(x) == bytes@.subrange(p as int, p + 8),
{
    let _n = bytes.len();
    let lo = get32(bytes, p);
    let hi = get32(bytes, p + 4);
    let x = lo as u64 + 0x1_0000_0000 * (hi as u64);
    assert(x % 0x1_0000_0000 == lo && x / 0x1_0000_0000 == hi) by (nonlinear_arith)
        requires
            x == lo + 0x1_0000_0000 * hi,
            lo < 0x1_0000_0000,
    ;
    assert(le64(x) =~= bytes@.subrange(p as int, p + 8));
    x
}

/// `s` is an ascending array of `n` values whose payload lies at `pos`.
pub open spec fn array_at(bytes: Seq<u8>, pos: int, n: int, s: Seq<u16>) -> bool {
    &&& ascending16(s)
    &&& s.len() == n
    &&& pos + 2 * n <= bytes.len()
    &&& bytes.subrange(pos, pos + 2 * n) == le16s(s)
}

/// `w` is a dense vector whose payload lies at `pos`.
pub open spec fn dense_at(bytes: Seq<u8>, pos: int, w: Seq<u64>) -> bool {
    &&& w.len() == WORDS
    &&& pos + BITMAP_BYTES <= bytes.len()
    &&& bytes.subrange(pos, pos + BITMAP_BYTES) == le64s(w)
}

/// `r` is a well-formed run list whose payload lies at `pos`.
pub open spec fn runs_at(bytes: Seq<u8>, pos: int, r: Seq<Interval>) -> bool {
    &&& runs_wf(r)
    &&& 1 <= r.len()
    &&& 4 + 4 * r.len() < BITMAP_BYTES
    &&& pos + 2 + 4 * r.len() <= bytes.len()
    &&& bytes.subrange(pos, pos + 2 + 4 * r.len()) == le16(r.len() as u16) + intervals_bytes(r)
}

/// `c`, a well-formed container of `card` members (a run list exactly
/// when `is_run`), has its payload at `pos`.
pub open spec fn container_at(bytes: Seq<u8>, pos: int, card: int, is_run: bool, c: Container) -> bool {
    &&& c.wf()
    &&& c@.len() == card
    &&& (c is Run) == is_run
    &&& pos + payload(c).len() <= bytes.len()
    &&& bytes.subrange(pos, pos + payload(c).len()) == payload(c)
}

/// Two containers have the same encoding and the same contents.
pub open spec fn same_rep(a: Container, b: Container) -> bool {
    match (a, b) {
        (Container::Array(x), Container::Array(y)) => x@ == y@,
        (Container::Bitmap(x), Container::Bitmap(y)) => x.words@ == y.words@ && x.count == y.count,
        (Container::Run(x), Container::Run(y)) => x@ == y@,
        _ => false,
    }
}

/// Containers of the same encoding and contents agree on every spec.
pub proof fn lemma_same_rep(a: Container, b: Container)
    requires
        same_rep(a, b),
    ensures
        a@ == b@,
        a.wf() == b.wf(),
        payload(a) == payload(b),
        a.encoding() == b.encoding(),
        (a is Run) == (b is Run),
{
}

/// Reads `n` ascending 16-bit values at `pos`.
fn read_array(bytes: &Vec<u8>, pos: usize, n: usize) -> (r: Option<Vec<u16>>)
    requires
        pos + 2 * n <= bytes@.len(),
        n <= ARRAY_MAX,
    ensures
        r matches Some(v) ==> ascending16(v@) && v@.len() == n,
        forall|s: Seq<u16>| #[trigger]
            array_at(bytes@, pos as int, n as int, s) ==> (r matches Some(v) && v@ == s),
{
    let len = bytes.len();
    let mut v: Vec<u16> = Vec::new();
    let mut p = pos;
    let mut i: usize = 0;
    while i < n
        invariant
            len == bytes@.len(),
            i <= n <= ARRAY_MAX,
            pos + 2 * n <= bytes@.len(),
            p == pos + 2 * i,
            v@.len() == i,
            ascending16(v@),
            forall|s: Seq<u16>| #[trigger]
                array_at(bytes@, pos as int, n as int, s) ==> v@ == s.subrange(0, i as int),
        decreases n - i,
    {
        let x = get16(bytes, p);
        proof {
            assert forall|s: Seq<u16>| #[trigger] array_at(bytes@, pos as int, n as int, s) implies s[i as int]
                == x by {
                lemma_le16s_at(s, i as int);
                assert(bytes@.subrange(p as int, p + 2) =~= le16s(s).subrange(2 * i, 2 * i + 2));
                lemma_le16_inj(x, s[i as int]);
            }
        }
        if i > 0 && v[i - 1] >= x {
            proof {
                assert forall|s: Seq<u16>| #[trigger] array_at(bytes@, pos as int, n as int, s) implies false by {
                    assert(v@[i - 1] == s.subrange(0, i as int)[i - 1]);
                    assert(s[i - 1] < s[i as int]);
                }
            }
            return None;
        }
        let ghost before = v@;
        v.push(x);
        proof {
            assert forall|s: Seq<u16>| #[trigger] array_at(bytes@, pos as int, n as int, s) implies v@
                == s.subrange(0, i + 1) by {
                assert(v@ =~= s.subrange(0, i + 1));
            }
        }
        p = p + 2;
        i = i + 1;
    }
    proof {
        assert forall|s: Seq<u16>| #[trigger] array_at(bytes@, pos as int, n as int, s) implies v@ == s by {
            assert(s.subrange(0, i as int) =~= s);
        }
    }
    Some(v)
}

/// Reads the 1,024 words of a dense vector at `pos`.
fn read_dense(bytes: &Vec<u8>, pos: usize) -> (w: Vec<u64>)
    requires
        pos + BITMAP_BYTES <= bytes@.len(),
    ensures
        w@.len() == WORDS,
        forall|s: Seq<u64>| #[trigger] dense_at(bytes@, pos as int, s) ==> w@ == s,
{
    let len = bytes.len();
    let mut words: Vec<u64> = Vec::new();
    let mut p = pos;
    let mut i: usize = 0;
    while i < WORDS
        invariant
            len == bytes@.len(),
            i <= WORDS,
            pos + BITMAP_BYTES <= bytes@.len(),
            p == pos + 8 * i,
            words@.len() == i,
            forall|s: Seq<u64>| #[trigger]
                dense_at(bytes@, pos as int, s) ==> words@ == s.subrange(0, i as int),
        decreases WORDS - i,
    {
        let x = get64(bytes, p);
        proof {
            assert forall|s: Seq<u64>| #[trigger] dense_at(bytes@, pos as int, s) implies s[i as int] == x by {
                lemma_le64s_at(s, i as int);
                assert(bytes@.subrange(p as int, p + 8) =~= le64s(s).subrange(8 * i, 8 * i + 8));
                lemma_le64_inj(x, s[i as int]);
            }
        }
        words.push(x);
        proof {
            assert forall|s: Seq<u64>| #[trigger] dense_at(bytes@, pos as int, s) implies words@
                == s.subrange(0, i + 1) by {
                assert(words@ =~= s.subrange(0, i + 1));
            }
        }
        p = p + 8;
        i = i + 1;
    }
    proof {
        assert forall|s: Seq<u64>| #[trigger] dense_at(bytes@, pos as int, s) implies words@ == s by {
            assert(s.subrange(0, i as int) =~= s);
        }
    }
    words
}

/// Reads a run list at `pos`: its run count, then each run's start and
/// length minus one.
fn read_runs(bytes: &Vec<u8>, pos: usize) -> (r: Option<Vec<Interval>>)
    requires
        pos <= bytes@.len(),
    ensures
        r matches Some(x) ==> runs_wf(x@) && 1 <= x@.len() && 4 + 4 * x@.len() < BITMAP_BYTES
            && pos + 2 + 4 * x@.len() <= bytes@.len(),
        forall|s: Seq<Interval>| #[trigger] runs_at(bytes@, pos as int, s) ==> (r matches Some(x) && x@ == s),
{
    let len = bytes.len();
    if len - pos < 2 {
        return None;
    }
    let nr16 = get16(bytes, pos);
    let nr = nr16 as usize;
    proof {
        assert forall|s: Seq<Interval>| #[trigger] runs_at(bytes@, pos as int, s) implies s.len() == nr by {
            assert(bytes@.subrange(pos as int, pos + 2) =~= bytes@.subrange(
                pos as int,
                pos + 2 + 4 * s.len(),
            ).subrange(0, 2));
            assert((le16(s.len() as u16) + intervals_bytes(s)).subrange(0, 2) =~= le16(s.len() as u16));
            lemma_le16_inj(nr16, s.len() as u16);
        }
    }
    if nr == 0 || 4 + 4 * nr >= BITMAP_BYTES || (len - pos - 2) / 4 < nr {
        return None;
    }
    let mut runs: Vec<Interval> = Vec::new();
    let mut p = pos + 2;
    let mut i: usize = 0;
    while i < nr
        invariant
            i <= nr,
            1 <= nr,
            4 + 4 * nr < BITMAP_BYTES,
            len == bytes@.len(),
            pos + 2 + 4 * nr <= len,
            p == pos + 2 + 4 * i,
            runs@.len() == i,
            runs_wf(runs@),
            forall|s: Seq<Interval>| #[trigger]
                runs_at(bytes@, pos as int, s) ==> s.len() == nr && runs@ == s.subrange(0, i as int),
        decreases nr - i,
    {
        let start = get16(bytes, p);
        let span = get16(bytes, p + 2);
        proof {
            assert forall|s: Seq<Interval>| #[trigger] runs_at(bytes@, pos as int, s) implies s[i as int].start
                == start && s[i as int].end - s[i as int].start == span by {
                lemma_intervals_at(s, i as int);
                let whole = bytes@.subrange(pos as int, pos + 2 + 4 * s.len());
                assert(whole == le16(s.len() as u16) + intervals_bytes(s));
                assert(bytes@.subrange(p as int, p + 2) =~= intervals_bytes(s).subrange(
                    4 * i,
                    4 * i + 2,
                )) by {
                    assert(bytes@.subrange(p as int, p + 2) =~= whole.subrange(2 + 4 * i, 4 + 4 * i));
                }
                assert(bytes@.subrange(p + 2, p + 4) =~= intervals_bytes(s).subrange(
                    4 * i + 2,
                    4 * i + 4,
                )) by {
                    assert(bytes@.subrange(p + 2, p + 4) =~= whole.subrange(4 + 4 * i, 6 + 4 * i));
                }
                lemma_le16_inj(start, s[i as int].start);
                lemma_le16_inj(span, (s[i as int].end - s[i as int].start) as u16);
            }
        }
        if span > 65535 - start {
            proof {
                assert forall|s: Seq<Interval>| #[trigger] runs_at(bytes@, pos as int, s) implies false by {
                    assert(s[i as int].start <= s[i as int].end);
                }
            }
            return None;
        }
        if i > 0 && runs[i - 1].end >= start || i > 0 && start - runs[i - 1].end < 2 {
            proof {
                assert forall|s: Seq<Interval>| #[trigger] runs_at(bytes@, pos as int, s) implies false by {
                    assert(runs@[i - 1] == s.subrange(0, i as int)[i - 1]);
                    assert(s[i - 1].end + 1 < s[i as int].start);
                }
            }
            return None;
        }
        let iv = Interval { start, end: start + span };
        proof {
            if i > 0 {
                assert forall|k: int| 0 <= k < i implies runs@[k].end + 1 < iv.start by {
                    if k < i - 1 {
                        assert(runs@[k].end + 1 < runs@[i - 1].start);
                    }
                }
            }
        }
        runs.push(iv);
        proof {
            assert forall|s: Seq<Interval>| #[trigger] runs_at(bytes@, pos as int, s) implies runs@
                == s.subrange(0, i + 1) by {
                assert(s[i as int] == iv);
                assert(runs@ =~= s.subrange(0, i + 1));
            }
        }
        p = p + 4;
        i = i + 1;
    }
    proof {
        assert forall|s: Seq<Interval>| #[trigger] runs_at(bytes@, pos as int, s) implies runs@ == s by {
            assert(s.subrange(0, i as int) =~= s);
        }
    }
    Some(runs)
}

/// Decodes the payload at `pos` of a container with `card` members (a run
/// list when `is_run`), giving the container and where its payload ends.
/// When some container has exactly this payload, that container comes back.
pub fn read_container(bytes: &Vec<u8>, pos: usize, card: u32, is_run: bool) -> (r: Option<
    (Container, usize),
>)
    requires
        1 <= card <= 65536,
        pos <= bytes@.len(),
    ensures
        r matches Some((c, q)) ==> c.wf() && c@.len() > 0 && pos <= q <= bytes@.len(),
        forall|c: Container| #[trigger]
            container_at(bytes@, pos as int, card as int, is_run, c) ==> (r matches Some((d, q))
                && same_rep(d, c) && q == pos + payload(c).len()),
{
    let len = bytes.len();
    if is_run {
        let got = read_runs(bytes, pos);
        proof {
            assert forall|c: Container| #[trigger]
                container_at(bytes@, pos as int, card as int, is_run, c) implies runs_at(
                bytes@,
                pos as int,
                c->Run_0@,
            ) by {
                let x = c->Run_0;
                lemma_intervals_len(x@);
                if x@.len() == 0 {
                    assert(runs_seq(x@) =~= Seq::<u16>::empty());
                }
            }
        }
        match got {
            Some(runs) => {
                let q = pos + 2 + 4 * runs.len();
                proof {
                    crate::runs::lemma_runs_first(runs@);
                    assert forall|c: Container| #[trigger]
                        container_at(bytes@, pos as int, card as int, is_run, c) implies q == pos
                        + payload(c).len() by {
                        lemma_intervals_len(c->Run_0@);
                    }
                }
                Some((Container::Run(runs), q))
            },
            None => None,
        }
    } else if card as usize <= ARRAY_MAX {
        let n = card as usize;
        if (len - pos) / 2 < n {
            proof {
                assert forall|c: Container| #[trigger]
                    container_at(bytes@, pos as int, card as int, is_run, c) implies false by {
                    lemma_le16s_len(c->Array_0@);
                }
            }
            return None;
        }
        let got = read_array(bytes, pos, n);
        proof {
            assert forall|c: Container| #[trigger]
                container_at(bytes@, pos as int, card as int, is_run, c) implies array_at(
                bytes@,
                pos as int,
                n as int,
                c->Array_0@,
            ) by {
                lemma_le16s_len(c->Array_0@);
            }
        }
        match got {
            Some(v) => {
                proof {
                    assert forall|c: Container| #[trigger]
                        container_at(bytes@, pos as int, card as int, is_run, c) implies pos + 2 * n
                        == pos + payload(c).len() by {
                        lemma_le16s_len(c->Array_0@);
                    }
                }
                Some((Container::Array(v), pos + 2 * n))
            },
            None => None,
        }
    } else {
        if len - pos < BITMAP_BYTES {
            proof {
                assert forall|c: Container| #[trigger]
                    container_at(bytes@, pos as int, card as int, is_run, c) implies false by {
                    lemma_le64s_len(c->Bitmap_0.words@);
                }
            }
            return None;
        }
        let words = read_dense(bytes, pos);
        let count = count_bits(&words);
        proof {
            assert forall|c: Container| #[trigger]
                container_at(bytes@, pos as int, card as int, is_run, c) implies c->Bitmap_0.words@
                == words@ && c->Bitmap_0.count == count && pos + BITMAP_BYTES == pos + payload(
                c,
            ).len() by {
                lemma_le64s_len(c->Bitmap_0.words@);
                assert(dense_at(bytes@, pos as int, c->Bitmap_0.words@));
            }
        }
        if count as usize <= ARRAY_MAX {
            return None;
        }
        Some((Container::Bitmap(BitStore { words, count }), pos + BITMAP_BYTES))
    }
}

/// Whether two byte strings are equal.
pub fn same_bytes(a: &Vec<u8>, b: &Vec<u8>) -> (r: bool)
    ensures
        r == (a@ == b@),
{
    if a.len() != b.len() {
        return false;
    }
    let mut i: usize = 0;
    while i < a.len()
        invariant
            a@.len() == b@.len(),
            i <= a@.len(),
            forall|k: int| 0 <= k < i ==> a@[k] == b@[k],
        decreases a@.len() - i,
    {
        if a[i] != b[i] {
            return false;
        }
        i = i + 1;
    }
    assert(a@ =~= b@);
    true
}

/// The bytes of a 16-bit value determine it.
pub proof fn lemma_le16_inj(x: u16, y: u16)
    requires
        le16(x) == le16(y),
    ensures
        x == y,
{
    assert(le16(x)[0] == le16(y)[0]);
    assert(le16(x)[1] == le16(y)[1]);
    assert(x == x % 256 + 256 * (x / 256)) by (nonlinear_arith);
    assert(y == y % 256 + 256 * (y / 256)) by (nonlinear_arith);
}

/// The bytes of a 32-bit value determine it.
pub proof fn lemma_le32_inj(x: u32, y: u32)
    requires
        le32(x) == le32(y),
    ensures
        x == y,
{
    assert(le32(x).subrange(0, 2) =~= le16((x % 65536) as u16));
    assert(le32(y).subrange(0, 2) =~= le16((y % 65536) as u16));
    assert(le32(x).subrange(2, 4) =~= le16((x / 65536) as u16));
    assert(le32(y).subrange(2, 4) =~= le16((y / 65536) as u16));
    lemma_le16_inj((x % 65536) as u16, (y % 65536) as u16);
    lemma_le16_inj((x / 65536) as u16, (y / 65536) as u16);
    assert(x == x % 65536 + 65536 * (x / 65536)) by (nonlinear_arith);
    assert(y == y % 65536 + 65536 * (y / 65536)) by (nonlinear_arith);
}

/// The bytes of a 64-bit value determine it.
pub proof fn lemma_le64_inj(x: u64, y: u64)
    requires
        le64(x) == le64(y),
    ensures
        x == y,
{
    let m = 0x1_0000_0000u64;
    assert(le64(x).subrange(0, 4) =~= le32((x % m) as u32));
    assert(le64(y).subrange(0, 4) =~= le32((y % m) as u32));
    assert(le64(x).subrange(4, 8) =~= le32((x / m) as u32));
    assert(le64(y).subrange(4, 8) =~= le32((y / m) as u32));
    lemma_le32_inj((x % m) as u32, (y % m) as u32);
    lemma_le32_inj((x / m) as u32, (y / m) as u32);
    assert(x == x % 0x1_0000_0000 + 0x1_0000_0000 * (x / 0x1_0000_0000)) by (nonlinear_arith);
    assert(y == y % 0x1_0000_0000 + 0x1_0000_0000 * (y / 0x1_0000_0000)) by (nonlinear_arith);
}

/// Value `i` of a 16-bit sequence sits at bytes `2 * i` and on.
pub proof fn lemma_le16s_at(s: Seq<u16>, i: int)
    requires
        0 <= i < s.len(),
    ensures
        le16s(s).len() == 2 * s.len(),
        le16s(s).subrange(2 * i, 2 * i + 2) == le16(s[i]),
    decreases s.len(),
{
    lemma_le16s_len(s);
    let p = s.drop_last();
    lemma_le16s_len(p);
    if i < s.len() - 1 {
        lemma_le16s_at(p, i);
        assert(le16s(s).subrange(2 * i, 2 * i + 2) =~= le16s(p).subrange(2 * i, 2 * i + 2));
    } else {
        assert(le16s(s).subrange(2 * i, 2 * i + 2) =~= le16(s[i]));
    }
}

/// Word `i` of a 64-bit sequence sits at bytes `8 * i` and on.
pub proof fn lemma_le64s_at(s: Seq<u64>, i: int)
    requires
        0 <= i < s.len(),
    ensures
        le64s(s).len() == 8 * s.len(),
        le64s(s).subrange(8 * i, 8 * i + 8) == le64(s[i]),
    decreases s.len(),
{
    lemma_le64s_len(s);
    let p = s.drop_last();
    lemma_le64s_len(p);
    if i < s.len() - 1 {
        lemma_le64s_at(p, i);
        assert(le64s(s).subrange(8 * i, 8 * i + 8) =~= le64s(p).subrange(8 * i, 8 * i + 8));
    } else {
        assert(le64s(s).subrange(8 * i, 8 * i + 8) =~= le64(s[i]));
    }
}

/// Interval `i` sits at bytes `4 * i` and on: its start, then its length
/// minus one.
pub proof fn lemma_intervals_at(r: Seq<Interval>, i: int)
    requires
        0 <= i < r.len(),
    ensures
        intervals_bytes(r).len() == 4 * r.len(),
        intervals_bytes(r).subrange(4 * i, 4 * i + 2) == le16(r[i].start),
        intervals_bytes(r).subrange(4 * i + 2, 4 * i + 4) == le16((r[i].end - r[i].start) as u16),
    decreases r.len(),
{
    lemma_intervals_len(r);
    let p = r.drop_last();
    lemma_intervals_len(p);
    let b = intervals_bytes(r);
    if i < r.len() - 1 {
        lemma_intervals_at(p, i);
        assert(b.subrange(4 * i, 4 * i + 2) =~= intervals_bytes(p).subrange(4 * i, 4 * i + 2));
        assert(b.subrange(4 * i + 2, 4 * i + 4) =~= intervals_bytes(p).subrange(
            4 * i + 2,
            4 * i + 4,
        ));
    } else {
        assert(b.subrange(4 * i, 4 * i + 2) =~= le16(r[i].start));
        assert(b.subrange(4 * i + 2, 4 * i + 4) =~= le16((r[i].end - r[i].start) as u16));
    }
}

/// Chunk `k`'s key and count minus one sit at bytes `4 * k` and on.
pub proof fn lemma_descriptors_at(cs: Seq<Chunk>, k: int)
    requires
        0 <= k < cs.len(),
    ensures
        descriptors(cs).len() == 4 * cs.len(),
        descriptors(cs).subrange(4 * k, 4 * k + 2) == le16(cs[k].key),
        descriptors(cs).subrange(4 * k + 2, 4 * k + 4) == le16(
            (cs[k].container@.len() - 1) as u16,
        ),
    decreases cs.len(),
{
    lemma_descriptors_len(cs);
    let p = cs.drop_last();
    lemma_descriptors_len(p);
    let b = descriptors(cs);
    if k < cs.len() - 1 {
        lemma_descriptors_at(p, k);
        assert(b.subrange(4 * k, 4 * k + 2) =~= descriptors(p).subrange(4 * k, 4 * k + 2));
        assert(b.subrange(4 * k + 2, 4 * k + 4) =~= descriptors(p).subrange(4 * k + 2, 4 * k + 4));
    } else {
        assert(b.subrange(4 * k, 4 * k + 2) =~= le16(cs[k].key));
        assert(b.subrange(4 * k + 2, 4 * k + 4) =~= le16((cs[k].container@.len() - 1) as u16));
    }
}

/// The payloads of a prefix of the list begin the payloads of the list.
pub proof fn lemma_payloads_prefix(cs: Seq<Chunk>, k: int)
    requires
        0 <= k <= cs.len(),
    ensures
        payloads(cs.subrange(0, k)).len() <= payloads(cs).len(),
        payloads(cs).subrange(0, payloads(cs.subrange(0, k)).len() as int) == payloads(
            cs.subrange(0, k),
        ),
    decreases cs.len(),
{
    if k == cs.len() {
        assert(cs.subrange(0, k) =~= cs);
        assert(payloads(cs).subrange(0, payloads(cs).len() as int) =~= payloads(cs));
    } else {
        let p = cs.drop_last();
        lemma_payloads_prefix(p, k);
        assert(p.subrange(0, k) =~= cs.subrange(0, k));
        let q = payloads(cs.subrange(0, k));
        assert(payloads(cs).subrange(0, q.len() as int) =~= payloads(p).subrange(0, q.len() as int));
    }
}

/// Chunk `k`'s payload follows the payloads of the chunks before it.
pub proof fn lemma_payloads_at(cs: Seq<Chunk>, k: int)
    requires
        0 <= k < cs.len(),
    ensures
        ({
            let at = payloads(cs.subrange(0, k)).len() as int;
            let c = payload(cs[k].container);
            &&& at + c.len() <= payloads(cs).len()
            &&& payloads(cs).subrange(at, at + c.len()) == c
        }),
{
    lemma_payloads_prefix(cs, k + 1);
    let s = cs.subrange(0, k + 1);
    assert(s.drop_last() =~= cs.subrange(0, k));
    let at = payloads(cs.subrange(0, k)).len() as int;
    let c = payload(cs[k].container);
    assert(payloads(cs).subrange(at, at + c.len()) =~= payloads(s).subrange(at, at + c.len()));
}

/// Two chunk lists with the same keys and container representations.
pub open spec fn same_reps(x: Seq<Chunk>, y: Seq<Chunk>) -> bool {
    &&& x.len() == y.len()
    &&& forall|i: int|
        0 <= i < x.len() ==> (#[trigger] x[i]).key == y[i].key && same_rep(x[i].container, y[i].container)
}

proof fn lemma_same_reps_drop_last(x: Seq<Chunk>, y: Seq<Chunk>)
    requires
        same_reps(x, y),
        x.len() > 0,
    ensures
        same_reps(x.drop_last(), y.drop_last()),
        x.last().key == y.last().key,
        same_rep(x.last().container, y.last().container),
{
    assert(x.last() == x[x.len() - 1]);
    assert forall|i: int| 0 <= i < x.drop_last().len() implies (#[trigger] x.drop_last()[i]).key
        == y.drop_last()[i].key && same_rep(x.drop_last()[i].container, y.drop_last()[i].container) by {
        assert(x.drop_last()[i] == x[i]);
    }
}

proof fn lemma_same_reps_parts(x: Seq<Chunk>, y: Seq<Chunk>, h: int)
    requires
        same_reps(x, y),
    ensures
        descriptors(x) == descriptors(y),
        payloads(x) == payloads(y),
        offsets(x, h) == offsets(y, h),
    decreases x.len(),
{
    if x.len() > 0 {
        lemma_same_reps_drop_last(x, y);
        lemma_same_reps_parts(x.drop_last(), y.drop_last(), h);
        lemma_same_rep(x.last().container, y.last().container);
    }
}

proof fn lemma_same_reps_flags(x: Seq<Chunk>, y: Seq<Chunk>, b: int, i: int)
    requires
        same_reps(x, y),
        0 <= b,
    ensures
        flag_byte(x, b, i) == flag_byte(y, b, i),
    decreases i,
{
    if i > 0 {
        lemma_same_reps_flags(x, y, b, i - 1);
        if 8 * b + i - 1 < x.len() {
            lemma_same_rep(x[8 * b + i - 1].container, y[8 * b + i - 1].container);
        }
    }
}

/// Chunk lists with the same keys and representations serialize alike.
pub proof fn lemma_same_reps_encode(x: Seq<Chunk>, y: Seq<Chunk>)
    requires
        same_reps(x, y),
    ensures
        encode(x) == encode(y),
{
    reveal(encode);
    lemma_same_reps_parts(x, y, header_len(x));
    assert(has_runs(x) == has_runs(y)) by {
        if has_runs(x) {
            let k = choose|k: int| 0 <= k < x.len() && (#[trigger] x[k]).container is Run;
            lemma_same_rep(x[k].container, y[k].container);
        }
        if has_runs(y) {
            let k = choose|k: int| 0 <= k < y.len() && (#[trigger] y[k]).container is Run;
            lemma_same_rep(x[k].container, y[k].container);
        }
    }
    assert(run_flags(x) =~= run_flags(y)) by {
        assert forall|b: int| 0 <= b < run_flags(x).len() implies run_flags(x)[b] == run_flags(y)[b] by {
            lemma_same_reps_flags(x, y, b, 8);
        }
    }
}

/// `bytes` is the serialized form of the well-formed chunk list `t`.
pub open spec fn encodes(bytes: Seq<u8>, t: Seq<Chunk>) -> bool {
    chunks_wf(t) && encode(t) == bytes
}

/// Where the key/count table starts.
pub open spec fn desc_start(t: Seq<Chunk>) -> int {
    if !has_runs(t) {
        8
    } else {
        4 + (t.len() as int + 7) / 8
    }
}

/// What comes before the key/count table.
pub open spec fn preamble(t: Seq<Chunk>) -> Seq<u8> {
    let n = t.len() as int;
    if !has_runs(t) {
        le32(COOKIE_NO_RUNS) + le32(n as u32)
    } else {
        le32((COOKIE_RUNS + 65536 * (n - 1)) as u32) + run_flags(t)
    }
}

/// What comes between the key/count table and the payloads.
pub open spec fn offset_table(t: Seq<Chunk>) -> Seq<u8> {
    if !has_runs(t) || t.len() >= OFFSETS_FROM {
        offsets(t, header_len(t))
    } else {
        Seq::empty()
    }
}

/// Chunk `k`'s key and count minus one lie in the key/count table.
pub open spec fn descriptor_at(bytes: Seq<u8>, t: Seq<Chunk>, k: int) -> bool {
    let at = desc_start(t) + 4 * k;
    &&& bytes.subrange(at, at + 2) == le16(t[k].key)
    &&& bytes.subrange(at + 2, at + 4) == le16((t[k].container@.len() - 1) as u16)
}

/// Where each field of a serialized chunk list lies.
pub proof fn lemma_encoded_layout(bytes: Seq<u8>, t: Seq<Chunk>)
    requires
        encodes(bytes, t),
    ensures
        t.len() <= 65536,
        bytes == preamble(t) + descriptors(t) + offset_table(t) + payloads(t),
        preamble(t).len() == desc_start(t),
        desc_start(t) + 4 * t.len() + offset_table(t).len() == header_len(t),
        bytes.len() == header_len(t) + payloads(t).len(),
        bytes.subrange(0, 4) == preamble(t).subrange(0, 4),
        has_runs(t) ==> t.len() >= 1,
        forall|k: int| 0 <= k < t.len() ==> #[trigger] descriptor_at(bytes, t, k),
{
    reveal(encode);
    lemma_chunks_count(t);
    lemma_descriptors_len(t);
    lemma_offsets_len(t, header_len(t));
    lemma_encode_len(t);
    if has_runs(t) {
        let k = choose|k: int| 0 <= k < t.len() && (#[trigger] t[k]).container is Run;
    }
    let pre = preamble(t);
    let d = descriptors(t);
    let o = offset_table(t);
    let p = payloads(t);
    assert(bytes =~= pre + d + o + p);
    assert(bytes.subrange(0, 4) =~= pre.subrange(0, 4));
    assert(pre.len() == desc_start(t));
    assert(d.len() == 4 * t.len());
    assert forall|k: int| 0 <= k < t.len() implies #[trigger] descriptor_at(bytes, t, k) by {
        lemma_descriptors_at(t, k);
        let at = desc_start(t) + 4 * k;
        assert(bytes.subrange(at, at + 2) =~= d.subrange(4 * k, 4 * k + 2));
        assert(bytes.subrange(at + 2, at + 4) =~= d.subrange(4 * k + 2, 4 * k + 4));
        assert(d.subrange(4 * k + 2, 4 * k + 4) == le16((t[k].container@.len() - 1) as u16));
    }
}

/// Chunk `k`'s payload in a serialized chunk list.
pub proof fn lemma_encoded_payload(bytes: Seq<u8>, t: Seq<Chunk>, k: int)
    requires
        encodes(bytes, t),
        0 <= k < t.len(),
    ensures
        ({
            let at = header_len(t) + payloads(t.subrange(0, k)).len();
            let c = payload(t[k].container);
            &&& at + c.len() <= bytes.len()
            &&& bytes.subrange(at, at + c.len()) == c
        }),
{
    lemma_encoded_layout(bytes, t);
    lemma_payloads_at(t, k);
    let at = payloads(t.subrange(0, k)).len() as int;
    let c = payload(t[k].container);
    let h = header_len(t);
    assert(bytes.subrange(h + at, h + at + c.len()) =~= payloads(t).subrange(at, at + c.len()));
}

/// The cookie, the count and the sizes of a serialized chunk list.
proof fn lemma_encoded_header(bytes: Seq<u8>, t: Seq<Chunk>)
    requires
        encodes(bytes, t),
    ensures
        t.len() <= 65536,
        has_runs(t) ==> t.len() >= 1,
        bytes.len() >= header_len(t),
        desc_start(t) + 4 * t.len() <= header_len(t),
        !has_runs(t) ==> bytes.subrange(0, 4) == le32(COOKIE_NO_RUNS) && bytes.subrange(4, 8) == le32(
            t.len() as u32,
        ),
        has_runs(t) ==> bytes.subrange(0, 4) == le32((COOKIE_RUNS + 65536 * (t.len() - 1)) as u32),
{
    lemma_encoded_layout(bytes, t);
    let pre = preamble(t);
    if !has_runs(t) {
        assert(pre.subrange(0, 4) =~= le32(COOKIE_NO_RUNS));
        assert(bytes.subrange(4, 8) =~= pre.subrange(4, 8));
        assert(pre.subrange(4, 8) =~= le32(t.len() as u32));
    } else {
        assert(pre.subrange(0, 4) =~= le32((COOKIE_RUNS + 65536 * (t.len() - 1)) as u32));
    }
}

/// Reads the cookie and the container count: the count, whether the run
/// form is used, and where the key/count table starts.
fn read_counts(bytes: &Vec<u8>) -> (r: Result<(usize, bool, usize), FormatError>)
    ensures
        r matches Ok((n, runs, desc)) ==> n <= 65536 && (runs ==> desc == 4 + (n + 7) / 8) && (!runs
            ==> desc == 8),
        forall|t: Seq<Chunk>| #[trigger]
            encodes(bytes@, t) ==> (r matches Ok((n, runs, desc)) && t.len() == n && has_runs(t)
                == runs && desc == desc_start(t)),
{
    let len = bytes.len();
    if len < 4 {
        proof {
            assert forall|t: Seq<Chunk>| #[trigger] encodes(bytes@, t) implies false by {
                lemma_encoded_header(bytes@, t);
            }
        }
        return Err(FormatError::Truncated);
    }
    let cookie = get32(bytes, 0);
    proof {
        assert forall|t: Seq<Chunk>| #[trigger] encodes(bytes@, t) implies cookie == if !has_runs(t) {
            COOKIE_NO_RUNS
        } else {
            (COOKIE_RUNS + 65536 * (t.len() - 1)) as u32
        } by {
            lemma_encoded_header(bytes@, t);
            let c: u32 = if !has_runs(t) {
                COOKIE_NO_RUNS
            } else {
                (COOKIE_RUNS + 65536 * (t.len() - 1)) as u32
            };
            lemma_le32_inj(cookie, c);
        }
    }
    let (n, runs, desc): (usize, bool, usize) = if cookie == COOKIE_NO_RUNS {
        proof {
            assert forall|t: Seq<Chunk>| #[trigger] encodes(bytes@, t) implies !has_runs(t) && 8 <= len by {
                lemma_encoded_header(bytes@, t);
                if has_runs(t) {
                    assert(((COOKIE_RUNS + 65536 * (t.len() - 1)) as u32) % 65536 == COOKIE_RUNS);
                }
            }
        }
        if len < 8 {
            return Err(FormatError::Truncated);
        }
        let count = get32(bytes, 4);
        proof {
            assert forall|t: Seq<Chunk>| #[trigger] encodes(bytes@, t) implies count == t.len() by {
                lemma_encoded_header(bytes@, t);
                lemma_le32_inj(count, t.len() as u32);
            }
        }
        if count > 65536 {
            proof {
                assert forall|t: Seq<Chunk>| #[trigger] encodes(bytes@, t) implies false by {
                    lemma_encoded_header(bytes@, t);
                }
            }
            return Err(FormatError::BadHeader);
        }
        (count as usize, false, 8)
    } else if cookie % 65536 == COOKIE_RUNS {
        let m = (cookie / 65536) as usize + 1;
        proof {
            assert forall|t: Seq<Chunk>| #[trigger] encodes(bytes@, t) implies has_runs(t) && t.len()
                == m by {
                lemma_encoded_header(bytes@, t);
            }
        }
        (m, true, 4 + (m + 7) / 8)
    } else {
        proof {
            assert forall|t: Seq<Chunk>| #[trigger] encodes(bytes@, t) implies false by {
                lemma_encoded_header(bytes@, t);
                if has_runs(t) {
                    assert(((COOKIE_RUNS + 65536 * (t.len() - 1)) as u32) % 65536 == COOKIE_RUNS);
                }
            }
        }
        return Err(FormatError::BadCookie);
    };
    Ok((n, runs, desc))
}

/// Reads the header: the container count, whether the run form is used,
/// where the key/count table starts and where the payloads start.
pub fn read_header(bytes: &Vec<u8>) -> (r: Result<(usize, bool, usize, usize), FormatError>)
    ensures
        r matches Ok((n, runs, desc, h)) ==> n <= 65536 && desc + 4 * n <= h <= bytes@.len() && (runs
            ==> 4 + (n + 7) / 8 <= desc),
        forall|t: Seq<Chunk>| #[trigger]
            encodes(bytes@, t) ==> (r matches Ok((n, runs, desc, h)) && t.len() == n && has_runs(t)
                == runs && desc == desc_start(t) && h == header_len(t)),
{
    let len = bytes.len();
    let (n, runs, desc) = match read_counts(bytes) {
        Ok(x) => x,
        Err(e) => {
            return Err(e);
        },
    };
    proof {
        assert forall|t: Seq<Chunk>| #[trigger] encodes(bytes@, t) implies t.len() == n && has_runs(t)
            == runs && desc == desc_start(t) && desc + 4 * n <= header_len(t) && header_len(t) <= len by {
            lemma_encoded_header(bytes@, t);
        }
    }
    if desc > len || (len - desc) / 4 < n {
        return Err(FormatError::Truncated);
    }
    let table: usize = if runs && n < OFFSETS_FROM {
        4 * n
    } else {
        8 * n
    };
    proof {
        assert forall|t: Seq<Chunk>| #[trigger] encodes(bytes@, t) implies desc + table == header_len(t) by {
            lemma_encoded_header(bytes@, t);
        }
    }
    if len - desc < table {
        return Err(FormatError::Truncated);
    }
    Ok((n, runs, desc, desc + table))
}

/// `t` serializes to `bytes`, with the header read as given and chunks
/// before `k` read already, the last of them with key `prev`.
pub open spec fn read_so_far(
    bytes: Seq<u8>,
    t: Seq<Chunk>,
    n: int,
    runs: bool,
    desc: int,
    k: int,
    cursor: int,
    prev: u16,
) -> bool {
    &&& encodes(bytes, t)
    &&& t.len() == n
    &&& has_runs(t) == runs
    &&& desc == desc_start(t)
    &&& 0 <= k < n
    &&& cursor == header_len(t) + payloads(t.subrange(0, k)).len()
    &&& k > 0 ==> prev == t[k - 1].key
}

/// Reads chunk `k`: its key and count from the table, whether it is a run
/// list from the bitset, and its payload at `cursor`. A chunk whose key is
/// not above `prev` (when `k > 0`) is refused.
pub fn read_chunk(
    bytes: &Vec<u8>,
    n: usize,
    runs: bool,
    desc: usize,
    k: usize,
    cursor: usize,
    prev: u16,
) -> (r: Option<(Chunk, usize)>)
    requires
        n <= 65536,
        k < n,
        desc + 4 * n <= bytes@.len(),
        runs ==> 4 + (n + 7) / 8 <= desc,
        cursor <= bytes@.len(),
    ensures
        r matches Some((ch, q)) ==> ch.container.wf() && ch.container@.len() > 0 && q
            <= bytes@.len() && (k > 0 ==> prev < ch.key),
        forall|t: Seq<Chunk>| #[trigger]
            read_so_far(bytes@, t, n as int, runs, desc as int, k as int, cursor as int, prev) ==> (r matches Some(
                (ch, q),
            ) && ch.key == t[k as int].key && same_rep(ch.container, t[k as int].container) && q
                == header_len(t) + payloads(t.subrange(0, k + 1)).len()),
{
    let _len = bytes.len();
    let at: usize = desc + 4 * k;
    let key = get16(bytes, at);
    let card16 = get16(bytes, at + 2);
    let card = card16 as u32 + 1;
    proof {
        assert forall|t: Seq<Chunk>| #[trigger]
            read_so_far(bytes@, t, n as int, runs, desc as int, k as int, cursor as int, prev) implies key
            == t[k as int].key && card == t[k as int].container@.len() by {
            lemma_encoded_layout(bytes@, t);
            assert(descriptor_at(bytes@, t, k as int));
            lemma_le16_inj(key, t[k as int].key);
            lemma_le16_inj(card16, (t[k as int].container@.len() - 1) as u16);
            t[k as int].container.lemma_view();
        }
    }
    if k > 0 && prev >= key {
        proof {
            assert forall|t: Seq<Chunk>| #[trigger]
                read_so_far(bytes@, t, n as int, runs, desc as int, k as int, cursor as int, prev) implies false by {
                assert(t[k - 1].key < t[k as int].key);
            }
        }
        return None;
    }
    let is_run = runs && (bytes[4 + k / 8] >> ((k % 8) as u8)) & 1u8 == 1u8;
    proof {
        assert forall|t: Seq<Chunk>| #[trigger]
            read_so_far(bytes@, t, n as int, runs, desc as int, k as int, cursor as int, prev) implies container_at(
            bytes@,
            cursor as int,
            card as int,
            is_run,
            t[k as int].container,
        ) by {
            lemma_encoded_layout(bytes@, t);
            lemma_encoded_payload(bytes@, t, k as int);
            if runs {
                let b = (k / 8) as int;
                assert(bytes@[4 + b] == preamble(t)[4 + b]);
                assert(preamble(t)[4 + b] == run_flags(t)[b]);
                lemma_flag_bit(t, b, 8, (k % 8) as u8);
                assert(8 * b + (k % 8) == k);
            } else {
                if t[k as int].container is Run {
                    assert(has_runs(t));
                }
            }
        }
    }
    match read_container(bytes, cursor, card, is_run) {
        Some((c, q)) => {
            proof {
                assert forall|t: Seq<Chunk>| #[trigger]
                    read_so_far(bytes@, t, n as int, runs, desc as int, k as int, cursor as int, prev) implies q
                    == header_len(t) + payloads(t.subrange(0, k + 1)).len() by {
                    assert(t.subrange(0, k + 1).drop_last() =~= t.subrange(0, k as int));
                }
            }
            Some((Chunk { key, container: c }, q))
        },
        None => None,
    }
}

/// A well-formed list with every container in its chosen encoding.
pub open spec fn canonical(cs: Seq<Chunk>) -> bool {
    &&& chunks_wf(cs)
    &&& forall|k: int|
        0 <= k < cs.len() ==> (#[trigger] cs[k]).container.encoding() == chosen_encoding(
            cs[k].container@.len(),
            run_count(cs[k].container@),
        )
}

/// The canonical chunk list whose members are `m`.
pub open spec fn canonical_of(m: Seq<u32>) -> Seq<Chunk> {
    choose|cs: Seq<Chunk>| canonical(cs) && chunks_seq(cs) == m
}

/// Well-formed containers with the same members and encoding have the
/// same representation.
pub proof fn lemma_container_unique(c: Container, d: Container)
    requires
        c.wf(),
        d.wf(),
        c@ == d@,
        c.encoding() == d.encoding(),
    ensures
        same_rep(c, d),
{
    match c {
        Container::Array(_) => {},
        Container::Bitmap(b1) => {
            let b2 = d->Bitmap_0;
            crate::bits::lemma_words_unique(&b1, &b2);
        },
        Container::Run(r1) => {
            lemma_runs_unique(r1@, d->Run_0@);
        },
    }
}

/// Canonical lists with the same members have the same representation,
/// so they serialize alike.
pub proof fn lemma_canonical_unique(x: Seq<Chunk>, y: Seq<Chunk>)
    requires
        canonical(x),
        canonical(y),
        chunks_seq(x) == chunks_seq(y),
    ensures
        same_reps(x, y),
        encode(x) == encode(y),
{
    lemma_chunks_unique(x, y);
    assert forall|k: int| 0 <= k < x.len() implies (#[trigger] x[k]).key == y[k].key && same_rep(
        x[k].container,
        y[k].container,
    ) by {
        lemma_container_unique(x[k].container, y[k].container);
    }
    lemma_same_reps_encode(x, y);
}

} // verus!
