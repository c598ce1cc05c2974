//! Canonical mono 16-bit PCM WAVE files at a fixed sample rate.
//!
//! A file is a 44-byte header followed by the samples, two bytes each, low
//! byte first. `package` writes such a file and `strip` reads one back.

use vstd::prelude::*;
use vstd::slice::{slice_subrange, slice_to_vec};

verus! {

/// Samples per second of every stream handled here.
pub const SAMPLE_RATE: u32 = 48_000;

/// Number of bytes in front of the samples in a canonical file.
pub const HEADER_SIZE: usize = 44;

/// Bytes per second of a stream: one channel of two-byte samples.
pub const BYTE_RATE: u32 = 96_000;

/// Why a byte string cannot be read as samples.
#[derive(Clone, Copy, Debug, PartialEq, Eq, Structural)]
pub enum WavError {
    /// The bytes are not a canonical mono 16-bit PCM file at `SAMPLE_RATE`.
    InvalidWav,
}

/// What a byte string is, as far as the header tells.
#[derive(Clone, Copy, Debug, PartialEq, Eq, Structural)]
pub enum Verdict {
    /// Too short for a header, or one of the chunk tags is missing.
    NotWav,
    /// A WAVE file, but not PCM, not mono, not 16 bits or not at `SAMPLE_RATE`.
    WrongFormat,
    /// A canonical file.
    Canonical,
}

/// The two bytes of a 16-bit value, low byte first.
pub open spec fn le16(v: u16) -> Seq<u8> {
    seq![(v % 256) as u8, (v / 256) as u8]
}

/// The four bytes of a 32-bit value, low byte first.
pub open spec fn le32(v: u32) -> Seq<u8> {
    seq![
        (v % 256) as u8,
        (v / 256 % 256) as u8,
        (v / 65536 % 256) as u8,
        (v / 16777216) as u8,
    ]
}

/// The 16-bit value stored low byte first at offset `at`.
pub open spec fn u16_at(b: Seq<u8>, at: int) -> int {
    b[at] as int + 256 * (b[at + 1] as int)
}

/// The 32-bit value stored low byte first at offset `at`.
pub open spec fn u32_at(b: Seq<u8>, at: int) -> int {
    b[at] as int + 256 * (b[at + 1] as int) + 65536 * (b[at + 2] as int) + 16777216 * (b[at
        + 3] as int)
}

/// The two bytes of a sample, low byte first.
pub open spec fn sample_bytes(x: i16) -> Seq<u8> {
    le16(x as u16)
}

/// The sample that two bytes stand for, low byte first.
pub open spec fn sample_of(lo: u8, hi: u8) -> i16 {
    ((lo as int + 256 * hi as int) as u16) as i16
}

/// A size as a header field holds it: sizes beyond 32 bits are stored as
/// the largest 32-bit value.
pub open spec fn size_field(n: nat) -> u32 {
    if n > u32::MAX {
        u32::MAX
    } else {
        n as u32
    }
}

/// The four bytes `RIFF`.
pub open spec fn tag_riff() -> Seq<u8> {
    seq![0x52u8, 0x49u8, 0x46u8, 0x46u8]
}

/// The four bytes `WAVE`.
pub open spec fn tag_wave() -> Seq<u8> {
    seq![0x57u8, 0x41u8, 0x56u8, 0x45u8]
}

/// The four bytes `fmt `.
pub open spec fn tag_fmt() -> Seq<u8> {
    seq![0x66u8, 0x6du8, 0x74u8, 0x20u8]
}

/// The four bytes `data`.
pub open spec fn tag_data() -> Seq<u8> {
    seq![0x64u8, 0x61u8, 0x74u8, 0x61u8]
}

/// The header of a file holding `n` samples: the RIFF chunk, the format
/// chunk (PCM, one channel, `SAMPLE_RATE`, 16 bits) and the head of the data
/// chunk.
pub open spec fn header(n: nat) -> Seq<u8> {
    tag_riff() + le32(size_field(36 + 2 * n)) + tag_wave() + tag_fmt() + le32(16) + le16(1)
        + le16(1) + le32(SAMPLE_RATE) + le32(BYTE_RATE) + le16(2) + le16(16) + tag_data() + le32(
        size_field(2 * n),
    )
}

/// The samples as bytes, in order, two bytes each.
pub open spec fn body(xs: Seq<i16>) -> Seq<u8> {
    Seq::new(2 * xs.len(), |i: int| sample_bytes(xs[i / 2])[i % 2])
}

/// The canonical file that holds `xs`.
pub open spec fn wav_file(xs: Seq<i16>) -> Seq<u8> {
    header(xs.len()) + body(xs)
}

/// The samples that a run of bytes holds. A trailing odd byte is left out.
pub open spec fn samples_of(b: Seq<u8>) -> Seq<i16> {
    Seq::new((b.len() / 2) as nat, |i: int| sample_of(b[2 * i], b[2 * i + 1]))
}

/// The bytes are long enough for a header and carry the four chunk tags and
/// a 16-byte format chunk.
pub open spec fn is_wave(b: Seq<u8>) -> bool {
    &&& b.len() >= HEADER_SIZE
    &&& b.subrange(0, 4) == tag_riff()
    &&& b.subrange(8, 12) == tag_wave()
    &&& b.subrange(12, 16) == tag_fmt()
    &&& u32_at(b, 16) == 16
    &&& b.subrange(36, 40) == tag_data()
}

/// The format chunk says PCM, one channel, `SAMPLE_RATE`, 16 bits.
pub open spec fn has_format(b: Seq<u8>) -> bool {
    &&& u16_at(b, 20) == 1
    &&& u16_at(b, 22) == 1
    &&& u32_at(b, 24) == SAMPLE_RATE
    &&& u16_at(b, 34) == 16
}

/// What `examine` answers for `b`.
pub open spec fn verdict_of(b: Seq<u8>) -> Verdict {
    if !is_wave(b) {
        Verdict::NotWav
    } else if !has_format(b) {
        Verdict::WrongFormat
    } else {
        Verdict::Canonical
    }
}

/// What `strip` answers for `b`: the samples behind the header of a
/// canonical file, nothing for any other byte string.
pub open spec fn stripped(b: Seq<u8>) -> Option<Seq<i16>> {
    if verdict_of(b) == Verdict::Canonical {
        Some(samples_of(b.subrange(HEADER_SIZE as int, b.len() as int)))
    } else {
        None
    }
}

/// Number of samples behind the header of `b`.
pub open spec fn sample_count(b: Seq<u8>) -> int {
    (b.len() - HEADER_SIZE) / 2
}

/// A sample survives being written as two bytes and read back.
pub proof fn lemma_sample_round_trip(x: i16)
    ensures
        sample_bytes(x).len() == 2,
        sample_of(sample_bytes(x)[0], sample_bytes(x)[1]) == x,
{
    let u: u16 = x as u16;
    assert(u as i16 == x) by (bit_vector)
        requires
            u == x as u16,
    ;
    assert((u % 256) as u8 as int + 256 * ((u / 256) as u8 as int) == u as int);
}

/// The header is `HEADER_SIZE` bytes long and is that of a canonical file.
#[verifier::rlimit(50)]
pub proof fn lemma_header(n: nat)
    ensures
        header(n).len() == HEADER_SIZE,
        verdict_of(header(n)) == Verdict::Canonical,
{
    let h = header(n);
    assert(h.len() == 44);
    assert(h.subrange(0, 4) =~= tag_riff());
    assert(h.subrange(8, 12) =~= tag_wave());
    assert(h.subrange(12, 16) =~= tag_fmt());
    assert(h.subrange(36, 40) =~= tag_data());
    assert(u32_at(h, 16) == 16);
    assert(u16_at(h, 20) == 1);
    assert(u16_at(h, 22) == 1);
    assert(u32_at(h, 24) == 48000);
    assert(u16_at(h, 34) == 16);
}

/// Reading a written file gives back the samples that were written.
#[verifier::rlimit(50)]
pub proof fn lemma_strip_package(xs: Seq<i16>)
    ensures
        stripped(wav_file(xs)) == Some(xs),
{
    let f = wav_file(xs);
    let h = header(xs.len());
    lemma_header(xs.len());
    assert(f.subrange(0, 4) =~= h.subrange(0, 4));
    assert(f.subrange(8, 12) =~= h.subrange(8, 12));
    assert(f.subrange(12, 16) =~= h.subrange(12, 16));
    assert(f.subrange(36, 40) =~= h.subrange(36, 40));
    assert(forall|i: int| 0 <= i < 44 ==> f[i] == h[i]);
    assert(verdict_of(f) == Verdict::Canonical);
    let b = f.subrange(HEADER_SIZE as int, f.len() as int);
    assert(b =~= body(xs));
    assert forall|i: int| 0 <= i < xs.len() implies #[trigger] samples_of(b)[i] == xs[i] by {
        lemma_sample_round_trip(xs[i]);
        assert((2 * i) / 2 == i && (2 * i) % 2 == 0);
        assert((2 * i + 1) / 2 == i && (2 * i + 1) % 2 == 1);
    }
    assert(samples_of(b) =~= xs);
}

/// A file with no samples is exactly a header.
pub proof fn lemma_empty_file()
    ensures
        wav_file(Seq::<i16>::empty()).len() == HEADER_SIZE,
        wav_file(Seq::<i16>::empty()) == header(0),
{
    lemma_header(0);
    assert(wav_file(Seq::<i16>::empty()) =~= header(0));
}

fn put_u16(out: &mut Vec<u8>, v: u16)
    ensures
        final(out)@ == old(out)@ + le16(v),
{
    out.push((v % 256) as u8);
    out.push((v / 256) as u8);
    assert(out@ =~= old(out)@ + le16(v));
}

fn put_u32(out: &mut Vec<u8>, v: u32)
    ensures
        final(out)@ == old(out)@ + le32(v),
{
    out.push((v % 256) as u8);
    out.push((v / 256 % 256) as u8);
    out.push((v / 65536 % 256) as u8);
    out.push((v / 16777216) as u8);
    assert(out@ =~= old(out)@ + le32(v));
}

fn put_tag(out: &mut Vec<u8>, a: u8, b: u8, c: u8, d: u8)
    ensures
        final(out)@ == old(out)@ + seq![a, b, c, d],
{
    out.push(a);
    out.push(b);
    out.push(c);
    out.push(d);
    assert(out@ =~= old(out)@ + seq![a, b, c, d]);
}

fn clamp_size(n: usize) -> (r: u32)
    ensures
        r == size_field(n as nat),
{
    if n > 0xffff_ffff {
        0xffff_ffff
    } else {
        n as u32
    }
}

/// The bytes of a sequence of samples with one more sample at its end are
/// the bytes of the sequence followed by those of the sample.
pub proof fn lemma_body_push(xs: Seq<i16>, x: i16)
    ensures
        body(xs.push(x)) == body(xs) + sample_bytes(x),
{
    let l = body(xs.push(x));
    let r = body(xs) + sample_bytes(x);
    assert(l.len() == r.len());
    assert forall|j: int| 0 <= j < l.len() implies l[j] == r[j] by {
        if j < 2 * xs.len() {
            assert(xs.push(x)[j / 2] == xs[j / 2]);
        } else {
            assert(j / 2 == xs.len());
            assert(j % 2 == j - 2 * xs.len());
        }
    }
    assert(l =~= r);
}

#[verifier::rlimit(50)]
fn put_header(out: &mut Vec<u8>, n: usize)
    requires
        old(out)@.len() == 0,
        HEADER_SIZE + 2 * n <= usize::MAX,
    ensures
        final(out)@ == header(n as nat),
{
    put_tag(out, 0x52, 0x49, 0x46, 0x46);
    assert(out@ == tag_riff()) by {
        assert(old(out)@ + tag_riff() =~= tag_riff());
    }
    put_u32(out, clamp_size(36 + 2 * n));
    put_tag(out, 0x57, 0x41, 0x56, 0x45);
    put_tag(out, 0x66, 0x6d, 0x74, 0x20);
    put_u32(out, 16);
    put_u16(out, 1);
    put_u16(out, 1);
    put_u32(out, SAMPLE_RATE);
    put_u32(out, BYTE_RATE);
    put_u16(out, 2);
    put_u16(out, 16);
    put_tag(out, 0x64, 0x61, 0x74, 0x61);
    put_u32(out, clamp_size(2 * n));
}

/// Writes the canonical file that holds `samples`.
///
/// The same samples always give the same bytes. The two size fields of the
/// header hold 32 bits; a size beyond that is stored as the largest value.
#[verifier::rlimit(50)]
pub fn package(samples: &[i16]) -> (out: Vec<u8>)
    requires
        HEADER_SIZE + 2 * samples@.len() <= usize::MAX,
    ensures
        out@ == wav_file(samples@),
        out@.len() == HEADER_SIZE + 2 * samples@.len(),
        stripped(out@) == Some(samples@),
{
    let n = samples.len();
    let mut out: Vec<u8> = Vec::with_capacity(HEADER_SIZE + 2 * n);
    put_header(&mut out, n);
    proof {
        lemma_header(n as nat);
        assert(body(samples@.take(0)) =~= Seq::<u8>::empty());
        assert(out@ =~= header(n as nat) + body(samples@.take(0)));
    }
    let mut i: usize = 0;
    while i < n
        invariant
            n == samples@.len(),
            i <= n,
            out@ == header(n as nat) + body(samples@.take(i as int)),
        decreases n - i,
    {
        let pair = encode_sample(samples[i]);
        let ghost before = out@;
        out.push(pair.0);
        out.push(pair.1);
        proof {
            let done = samples@.take(i as int);
            let x = samples@[i as int];
            lemma_body_push(done, x);
            assert(samples@.take(i + 1) =~= done.push(x));
            assert(out@ =~= before + seq![pair.0, pair.1]);
            assert(before + sample_bytes(x) =~= header(n as nat) + (body(done) + sample_bytes(x)));
        }
        i = i + 1;
    }
    proof {
        assert(samples@.take(n as int) =~= samples@);
        lemma_strip_package(samples@);
        lemma_header(n as nat);
    }
    out
}

/// The two bytes of a sample, low byte first.
pub fn encode_sample(x: i16) -> (r: (u8, u8))
    ensures
        seq![r.0, r.1] == sample_bytes(x),
{
    let u: u16 = x as u16;
    let r = ((u % 256) as u8, (u / 256) as u8);
    assert(seq![r.0, r.1] =~= sample_bytes(x));
    r
}

/// The sample that two bytes stand for, low byte first.
pub fn decode_sample(lo: u8, hi: u8) -> (r: i16)
    ensures
        r == sample_of(lo, hi),
{
    let u: u16 = lo as u16 + 256 * (hi as u16);
    u as i16
}

fn read_u16(b: &[u8], at: usize) -> (r: u16)
    requires
        at + 2 <= b@.len(),
    ensures
        r == u16_at(b@, at as int),
{
    b[at] as u16 + 256 * (b[at + 1] as u16)
}

fn read_u32(b: &[u8], at: usize) -> (r: u32)
    requires
        at + 4 <= b@.len(),
    ensures
        r == u32_at(b@, at as int),
{
    b[at] as u32 + 256 * (b[at + 1] as u32) + 65536 * (b[at + 2] as u32) + 16777216 * (b[at
        + 3] as u32)
}

fn has_tag(b: &[u8], at: usize, t0: u8, t1: u8, t2: u8, t3: u8) -> (r: bool)
    requires
        at + 4 <= b@.len(),
    ensures
        r == (b@.subrange(at as int, at + 4) == seq![t0, t1, t2, t3]),
{
    let r = b[at] == t0 && b[at + 1] == t1 && b[at + 2] == t2 && b[at + 3] == t3;
    proof {
        let s = b@.subrange(at as int, at + 4);
        let t = seq![t0, t1, t2, t3];
        if r {
            assert(s =~= t);
        } else {
            assert(s[0] == b@[at as int]);
            assert(s[1] == b@[at + 1]);
            assert(s[2] == b@[at + 2]);
            assert(s[3] == b@[at + 3]);
            assert(t[0] == t0 && t[1] == t1 && t[2] == t2 && t[3] == t3);
        }
    }
    r
}

/// Tells whether `bytes` is a canonical file, a WAVE file of another
/// format, or no WAVE file at all.
pub fn examine(bytes: &[u8]) -> (v: Verdict)
    ensures
        v == verdict_of(bytes@),
{
    if bytes.len() < HEADER_SIZE {
        return Verdict::NotWav;
    }
    if !has_tag(bytes, 0, 0x52, 0x49, 0x46, 0x46) || !has_tag(bytes, 8, 0x57, 0x41, 0x56, 0x45)
        || !has_tag(bytes, 12, 0x66, 0x6d, 0x74, 0x20) || read_u32(bytes, 16) != 16 || !has_tag(
        bytes,
        36,
        0x64,
        0x61,
        0x74,
        0x61,
    ) {
        return Verdict::NotWav;
    }
    if read_u16(bytes, 20) != 1 || read_u16(bytes, 22) != 1 || read_u32(bytes, 24) != SAMPLE_RATE
        || read_u16(bytes, 34) != 16 {
        return Verdict::WrongFormat;
    }
    Verdict::Canonical
}

/// Reads the samples of a canonical file.
///
/// Succeeds exactly on the byte strings that `examine` calls canonical, and
/// then returns every sample behind the header, in order.
pub fn strip(bytes: &[u8]) -> (r: Result<Vec<i16>, WavError>)
    ensures
        match r {
            Ok(v) => stripped(bytes@) == Some(v@),
            Err(e) => stripped(bytes@).is_none() && e == WavError::InvalidWav,
        },
{
    match examine(bytes) {
        Verdict::Canonical => {},
        _ => {
            return Err(WavError::InvalidWav);
        },
    }
    let n = (bytes.len() - HEADER_SIZE) / 2;
    let mut v: Vec<i16> = Vec::with_capacity(n);
    let ghost b = bytes@.subrange(HEADER_SIZE as int, bytes@.len() as int);
    let mut i: usize = 0;
    while i < n
        invariant
            bytes@.len() >= HEADER_SIZE,
            n == (bytes@.len() - HEADER_SIZE) / 2,
            HEADER_SIZE + 2 * n <= bytes@.len() <= usize::MAX,
            b == bytes@.subrange(HEADER_SIZE as int, bytes@.len() as int),
            i <= n,
            v@.len() == i,
            forall|k: int| 0 <= k < i ==> v@[k] == samples_of(b)[k],
        decreases n - i,
    {
        let x = decode_sample(bytes[HEADER_SIZE + 2 * i], bytes[HEADER_SIZE + 2 * i + 1]);
        v.push(x);
        i = i + 1;
    }
    assert(v@ =~= samples_of(b));
    Ok(v)
}

/// The bytes behind the header, which is what a player is fed: nothing
/// for a byte string too short to hold a header.
pub fn body_bytes(bytes: &[u8]) -> (r: Option<Vec<u8>>)
    ensures
        match r {
            Some(b) => bytes@.len() >= HEADER_SIZE && b@ == bytes@.subrange(
                HEADER_SIZE as int,
                bytes@.len() as int,
            ),
            None => bytes@.len() < HEADER_SIZE,
        },
{
    if bytes.len() < HEADER_SIZE {
        return None;
    }
    Some(slice_to_vec(slice_subrange(bytes, HEADER_SIZE, bytes.len())))
}

} // verus!
