//! A recording as files to send: one WAVE file where it fits the size
//! limit of a message, several numbered ones where it does not.

use crate::seqs::{
    chunk,
    chunk_count,
    chunk_end,
    lemma_chunk_count,
    lemma_chunk_len,
    lemma_rejoined,
    rejoined,
};
use crate::text::{decimal_chars, push_decimal};
use crate::wav::{lemma_header, lemma_strip_package, package, stripped, wav_file};
use vstd::prelude::*;
use vstd::slice::slice_subrange;
use vstd::string::*;

verus! {

/// The most bytes that one file may have: 24 MiB.
pub const MAX_FILE_SIZE: usize = 25_165_824;

/// The most samples that one file may hold: what fits `MAX_FILE_SIZE`
/// behind a header.
pub const CHUNK_SAMPLES: usize = 12_582_890;

/// A file to send.
#[derive(Clone, Debug, PartialEq, Eq)]
pub struct Attachment {
    pub filename: String,
    pub data: Vec<u8>,
}

/// The name of file `i` of the recording of `user`: the user's name where
/// there is one file only, and the name with the file's number, counted
/// from one, where there are more.
pub open spec fn file_name(user: Seq<char>, i: nat, alone: bool) -> Seq<char> {
    if alone {
        user + ".wav"@
    } else {
        user + "-"@ + decimal_chars(i + 1) + ".wav"@
    }
}

/// The number of files that a recording of `len` samples is sent as.
pub open spec fn file_count(len: nat) -> nat {
    chunk_count(len, CHUNK_SAMPLES as nat)
}

/// The samples of file `i`.
pub open spec fn file_samples(data: Seq<i16>, i: int) -> Seq<i16> {
    chunk(data, CHUNK_SAMPLES as nat, i)
}

/// Every file is within the size limit and is read back as its part of
/// the recording; the parts, put together in order, are the recording. A
/// recording that does not fit one file is sent as two or more.
pub proof fn lemma_files_cover(data: Seq<i16>)
    ensures
        forall|i: int|
            0 <= i < file_count(data.len()) ==> wav_file(#[trigger] file_samples(data, i)).len()
                <= MAX_FILE_SIZE && stripped(wav_file(file_samples(data, i))) == Some(
                file_samples(data, i),
            ),
        rejoined(data, CHUNK_SAMPLES as nat, file_count(data.len())) == data,
        data.len() > CHUNK_SAMPLES ==> file_count(data.len()) >= 2,
        data.len() <= CHUNK_SAMPLES ==> file_count(data.len()) <= 1,
{
    let size = CHUNK_SAMPLES as nat;
    assert forall|i: int| 0 <= i < file_count(data.len()) implies wav_file(
        #[trigger] file_samples(data, i),
    ).len() <= MAX_FILE_SIZE && stripped(wav_file(file_samples(data, i))) == Some(
        file_samples(data, i),
    ) by {
        lemma_chunk_len(data, size, i as nat);
        lemma_header(file_samples(data, i).len());
        lemma_strip_package(file_samples(data, i));
    }
    lemma_rejoined(data, size, file_count(data.len()));
    lemma_chunk_count(data.len(), size, 1);
    assert(1 * size == size) by (nonlinear_arith);
}

/// Cuts the recording `data` of `user` into files.
///
/// No samples give no file. Up to `CHUNK_SAMPLES` samples give one file,
/// named after the user. More give several, each but the last with
/// `CHUNK_SAMPLES` samples, named after the user and numbered from one.
pub fn attachments(user: &str, data: &[i16]) -> (r: Vec<Attachment>)
    ensures
        r@.len() == file_count(data@.len()),
        forall|i: int|
            0 <= i < r@.len() ==> (#[trigger] r@[i]).data@ == wav_file(file_samples(data@, i))
                && r@[i].data@.len() <= MAX_FILE_SIZE && r@[i].filename@ == file_name(
                user@,
                i as nat,
                data@.len() <= CHUNK_SAMPLES,
            ),
{
    let n = data.len();
    let alone = n <= CHUNK_SAMPLES;
    let ghost size = CHUNK_SAMPLES as nat;
    let mut r: Vec<Attachment> = Vec::new();
    let mut start: usize = 0;
    let mut i: usize = 0;
    proof {
        lemma_chunk_count(n as nat, size, 0);
        assert(0 * size == 0) by (nonlinear_arith);
    }
    while start < n
        invariant
            n == data@.len(),
            size == CHUNK_SAMPLES as nat,
            alone == (n <= CHUNK_SAMPLES),
            i <= file_count(n as nat),
            start <= n,
            start < n <==> i < file_count(n as nat),
            start < n ==> start == i * size,
            r@.len() == i,
            forall|k: int|
                0 <= k < i ==> (#[trigger] r@[k]).data@ == wav_file(file_samples(data@, k))
                    && r@[k].data@.len() <= MAX_FILE_SIZE && r@[k].filename@ == file_name(
                    user@,
                    k as nat,
                    alone,
                ),
        decreases file_count(n as nat) - i,
    {
        proof {
            lemma_chunk_len(data@, size, i as nat);
            lemma_chunk_count(n as nat, size, i as nat);
            lemma_chunk_count(n as nat, size, (i + 1) as nat);
        }
        let end = if n - start > CHUNK_SAMPLES {
            start + CHUNK_SAMPLES
        } else {
            n
        };
        assert(end == chunk_end(n as nat, size, i as int));
        let piece = slice_subrange(data, start, end);
        assert(piece@ == file_samples(data@, i as int));
        let bytes = package(piece);
        let mut filename = user.to_owned();
        if !alone {
            filename.append("-");
            push_decimal(&mut filename, (i + 1) as u64);
        }
        filename.append(".wav");
        assert(filename@ =~= file_name(user@, i as nat, alone));
        r.push(Attachment { filename, data: bytes });
        start = end;
        i = i + 1;
    }
    r
}

} // verus!
