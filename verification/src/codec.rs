//! The persisted form of a relation: two 64-bit little-endian header
//! fields, the tuple data as 32-bit little-endian words, and a CRC-32 of
//! all of that in the last four bytes.

use crate::relations::{Relation, Table};
use vstd::bytes::{
    lemma_auto_spec_u32_to_from_le_bytes, lemma_auto_spec_u64_to_from_le_bytes,
    spec_u32_from_le_bytes, spec_u32_to_le_bytes, spec_u64_from_le_bytes, spec_u64_to_le_bytes,
    u32_from_le_bytes, u32_to_le_bytes, u64_from_le_bytes, u64_to_le_bytes,
};
use vstd::prelude::*;
use vstd::slice::slice_subrange;

verus! {

/// The stored checksum and the one computed from the bytes read, where the
/// two differ.
#[derive(Clone, Copy, PartialEq, Eq, Debug)]
pub struct ChecksumError {
    pub expected: u32,
    pub actual: u32,
}

/// Why a byte string could not be read as a relation.
#[derive(Clone, Copy, PartialEq, Eq, Debug)]
pub enum ReadError {
    /// The bytes end before the header, the tuple data that the header
    /// announces, or the checksum is complete.
    Truncated,
    /// A header field of an empty table is larger than this machine's
    /// `usize`.
    Oversize,
    /// The stored checksum is not that of the bytes before it.
    Checksum(ChecksumError),
}

/// The CRC-32 (IEEE) checksum of `bytes`, as `crc32fast` computes it.
pub uninterp spec fn crc32_of(bytes: Seq<u8>) -> u32;

/// `crc32fast::hash`: the CRC-32 checksum of a byte slice. The contract
/// only gives the result its name; nothing is claimed of its value.
#[verifier::external_body]
fn crc32(bytes: &[u8]) -> (sum: u32)
    ensures
        sum == crc32_of(bytes@),
{
    crc32fast::hash(bytes)
}

/// The four bytes of one column value.
pub open spec fn word_bytes(x: i32) -> Seq<u8> {
    spec_u32_to_le_bytes(x as u32)
}

/// The column value that four bytes stand for.
pub open spec fn word_of(bytes: Seq<u8>) -> i32 {
    spec_u32_from_le_bytes(bytes) as i32
}

/// The bytes of a run of column values, in order.
pub open spec fn words_bytes(data: Seq<i32>) -> Seq<u8>
    decreases data.len(),
{
    if data.len() == 0 {
        Seq::empty()
    } else {
        words_bytes(data.drop_last()) + word_bytes(data.last())
    }
}

/// The `n` column values that the first `4 * n` of `bytes` stand for.
pub open spec fn words_of(bytes: Seq<u8>, n: int) -> Seq<i32> {
    Seq::new(n as nat, |i: int| word_of(bytes.subrange(4 * i, 4 * i + 4)))
}

/// Everything that the checksum covers: the two header fields and the
/// tuple data.
pub open spec fn body_bytes(table: Table) -> Seq<u8> {
    spec_u64_to_le_bytes(table.size as u64) + spec_u64_to_le_bytes(table.arity as u64)
        + words_bytes(table.data)
}

/// A body followed by the four bytes of `checksum`.
pub open spec fn sealed(body: Seq<u8>, checksum: u32) -> Seq<u8> {
    body + spec_u32_to_le_bytes(checksum)
}

/// The persisted form of a table.
pub open spec fn encoded(table: Table) -> Seq<u8> {
    sealed(body_bytes(table), crc32_of(body_bytes(table)))
}

/// The tuple count that a byte string announces in its header.
pub open spec fn header_size(bytes: Seq<u8>) -> u64 {
    spec_u64_from_le_bytes(bytes.subrange(0, 8))
}

/// The column count that a byte string announces in its header.
pub open spec fn header_arity(bytes: Seq<u8>) -> u64 {
    spec_u64_from_le_bytes(bytes.subrange(8, 16))
}

/// The length of the part that the checksum covers, by the header.
pub open spec fn body_len(bytes: Seq<u8>) -> int {
    16 + 4 * (header_size(bytes) * header_arity(bytes))
}

/// A table as read from the bytes, with the checksum stored after it.
pub ghost struct Frame {
    pub table: Table,
    pub stored: u32,
}

/// The frame that `bytes` begin with: `Truncated` where they end too soon,
/// `Oversize` where they are long enough but a header field does not fit
/// a `usize`.
pub open spec fn framed(bytes: Seq<u8>) -> Result<Frame, ReadError> {
    if bytes.len() < 16 || bytes.len() < body_len(bytes) + 4 {
        Err(ReadError::Truncated)
    } else if header_size(bytes) > usize::MAX || header_arity(bytes) > usize::MAX {
        Err(ReadError::Oversize)
    } else {
        Ok(
            Frame {
                table: Table {
                    size: header_size(bytes) as usize,
                    arity: header_arity(bytes) as usize,
                    data: words_of(
                        bytes.subrange(16, body_len(bytes)),
                        header_size(bytes) * header_arity(bytes),
                    ),
                },
                stored: spec_u32_from_le_bytes(
                    bytes.subrange(body_len(bytes), body_len(bytes) + 4),
                ),
            },
        )
    }
}

/// The table of a frame whose stored checksum is `actual`, and the
/// mismatch otherwise.
pub open spec fn checked(frame: Frame, actual: u32) -> Result<Table, ReadError> {
    if frame.stored == actual {
        Ok(frame.table)
    } else {
        Err(ReadError::Checksum(ChecksumError { expected: frame.stored, actual }))
    }
}

/// What reading `bytes` yields: the table they hold, or the first thing
/// that is wrong with them.
pub open spec fn decoded(bytes: Seq<u8>) -> Result<Table, ReadError> {
    match framed(bytes) {
        Err(e) => Err(e),
        Ok(frame) => checked(frame, crc32_of(bytes.subrange(0, body_len(bytes)))),
    }
}

/// A column value comes back from its four bytes.
pub proof fn lemma_word_round_trip(x: i32)
    ensures
        word_bytes(x).len() == 4,
        word_of(word_bytes(x)) == x,
{
    lemma_auto_spec_u32_to_from_le_bytes();
    let u = x as u32;
    assert(spec_u32_to_le_bytes(u).len() == 4);
    assert(u as i32 == x) by (bit_vector)
        requires
            u == x as u32,
    ;
}

/// Four bytes come back from the column value they stand for.
pub proof fn lemma_bytes_round_trip(bytes: Seq<u8>)
    requires
        bytes.len() == 4,
    ensures
        word_bytes(word_of(bytes)) == bytes,
{
    lemma_auto_spec_u32_to_from_le_bytes();
    let u = spec_u32_from_le_bytes(bytes);
    let x = u as i32;
    assert(x as u32 == u) by (bit_vector)
        requires
            x == u as i32,
    ;
}

/// Each column value takes four bytes, at four times its index.
pub proof fn lemma_words_layout(data: Seq<i32>)
    ensures
        words_bytes(data).len() == 4 * data.len(),
        forall|i: int|
            0 <= i < data.len() ==> #[trigger] words_bytes(data).subrange(4 * i, 4 * i + 4)
                == word_bytes(data[i]),
    decreases data.len(),
{
    if data.len() > 0 {
        let front = data.drop_last();
        lemma_words_layout(front);
        lemma_word_round_trip(data.last());
        let all = words_bytes(data);
        assert forall|i: int| 0 <= i < data.len() implies #[trigger] all.subrange(4 * i, 4 * i + 4)
            == word_bytes(data[i]) by {
            if i < front.len() {
                assert(all.subrange(4 * i, 4 * i + 4) =~= words_bytes(front).subrange(
                    4 * i,
                    4 * i + 4,
                ));
            } else {
                assert(all.subrange(4 * i, 4 * i + 4) =~= word_bytes(data.last()));
            }
        }
    }
}

/// Column values come back from their bytes.
pub proof fn lemma_words_round_trip(data: Seq<i32>)
    ensures
        words_of(words_bytes(data), data.len() as int) == data,
{
    lemma_words_layout(data);
    assert forall|i: int| 0 <= i < data.len() implies words_of(
        words_bytes(data),
        data.len() as int,
    )[i] == data[i] by {
        lemma_word_round_trip(data[i]);
    }
    assert(words_of(words_bytes(data), data.len() as int) =~= data);
}

/// How the persisted form of a well-formed table reads back, up to the
/// checksum: the header fields and the tuple data come back as they were,
/// and the stored checksum is that of the body.
pub proof fn lemma_encoded_frame(table: Table)
    requires
        table.data.len() == table.size * table.arity,
    ensures
        encoded(table).len() == 20 + 4 * table.data.len(),
        body_len(encoded(table)) == 16 + 4 * table.data.len(),
        encoded(table).subrange(0, body_len(encoded(table))) == body_bytes(table),
        framed(encoded(table)) == Ok::<Frame, ReadError>(
            Frame { table, stored: crc32_of(body_bytes(table)) },
        ),
{
    lemma_auto_spec_u32_to_from_le_bytes();
    lemma_auto_spec_u64_to_from_le_bytes();
    lemma_words_layout(table.data);
    lemma_words_round_trip(table.data);
    let bytes = encoded(table);
    let body = body_bytes(table);
    let n = table.data.len() as int;
    assert(bytes.subrange(0, 8) =~= spec_u64_to_le_bytes(table.size as u64));
    assert(bytes.subrange(8, 16) =~= spec_u64_to_le_bytes(table.arity as u64));
    assert(header_size(bytes) == table.size);
    assert(header_arity(bytes) == table.arity);
    assert(bytes.subrange(16, 16 + 4 * n) =~= words_bytes(table.data));
    assert(bytes.subrange(0, 16 + 4 * n) =~= body);
    assert(bytes.subrange(16 + 4 * n, 20 + 4 * n) =~= spec_u32_to_le_bytes(crc32_of(body)));
    assert(framed(bytes).unwrap().table.data =~= table.data);
}

/// Reading what was written gives back the relation that was written.
pub proof fn lemma_round_trip(table: Table)
    requires
        table.data.len() == table.size * table.arity,
    ensures
        decoded(encoded(table)) == Ok::<Table, ReadError>(table),
{
    lemma_encoded_frame(table);
}

/// A byte changed in the tuple data of a persisted relation does not go
/// unnoticed. Header and stored checksum read as before, and the tuple data
/// read differs from what was written. So reading fails with a checksum
/// error that carries the stored checksum and the differing one of the
/// changed bytes, unless the two checksums happen to collide; and even then
/// the relation that was written is not what comes back.
pub proof fn lemma_tampered_data(table: Table, at: int, byte: u8)
    requires
        table.data.len() == table.size * table.arity,
        16 <= at < 16 + 4 * table.data.len(),
        byte != encoded(table)[at],
    ensures
        ({
            let tampered = encoded(table).update(at, byte);
            let expected = crc32_of(body_bytes(table));
            let actual = crc32_of(tampered.subrange(0, 16 + 4 * (table.data.len() as int)));
            &&& decoded(tampered) != Ok::<Table, ReadError>(table)
            &&& actual != expected ==> decoded(tampered) == Err::<Table, ReadError>(
                ReadError::Checksum(ChecksumError { expected, actual }),
            )
            &&& actual == expected ==> decoded(tampered) is Ok
        }),
{
    lemma_encoded_frame(table);
    lemma_words_layout(table.data);
    let bytes = encoded(table);
    let tampered = bytes.update(at, byte);
    let n = table.data.len() as int;
    let i = (at - 16) / 4;
    assert(tampered.subrange(0, 8) =~= bytes.subrange(0, 8));
    assert(tampered.subrange(8, 16) =~= bytes.subrange(8, 16));
    assert(tampered.subrange(16 + 4 * n, 20 + 4 * n) =~= bytes.subrange(16 + 4 * n, 20 + 4 * n));
    let was = bytes.subrange(16, 16 + 4 * n).subrange(4 * i, 4 * i + 4);
    let now = tampered.subrange(16, 16 + 4 * n).subrange(4 * i, 4 * i + 4);
    assert(was[at - 16 - 4 * i] == bytes[at]);
    assert(now[at - 16 - 4 * i] == byte);
    lemma_bytes_round_trip(was);
    lemma_bytes_round_trip(now);
    let read = framed(tampered).unwrap().table.data;
    assert(read[i] == word_of(now));
    assert(framed(bytes).unwrap().table.data[i] == word_of(was));
}

/// Appends the four bytes of `checksum` to a body.
pub fn seal(body: Vec<u8>, checksum: u32) -> (bytes: Vec<u8>)
    ensures
        bytes@ == sealed(body@, checksum),
{
    let mut bytes = body;
    let mut tail = u32_to_le_bytes(checksum);
    bytes.append(&mut tail);
    bytes
}

impl Relation {
    /// The part of the persisted form that the checksum covers: `size` and
    /// `arity` as 64-bit fields, then every column value as a 32-bit word,
    /// all little-endian.
    pub fn encode_body(&self) -> (body: Vec<u8>)
        ensures
            body@ == body_bytes(self@),
    {
        let mut out = u64_to_le_bytes(self.size as u64);
        let mut field = u64_to_le_bytes(self.arity as u64);
        out.append(&mut field);
        let ghost header = out@;
        let mut i: usize = 0;
        proof {
            assert(header + words_bytes(self.data@.take(0)) =~= header);
        }
        while i < self.data.len()
            invariant
                i <= self.data.len(),
                header == spec_u64_to_le_bytes(self.size as u64) + spec_u64_to_le_bytes(
                    self.arity as u64,
                ),
                out@ == header + words_bytes(self.data@.take(i as int)),
            decreases self.data.len() - i,
        {
            let value = self.data[i];
            let mut word = u32_to_le_bytes(#[verifier::truncate] (value as u32));
            out.append(&mut word);
            proof {
                assert(self.data@.take(i + 1).drop_last() =~= self.data@.take(i as int));
                assert(out@ =~= header + words_bytes(self.data@.take(i + 1)));
            }
            i += 1;
        }
        proof {
            assert(self.data@.take(self.data.len() as int) =~= self.data@);
        }
        out
    }

    /// The persisted form of the relation: its body, then the CRC-32 of
    /// the body.
    pub fn encode(&self) -> (bytes: Vec<u8>)
        ensures
            bytes@ == encoded(self@),
    {
        let body = self.encode_body();
        let checksum = crc32(body.as_slice());
        seal(body, checksum)
    }
}

/// Reads header, tuple data and stored checksum from the front of `bytes`,
/// without judging the checksum. Bytes after the checksum are not looked
/// at.
pub fn read_frame(bytes: &[u8]) -> (result: Result<(Relation, u32), ReadError>)
    ensures
        match framed(bytes@) {
            Ok(frame) => result is Ok && result.unwrap().0@ == frame.table && result.unwrap().1
                == frame.stored && result.unwrap().0.wf(),
            Err(e) => result is Err && result.unwrap_err() == e,
        },
{
    let len = bytes.len();
    if len < 20 {
        return Err(ReadError::Truncated);
    }
    let size = u64_from_le_bytes(slice_subrange(bytes, 0, 8));
    let arity = u64_from_le_bytes(slice_subrange(bytes, 8, 16));
    let room: usize = (len - 20) / 4;
    let product = size.checked_mul(arity);
    if product.is_none() {
        return Err(ReadError::Truncated);
    }
    let wide = product.unwrap();
    if wide > room as u64 {
        return Err(ReadError::Truncated);
    }
    if size > usize::MAX as u64 || arity > usize::MAX as u64 {
        return Err(ReadError::Oversize);
    }
    let count: usize = wide as usize;
    let ghost region = bytes@.subrange(16, 16 + 4 * count);
    let mut data: Vec<i32> = Vec::new();
    let mut i: usize = 0;
    while i < count
        invariant
            i <= count,
            20 + 4 * count <= bytes.len(),
            region == bytes@.subrange(16, 16 + 4 * count),
            data@ == words_of(region, i as int),
        decreases count - i,
    {
        let word = u32_from_le_bytes(slice_subrange(bytes, 16 + 4 * i, 20 + 4 * i));
        data.push(#[verifier::truncate] (word as i32));
        proof {
            assert(region.subrange(4 * i, 4 * i + 4) =~= bytes@.subrange(16 + 4 * i, 20 + 4 * i));
            assert(data@ =~= words_of(region, i + 1));
        }
        i += 1;
    }
    let stored = u32_from_le_bytes(slice_subrange(bytes, 16 + 4 * count, 20 + 4 * count));
    Ok((Relation { data, size: size as usize, arity: arity as usize }, stored))
}

/// Judges a frame by the checksum computed from its bytes: the relation
/// where that is the stored one, and else both values in an error.
pub fn check_frame(relation: Relation, expected: u32, actual: u32) -> (result: Result<
    Relation,
    ReadError,
>)
    ensures
        expected == actual ==> result == Ok::<Relation, ReadError>(relation),
        expected != actual ==> result == Err::<Relation, ReadError>(
            ReadError::Checksum(ChecksumError { expected, actual }),
        ),
{
    if expected != actual {
        return Err(ReadError::Checksum(ChecksumError { expected, actual }));
    }
    Ok(relation)
}

/// Reads a relation from its persisted form and checks it against the
/// stored checksum. The tuples come back in the order in which they were
/// written; they are not sorted again.
pub fn decode(bytes: &[u8]) -> (result: Result<Relation, ReadError>)
    ensures
        match decoded(bytes@) {
            Ok(table) => result is Ok && result.unwrap()@ == table && result.unwrap().wf(),
            Err(e) => result is Err && result.unwrap_err() == e,
        },
{
    match read_frame(bytes) {
        Err(e) => Err(e),
        Ok((relation, stored)) => {
            proof {
                assert(bytes.len() == bytes@.len());
            }
            let covered: usize = 16 + 4 * relation.data.len();
            let actual = crc32(slice_subrange(bytes, 0, covered));
            check_frame(relation, stored, actual)
        },
    }
}

} // verus!
