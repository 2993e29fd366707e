//! The binary representation: back-to-back frames, each a magic number, a
//! big-endian body length, and a body of fixed-width big-endian fields
//! followed by a length-prefixed, quoted UTF-8 description.
use vstd::prelude::*;
use vstd::utf8::{decode_utf8, encode_utf8, valid_utf8};
use crate::error::{CustomError, Fault};
use crate::format::DataFormat;
use crate::models::{Record, RecordView, Status, TxType, records_view};
use crate::text::{chars_of, string_of, strip_quotes, trim, trim_end, trim_start, unquoted};

verus! {

/// The records of a binary file.
#[derive(Debug)]
pub struct BinFormat {
    pub bin_rows: Vec<Record>,
}

/// The four bytes that open every frame, "YPBN".
pub open spec fn magic() -> Seq<u8> {
    seq![0x59u8, 0x50u8, 0x42u8, 0x4eu8]
}

/// Bytes of a body before the description: six integers, two ordinals and
/// the description's length.
pub open spec fn fixed_body_len() -> int {
    46
}

/// `v` as four big-endian bytes.
pub open spec fn be_u32(v: u32) -> Seq<u8> {
    seq![(v >> 24) as u8, (v >> 16) as u8, (v >> 8) as u8, v as u8]
}

/// `v` as eight big-endian bytes.
pub open spec fn be_u64(v: u64) -> Seq<u8> {
    seq![
        (v >> 56) as u8,
        (v >> 48) as u8,
        (v >> 40) as u8,
        (v >> 32) as u8,
        (v >> 24) as u8,
        (v >> 16) as u8,
        (v >> 8) as u8,
        v as u8,
    ]
}

/// The big-endian number in `b[at..at + 4]`.
pub open spec fn read_u32(b: Seq<u8>, at: int) -> u32 {
    (b[at] as u32) << 24 | (b[at + 1] as u32) << 16 | (b[at + 2] as u32) << 8 | (b[at + 3] as u32)
}

/// The big-endian number in `b[at..at + 8]`.
pub open spec fn read_u64(b: Seq<u8>, at: int) -> u64 {
    (b[at] as u64) << 56 | (b[at + 1] as u64) << 48 | (b[at + 2] as u64) << 40 | (b[at + 3] as u64)
        << 32 | (b[at + 4] as u64) << 24 | (b[at + 5] as u64) << 16 | (b[at + 6] as u64) << 8 | (
    b[at + 7] as u64)
}

/// A description as written: its UTF-8 bytes between two quote bytes.
pub open spec fn quoted(d: Seq<char>) -> Seq<u8> {
    seq![0x22u8] + encode_utf8(d) + seq![0x22u8]
}

/// Whether the frame of `r` can state its lengths in 32 bits.
pub open spec fn frame_fits(r: RecordView) -> bool {
    fixed_body_len() + quoted(r.description).len() <= u32::MAX
}

/// The frame that encodes `r`.
#[verifier::opaque]
pub open spec fn frame_of(r: RecordView) -> Seq<u8> {
    let q = quoted(r.description);
    magic() + be_u32((fixed_body_len() + q.len()) as u32) + be_u64(r.tx_id) + seq![
        r.tx_type.ordinal(),
    ] + be_u64(r.from_user_id) + be_u64(r.to_user_id) + be_u64(r.amount) + be_u64(r.timestamp)
        + seq![r.status.ordinal()] + be_u32(q.len() as u32) + q
}

/// The frames of `rows`, in order.
pub open spec fn frames_of(rows: Seq<RecordView>) -> Seq<u8>
    decreases rows.len(),
{
    if rows.len() == 0 {
        seq![]
    } else {
        frames_of(rows.drop_last()) + frame_of(rows.last())
    }
}

/// The declared length of the frame that starts `b`, header included.
pub open spec fn frame_len(b: Seq<u8>) -> int {
    8 + read_u32(b, 4)
}

/// The declared length of the description in the frame that starts `b`.
pub open spec fn desc_len(b: Seq<u8>) -> int {
    read_u32(b, 50) as int
}

/// The description bytes of the frame that starts `b`.
pub open spec fn desc_bytes(b: Seq<u8>) -> Seq<u8> {
    b.subrange(54, 54 + desc_len(b))
}

/// Why the frame that starts `b` cannot be read; `None` when it can.
pub open spec fn frame_error(b: Seq<u8>) -> Option<Fault> {
    if b.len() < 4 || b.take(4) != magic() {
        Some(Fault::InvalidData)
    } else if b.len() < 8 || b.len() < frame_len(b) {
        Some(Fault::UnexpectedEof)
    } else if frame_len(b) < 8 + fixed_body_len() || frame_len(b) != 8 + fixed_body_len()
        + desc_len(b) {
        Some(Fault::InvalidData)
    } else if !valid_utf8(desc_bytes(b)) {
        Some(Fault::InvalidData)
    } else if TxType::of_ordinal(b[16]) is None {
        Some(Fault::InvalidEnum("TX_TYPE"@))
    } else if Status::of_ordinal(b[49]) is None {
        Some(Fault::InvalidEnum("STATUS"@))
    } else {
        None
    }
}

/// The record in the frame that starts `b`, where `frame_error(b)` is `None`.
#[verifier::opaque]
pub open spec fn frame_record(b: Seq<u8>) -> RecordView {
    RecordView {
        tx_id: read_u64(b, 8),
        tx_type: TxType::of_ordinal(b[16]).unwrap(),
        from_user_id: read_u64(b, 17),
        to_user_id: read_u64(b, 25),
        amount: read_u64(b, 33),
        timestamp: read_u64(b, 41),
        status: Status::of_ordinal(b[49]).unwrap(),
        description: strip_quotes(decode_utf8(desc_bytes(b))),
    }
}

/// What decoding the binary file `b` gives: the records of its frames in
/// order, or the fault of the first frame that cannot be read. Empty input
/// has no frames.
pub open spec fn decode_bin(b: Seq<u8>) -> Result<Seq<RecordView>, Fault>
    decreases b.len(),
{
    if b.len() == 0 {
        Ok(seq![])
    } else {
        match frame_error(b) {
            Some(f) => Err(f),
            None => match decode_bin(b.skip(frame_len(b))) {
                Ok(rest) => Ok(seq![frame_record(b)] + rest),
                Err(f) => Err(f),
            },
        }
    }
}

/// Whether every record's frame can state its lengths in 32 bits.
pub open spec fn all_fit(rows: Seq<RecordView>) -> bool {
    forall|i: int| 0 <= i < rows.len() ==> frame_fits(#[trigger] rows[i])
}

fn push_u32(out: &mut Vec<u8>, v: u32)
    ensures
        final(out)@ == old(out)@ + be_u32(v),
{
    out.push((v >> 24) as u8);
    out.push((v >> 16) as u8);
    out.push((v >> 8) as u8);
    out.push(v as u8);
    proof {
        assert(final(out)@ =~= old(out)@ + be_u32(v));
    }
}

fn push_u64(out: &mut Vec<u8>, v: u64)
    ensures
        final(out)@ == old(out)@ + be_u64(v),
{
    out.push((v >> 56) as u8);
    out.push((v >> 48) as u8);
    out.push((v >> 40) as u8);
    out.push((v >> 32) as u8);
    out.push((v >> 24) as u8);
    out.push((v >> 16) as u8);
    out.push((v >> 8) as u8);
    out.push(v as u8);
    proof {
        assert(final(out)@ =~= old(out)@ + be_u64(v));
    }
}

fn get_u32(b: &[u8], at: usize) -> (r: u32)
    requires
        at + 4 <= b@.len(),
    ensures
        r == read_u32(b@, at as int),
{
    (b[at] as u32) << 24 | (b[at + 1] as u32) << 16 | (b[at + 2] as u32) << 8 | (b[at + 3] as u32)
}

fn get_u64(b: &[u8], at: usize) -> (r: u64)
    requires
        at + 8 <= b@.len(),
    ensures
        r == read_u64(b@, at as int),
{
    (b[at] as u64) << 56 | (b[at + 1] as u64) << 48 | (b[at + 2] as u64) << 40 | (b[at + 3] as u64)
        << 32 | (b[at + 4] as u64) << 24 | (b[at + 5] as u64) << 16 | (b[at + 6] as u64) << 8 | (
    b[at + 7] as u64)
}

/// Relies on `std::str::from_utf8`: it succeeds exactly on valid UTF-8,
/// and the text it gives is what those bytes encode.
#[verifier::external_body]
pub(crate) fn utf8_text(b: &[u8]) -> (r: Option<&str>)
    ensures
        r is Some <==> valid_utf8(b@),
        r matches Some(s) ==> s@ == decode_utf8(b@),
{
    std::str::from_utf8(b).ok()
}

/// Appends the frame of `rec`.
fn push_frame(out: &mut Vec<u8>, rec: &Record)
    requires
        frame_fits(rec@),
    ensures
        final(out)@ == old(out)@ + frame_of(rec@),
{
    let d = rec.description.as_str().as_bytes();
    let q_len: u32 = (d.len() + 2) as u32;
    let ghost q = quoted(rec.description@);
    let ghost start = out@;
    out.push(0x59u8);
    out.push(0x50u8);
    out.push(0x42u8);
    out.push(0x4eu8);
    proof {
        assert(out@ =~= start + magic());
    }
    push_u32(out, 46 + q_len);
    push_u64(out, rec.tx_id);
    out.push(rec.tx_type.to_ordinal());
    push_u64(out, rec.from_user_id);
    push_u64(out, rec.to_user_id);
    push_u64(out, rec.amount);
    push_u64(out, rec.timestamp);
    out.push(rec.status.to_ordinal());
    push_u32(out, q_len);
    let ghost before_q = out@;
    out.push(0x22u8);
    let mut i: usize = 0;
    while i < d.len()
        invariant
            i <= d@.len(),
            out@ == before_q + seq![0x22u8] + d@.take(i as int),
        decreases d.len() - i,
    {
        out.push(d[i]);
        i = i + 1;
        proof {
            assert(out@ =~= before_q + seq![0x22u8] + d@.take(i as int));
        }
    }
    out.push(0x22u8);
    proof {
        assert(d@.take(d@.len() as int) =~= d@);
        assert(q =~= seq![0x22u8] + d@ + seq![0x22u8]);
        assert(out@ =~= before_q + q);
        reveal(frame_of);
        assert(final(out)@ =~= old(out)@ + frame_of(rec@));
    }
}

/// Reads the frame that starts `b`: its record and its length.
fn read_frame(b: &[u8]) -> (r: Result<(Record, usize), CustomError>)
    requires
        b@.len() > 0,
    ensures
        match r {
            Ok((rec, n)) => frame_error(b@) is None && rec@ == frame_record(b@) && n == frame_len(
                b@,
            ) && 0 < n <= b@.len(),
            Err(e) => frame_error(b@) == Some(e.fault()),
        },
{
    reveal(frame_record);
    if b.len() < 4 || b[0] != 0x59u8 || b[1] != 0x50u8 || b[2] != 0x42u8 || b[3] != 0x4eu8 {
        proof {
            if b@.len() >= 4 && b@.take(4) == magic() {
                assert(b@.take(4)[0] == b@[0] && b@.take(4)[1] == b@[1]);
                assert(b@.take(4)[2] == b@[2] && b@.take(4)[3] == b@[3]);
            }
        }
        return Err(CustomError::InvalidData(String::from_str("wrong magic number")));
    }
    proof {
        assert(b@.take(4) =~= magic());
    }
    if b.len() < 8 {
        return Err(CustomError::UnexpectedEof);
    }
    let body = get_u32(b, 4);
    if body as usize > b.len() - 8 {
        return Err(CustomError::UnexpectedEof);
    }
    if body < 46 {
        return Err(CustomError::InvalidData(String::from_str("frame shorter than its fields")));
    }
    let n = get_u32(b, 50);
    if body as u64 != 46 + n as u64 {
        return Err(CustomError::InvalidData(String::from_str("frame length disagrees with its fields")));
    }
    let raw = vstd::slice::slice_subrange(b, 54, 54 + n as usize);
    let text = match utf8_text(raw) {
        Some(t) => t,
        None => {
            return Err(CustomError::InvalidData(String::from_str("description is not UTF-8")));
        },
    };
    let tx_type = match TxType::from_ordinal(b[16]) {
        Some(t) => t,
        None => {
            return Err(CustomError::InvalidEnum(String::from_str("TX_TYPE")));
        },
    };
    let status = match Status::from_ordinal(b[49]) {
        Some(s) => s,
        None => {
            return Err(CustomError::InvalidEnum(String::from_str("STATUS")));
        },
    };
    let description = string_of(&unquoted(&chars_of(text)));
    let rec = Record {
        tx_id: get_u64(b, 8),
        tx_type,
        from_user_id: get_u64(b, 17),
        to_user_id: get_u64(b, 25),
        amount: get_u64(b, 33),
        timestamp: get_u64(b, 41),
        status,
        description,
    };
    Ok((rec, 8 + body as usize))
}

proof fn lemma_read_u32(b: Seq<u8>, at: int, v: u32)
    requires
        0 <= at,
        at + 4 <= b.len(),
        b.subrange(at, at + 4) == be_u32(v),
    ensures
        read_u32(b, at) == v,
{
    let (b0, b1, b2, b3) = (b[at], b[at + 1], b[at + 2], b[at + 3]);
    assert(b0 == b.subrange(at, at + 4)[0] && b1 == b.subrange(at, at + 4)[1]);
    assert(b2 == b.subrange(at, at + 4)[2] && b3 == b.subrange(at, at + 4)[3]);
    assert(b0 == (v >> 24) as u8 && b1 == (v >> 16) as u8 && b2 == (v >> 8) as u8 && b3 == v as u8
        ==> (b0 as u32) << 24 | (b1 as u32) << 16 | (b2 as u32) << 8 | (b3 as u32) == v)
        by (bit_vector);
}

proof fn lemma_read_u64(b: Seq<u8>, at: int, v: u64)
    requires
        0 <= at,
        at + 8 <= b.len(),
        b.subrange(at, at + 8) == be_u64(v),
    ensures
        read_u64(b, at) == v,
{
    let w = b.subrange(at, at + 8);
    let (b0, b1, b2, b3) = (b[at], b[at + 1], b[at + 2], b[at + 3]);
    let (b4, b5, b6, b7) = (b[at + 4], b[at + 5], b[at + 6], b[at + 7]);
    assert(b0 == w[0] && b1 == w[1] && b2 == w[2] && b3 == w[3]);
    assert(b4 == w[4] && b5 == w[5] && b6 == w[6] && b7 == w[7]);
    assert(b0 == (v >> 56) as u8 && b1 == (v >> 48) as u8 && b2 == (v >> 40) as u8 && b3 == (v
        >> 32) as u8 && b4 == (v >> 24) as u8 && b5 == (v >> 16) as u8 && b6 == (v >> 8) as u8
        && b7 == v as u8 ==> (b0 as u64) << 56 | (b1 as u64) << 48 | (b2 as u64) << 40 | (
    b3 as u64) << 32 | (b4 as u64) << 24 | (b5 as u64) << 16 | (b6 as u64) << 8 | (b7 as u64)
        == v) by (bit_vector);
}

pub(crate) proof fn lemma_encode_utf8_concat(a: Seq<char>, b: Seq<char>)
    ensures
        encode_utf8(a + b) == encode_utf8(a) + encode_utf8(b),
    decreases a.len(),
{
    if a.len() == 0 {
        assert(a + b =~= b);
    } else {
        assert((a + b).drop_first() =~= a.drop_first() + b);
        lemma_encode_utf8_concat(a.drop_first(), b);
        assert(encode_utf8(a + b) =~= encode_utf8(a) + encode_utf8(b));
    }
}

/// The quoted bytes of a description are valid UTF-8, read back as the
/// description between two quotes, and `strip_quotes` gives it back.
proof fn lemma_quoted(d: Seq<char>)
    ensures
        valid_utf8(quoted(d)),
        decode_utf8(quoted(d)) == seq!['"'] + d + seq!['"'],
        strip_quotes(decode_utf8(quoted(d))) == d,
        quoted(d).len() == encode_utf8(d).len() + 2,
{
    let qc = seq!['"'];
    assert(encode_utf8(qc) =~= seq![0x22u8]) by {
        assert(qc.drop_first() =~= Seq::<char>::empty());
        assert(('"' as u32) == 0x22u32);
        assert(encode_utf8(Seq::<char>::empty()) =~= Seq::<u8>::empty());
        reveal_with_fuel(encode_utf8, 2);
        assert((0x22u32 & 0x7f) as u8 == 0x22u8) by (bit_vector);
    }
    lemma_encode_utf8_concat(qc, d);
    lemma_encode_utf8_concat(qc + d, qc);
    assert(encode_utf8(qc + d + qc) =~= quoted(d));
    vstd::utf8::encode_utf8_valid_utf8(qc + d + qc);
    vstd::utf8::encode_utf8_decode_utf8(qc + d + qc);
    let s = qc + d + qc;
    assert(s[0] == '"' && s.last() == '"');
    assert(trim(s) == s) by {
        reveal_with_fuel(trim_start, 1);
        reveal_with_fuel(trim_end, 1);
    }
    assert(s.drop_first().drop_last() =~= d);
}

proof fn lemma_split(b: Seq<u8>, p: Seq<u8>, f: Seq<u8>)
    requires
        (p + f).len() <= b.len(),
        b.take((p + f).len() as int) == p + f,
    ensures
        b.take(p.len() as int) == p,
        b.subrange(p.len() as int, (p.len() + f.len()) as int) == f,
{
    assert(b.take(p.len() as int) =~= (p + f).take(p.len() as int));
    assert((p + f).take(p.len() as int) =~= p);
    assert forall|k: int| 0 <= k < f.len() implies b.subrange(
        p.len() as int,
        (p.len() + f.len()) as int,
    )[k] == f[k] by {
        assert(b[p.len() + k] == b.take((p + f).len() as int)[p.len() + k]);
    }
    assert(b.subrange(p.len() as int, (p.len() + f.len()) as int) =~= f);
}

/// Where each field of the frame of `r` stands.
#[verifier::spinoff_prover]
proof fn lemma_frame_layout(r: RecordView, rest: Seq<u8>)
    ensures
        ({
            let q = quoted(r.description);
            let b = frame_of(r) + rest;
            &&& frame_of(r).len() == 54 + q.len()
            &&& b.take(4) == magic()
            &&& b.subrange(4, 8) == be_u32((fixed_body_len() + q.len()) as u32)
            &&& b.subrange(8, 16) == be_u64(r.tx_id)
            &&& b.subrange(16, 17) == seq![r.tx_type.ordinal()]
            &&& b.subrange(17, 25) == be_u64(r.from_user_id)
            &&& b.subrange(25, 33) == be_u64(r.to_user_id)
            &&& b.subrange(33, 41) == be_u64(r.amount)
            &&& b.subrange(41, 49) == be_u64(r.timestamp)
            &&& b.subrange(49, 50) == seq![r.status.ordinal()]
            &&& b.subrange(50, 54) == be_u32(q.len() as u32)
            &&& b.subrange(54, 54 + q.len() as int) == q
        }),
{
    let q = quoted(r.description);
    let body = (fixed_body_len() + q.len()) as u32;
    let pre0 = magic();
    let pre1 = pre0 + be_u32(body);
    let pre2 = pre1 + be_u64(r.tx_id);
    let pre3 = pre2 + seq![r.tx_type.ordinal()];
    let pre4 = pre3 + be_u64(r.from_user_id);
    let pre5 = pre4 + be_u64(r.to_user_id);
    let pre6 = pre5 + be_u64(r.amount);
    let pre7 = pre6 + be_u64(r.timestamp);
    let pre8 = pre7 + seq![r.status.ordinal()];
    let pre9 = pre8 + be_u32(q.len() as u32);
    let f = pre9 + q;
    assert(f == frame_of(r)) by {
        reveal(frame_of);
    }
    let b = f + rest;
    assert(b.take(f.len() as int) =~= f);
    lemma_split(b, pre9, q);
    lemma_split(b, pre8, be_u32(q.len() as u32));
    lemma_split(b, pre7, seq![r.status.ordinal()]);
    lemma_split(b, pre6, be_u64(r.timestamp));
    lemma_split(b, pre5, be_u64(r.amount));
    lemma_split(b, pre4, be_u64(r.to_user_id));
    lemma_split(b, pre3, be_u64(r.from_user_id));
    lemma_split(b, pre2, seq![r.tx_type.ordinal()]);
    lemma_split(b, pre1, be_u64(r.tx_id));
    lemma_split(b, pre0, be_u32(body));
}

/// Reading the frame of `r`, whatever follows it, gives `r` back and ends
/// where the frame ends.
#[verifier::spinoff_prover]
proof fn lemma_frame(r: RecordView, rest: Seq<u8>)
    requires
        frame_fits(r),
    ensures
        frame_error(frame_of(r) + rest) is None,
        frame_len(frame_of(r) + rest) == frame_of(r).len(),
        frame_record(frame_of(r) + rest) == r,
{
    let q = quoted(r.description);
    let body = (fixed_body_len() + q.len()) as u32;
    let b = frame_of(r) + rest;
    lemma_frame_layout(r, rest);
    lemma_quoted(r.description);
    lemma_read_u32(b, 4, body);
    lemma_read_u32(b, 50, q.len() as u32);
    lemma_read_u64(b, 8, r.tx_id);
    lemma_read_u64(b, 17, r.from_user_id);
    lemma_read_u64(b, 25, r.to_user_id);
    lemma_read_u64(b, 33, r.amount);
    lemma_read_u64(b, 41, r.timestamp);
    assert(b[16] == b.subrange(16, 17)[0]);
    assert(b[49] == b.subrange(49, 50)[0]);
    assert(desc_bytes(b) == q);
    reveal(frame_record);
}

proof fn lemma_frames_first(rows: Seq<RecordView>)
    requires
        rows.len() > 0,
    ensures
        frames_of(rows) == frame_of(rows[0]) + frames_of(rows.drop_first()),
    decreases rows.len(),
{
    if rows.len() == 1 {
        assert(rows.drop_last() =~= Seq::<RecordView>::empty());
        assert(rows.drop_first() =~= Seq::<RecordView>::empty());
        assert(frames_of(rows) =~= frame_of(rows[0]) + frames_of(rows.drop_first()));
    } else {
        lemma_frames_first(rows.drop_last());
        assert(rows.drop_last().drop_first() =~= rows.drop_first().drop_last());
        assert(frames_of(rows) =~= frame_of(rows[0]) + frames_of(rows.drop_first()));
    }
}

/// Decoding what `write_to` writes gives the records back, field for field
/// and in order.
pub(crate) proof fn lemma_bin_round_trip(rows: Seq<RecordView>)
    requires
        all_fit(rows),
    ensures
        decode_bin(frames_of(rows)) == Ok::<Seq<RecordView>, Fault>(rows),
    decreases rows.len(),
{
    if rows.len() == 0 {
        assert(rows =~= Seq::<RecordView>::empty());
    } else {
        let tail = rows.drop_first();
        assert(all_fit(tail)) by {
            assert forall|i: int| 0 <= i < tail.len() implies frame_fits(#[trigger] tail[i]) by {
                assert(tail[i] == rows[i + 1]);
            }
        }
        assert(frame_fits(rows[0]));
        lemma_frames_first(rows);
        lemma_frame(rows[0], frames_of(tail));
        lemma_bin_round_trip(tail);
        let b = frames_of(rows);
        lemma_frame_layout(rows[0], frames_of(tail));
        assert(b.len() > 0);
        assert(b.skip(frame_len(b)) =~= frames_of(tail));
        assert(seq![rows[0]] + tail =~= rows);
        assert(frame_error(b) is None);
        assert(decode_bin(b) == Ok::<Seq<RecordView>, Fault>(seq![frame_record(b)] + tail));
    }
}

impl From<Vec<Record>> for BinFormat {
    fn from(records: Vec<Record>) -> (r: BinFormat)
        ensures
            r.bin_rows == records,
    {
        BinFormat { bin_rows: records }
    }
}

impl vstd::std_specs::convert::FromSpecImpl<Vec<Record>> for BinFormat {
    open spec fn obeys_from_spec() -> bool {
        true
    }

    open spec fn from_spec(records: Vec<Record>) -> BinFormat {
        BinFormat { bin_rows: records }
    }
}

impl DataFormat for BinFormat {
    open spec fn rows(&self) -> Seq<RecordView> {
        records_view(self.bin_rows@)
    }

    fn from_read(bytes: &[u8]) -> (r: Result<BinFormat, CustomError>)
        ensures
            match r {
                Ok(f) => decode_bin(bytes@) == Ok::<Seq<RecordView>, Fault>(f.rows()),
                Err(e) => decode_bin(bytes@) == Err::<Seq<RecordView>, Fault>(e.fault()),
            },
            bytes@.len() == 0 ==> (r matches Ok(f) && f.rows().len() == 0),
            bytes@.len() >= 4 && bytes@.take(4) != magic() ==> (r matches Err(e) && e.fault()
                == Fault::InvalidData),
    {
        let mut rows: Vec<Record> = Vec::new();
        let mut pos: usize = 0;
        proof {
            assert(bytes@.skip(0) =~= bytes@);
            match decode_bin(bytes@) {
                Ok(all) => {
                    assert(records_view(rows@) + all =~= all);
                },
                Err(f) => {},
            }
        }
        while pos < bytes.len()
            invariant
                pos <= bytes@.len(),
                decode_bin(bytes@) == match decode_bin(bytes@.skip(pos as int)) {
                    Ok(rest) => Ok(records_view(rows@) + rest),
                    Err(f) => Err(f),
                },
            decreases bytes@.len() - pos,
        {
            let rest = vstd::slice::slice_subrange(bytes, pos, bytes.len());
            proof {
                assert(rest@ =~= bytes@.skip(pos as int));
            }
            match read_frame(rest) {
                Ok((rec, n)) => {
                    proof {
                        assert(bytes@.skip(pos as int).skip(n as int) =~= bytes@.skip(
                            pos + n,
                        ));
                        assert(records_view(rows@.push(rec)) =~= records_view(rows@).push(rec@));
                        assert(records_view(rows@).push(rec@) =~= records_view(rows@) + seq![
                            rec@,
                        ]);
                        match decode_bin(bytes@.skip(pos + n)) {
                            Ok(tail) => {
                                assert(records_view(rows@) + (seq![rec@] + tail) =~= records_view(
                                    rows@,
                                ) + seq![rec@] + tail);
                            },
                            Err(f) => {},
                        }
                    }
                    rows.push(rec);
                    pos = pos + n;
                },
                Err(e) => {
                    return Err(e);
                },
            }
        }
        proof {
            assert(bytes@.skip(pos as int) =~= Seq::<u8>::empty());
            assert(records_view(rows@) + Seq::<RecordView>::empty() =~= records_view(rows@));
        }
        Ok(BinFormat { bin_rows: rows })
    }

    fn write_to(&self, out: &mut Vec<u8>) -> (r: Result<(), CustomError>)
        ensures
            r is Ok <==> all_fit(self.rows()),
            r is Ok ==> final(out)@ == old(out)@ + frames_of(self.rows()),
            r matches Err(e) ==> final(out)@ == old(out)@ && e.fault() == Fault::InvalidData,
    {
        let mut buf: Vec<u8> = Vec::new();
        let ghost rows = self.rows();
        for i in 0..self.bin_rows.len()
            invariant
                rows == self.rows(),
                buf@ == frames_of(rows.take(i as int)),
                forall|j: int| 0 <= j < i ==> frame_fits(#[trigger] rows[j]),
                out@ == old(out)@,
        {
            let rec = &self.bin_rows[i];
            let d = rec.description.as_str().as_bytes();
            if d.len() > (u32::MAX - 48) as usize {
                proof {
                    assert(!frame_fits(rows[i as int]));
                }
                return Err(CustomError::InvalidData(String::from_str("description too long")));
            }
            proof {
                assert(rows[i as int] == rec@);
                assert(rows.take(i + 1).drop_last() =~= rows.take(i as int));
            }
            push_frame(&mut buf, rec);
        }
        proof {
            assert(rows.take(rows.len() as int) =~= rows);
        }
        out.append(&mut buf);
        Ok(())
    }
}

} // verus!
