//! The block-text representation: blocks of `KEY: value` lines, one block
//! per record, separated by comment lines (starting with `#`) or empty
//! lines.
use vstd::prelude::*;
use vstd::utf8::{decode_utf8, encode_utf8, valid_utf8};
use crate::error::{CustomError, Fault};
use crate::format::{DataFormat, push_bytes};
use crate::format::bin::utf8_text;
use crate::models::{Record, RecordView, Status, TxType, records_view};
use crate::text::{
    chars_of, dec_chars, digit_value, is_space, lemma_dec_chars_digits, parse_u64, parse_unsigned,
    push_dec, push_str, same_chars, slice_of, string_of, strip_quotes, trim, trim_start, trimmed,
    unquoted,
};

verus! {

/// The records of a block-text file.
#[derive(Debug)]
pub struct TxtFormat {
    pub txt_rows: Vec<Record>,
}

/// A line without the carriage return that ended it before its newline.
pub open spec fn strip_cr(line: Seq<char>) -> Seq<char> {
    if line.len() > 0 && line.last() == '\r' {
        line.drop_last()
    } else {
        line
    }
}

/// The complete lines of `s` (each without its line ending), and what
/// follows the last newline.
pub open spec fn split_lines(s: Seq<char>) -> (Seq<Seq<char>>, Seq<char>)
    decreases s.len(),
{
    if s.len() == 0 {
        (seq![], seq![])
    } else {
        let (done, open) = split_lines(s.drop_last());
        if s.last() == '\n' {
            (done.push(strip_cr(open)), seq![])
        } else {
            (done, open.push(s.last()))
        }
    }
}

/// The lines of `s` as `BufRead::lines` gives them: a last line without a
/// newline counts when it is not empty.
pub open spec fn lines_of(s: Seq<char>) -> Seq<Seq<char>> {
    let (done, open) = split_lines(s);
    if open.len() > 0 {
        done.push(open)
    } else {
        done
    }
}

/// Whether `line` closes a block: it is empty or a comment.
pub open spec fn is_separator(line: Seq<char>) -> bool {
    line.len() == 0 || line[0] == '#'
}

/// The index of the first `:` in `line`.
pub open spec fn first_colon(line: Seq<char>) -> Option<int>
    decreases line.len(),
{
    if line.len() == 0 {
        None
    } else {
        match first_colon(line.drop_last()) {
            Some(i) => Some(i),
            None => if line.last() == ':' {
                Some(line.len() - 1)
            } else {
                None
            },
        }
    }
}

/// The trimmed key and value of a `KEY: value` line; `None` without a colon.
pub open spec fn pair_of(line: Seq<char>) -> Option<(Seq<char>, Seq<char>)> {
    match first_colon(line) {
        Some(i) => Some((trim(line.take(i)), trim(line.skip(i + 1)))),
        None => None,
    }
}

/// The value of the last pair in `block` whose key is `key`.
pub open spec fn lookup(block: Seq<(Seq<char>, Seq<char>)>, key: Seq<char>) -> Option<Seq<char>>
    decreases block.len(),
{
    if block.len() == 0 {
        None
    } else if block.last().0 == key {
        Some(block.last().1)
    } else {
        lookup(block.drop_last(), key)
    }
}

/// The numeric field `key` of `block`.
pub open spec fn num_field(block: Seq<(Seq<char>, Seq<char>)>, key: Seq<char>) -> Result<u64, Fault> {
    match lookup(block, key) {
        None => Err(Fault::MissingField(key)),
        Some(v) => match parse_unsigned(v, 10) {
            Some(n) => Ok(n),
            None => Err(Fault::InvalidNumber(key)),
        },
    }
}

/// The `TX_TYPE` field of `block`.
pub open spec fn type_field(block: Seq<(Seq<char>, Seq<char>)>) -> Result<TxType, Fault> {
    match lookup(block, "TX_TYPE"@) {
        None => Err(Fault::MissingField("TX_TYPE"@)),
        Some(v) => match TxType::of_name(v) {
            Some(t) => Ok(t),
            None => Err(Fault::InvalidEnum("TX_TYPE"@)),
        },
    }
}

/// The `STATUS` field of `block`.
pub open spec fn status_field(block: Seq<(Seq<char>, Seq<char>)>) -> Result<Status, Fault> {
    match lookup(block, "STATUS"@) {
        None => Err(Fault::MissingField("STATUS"@)),
        Some(v) => match Status::of_name(v) {
            Some(s) => Ok(s),
            None => Err(Fault::InvalidEnum("STATUS"@)),
        },
    }
}

/// The `DESCRIPTION` field of `block`, its quotes stripped.
pub open spec fn desc_field(block: Seq<(Seq<char>, Seq<char>)>) -> Result<Seq<char>, Fault> {
    match lookup(block, "DESCRIPTION"@) {
        None => Err(Fault::MissingField("DESCRIPTION"@)),
        Some(v) => Ok(strip_quotes(v)),
    }
}

/// The record of a block; the first failing field, in the order
/// TX_ID, TX_TYPE, FROM_USER_ID, TO_USER_ID, AMOUNT, TIMESTAMP, STATUS,
/// DESCRIPTION, gives the error.
pub open spec fn record_of_block(block: Seq<(Seq<char>, Seq<char>)>) -> Result<RecordView, Fault> {
    match num_field(block, "TX_ID"@) {
        Err(f) => Err(f),
        Ok(tx_id) => match type_field(block) {
            Err(f) => Err(f),
            Ok(tx_type) => match num_field(block, "FROM_USER_ID"@) {
                Err(f) => Err(f),
                Ok(from_user_id) => match num_field(block, "TO_USER_ID"@) {
                    Err(f) => Err(f),
                    Ok(to_user_id) => match num_field(block, "AMOUNT"@) {
                        Err(f) => Err(f),
                        Ok(amount) => match num_field(block, "TIMESTAMP"@) {
                            Err(f) => Err(f),
                            Ok(timestamp) => match status_field(block) {
                                Err(f) => Err(f),
                                Ok(status) => match desc_field(block) {
                                    Err(f) => Err(f),
                                    Ok(description) => Ok(
                                        RecordView {
                                            tx_id,
                                            tx_type,
                                            from_user_id,
                                            to_user_id,
                                            amount,
                                            timestamp,
                                            status,
                                            description,
                                        },
                                    ),
                                },
                            },
                        },
                    },
                },
            },
        },
    }
}

/// What the decoder holds between lines: the records so far and the pairs
/// of the open block.
pub type ScanState = (Seq<RecordView>, Seq<(Seq<char>, Seq<char>)>);

/// The decoder's state after one more line.
pub open spec fn step(st: Result<ScanState, Fault>, line: Seq<char>) -> Result<ScanState, Fault> {
    match st {
        Err(f) => Err(f),
        Ok((rows, block)) => if is_separator(line) {
            if block.len() == 0 {
                Ok((rows, block))
            } else {
                match record_of_block(block) {
                    Ok(r) => Ok((rows.push(r), seq![])),
                    Err(f) => Err(f),
                }
            }
        } else {
            match pair_of(line) {
                Some(p) => Ok((rows, block.push(p))),
                None => Ok((rows, block)),
            }
        },
    }
}

/// The decoder's state after `lines`, from `st`.
pub open spec fn run(st: Result<ScanState, Fault>, lines: Seq<Seq<char>>) -> Result<ScanState, Fault>
    decreases lines.len(),
{
    if lines.len() == 0 {
        st
    } else {
        step(run(st, lines.drop_last()), lines.last())
    }
}

/// What decoding the block-text file `b` gives. A block that no separator
/// line closes, at the end of the file, yields no record.
pub open spec fn decode_txt(b: Seq<u8>) -> Result<Seq<RecordView>, Fault> {
    if !valid_utf8(b) {
        Err(Fault::InvalidData)
    } else {
        match run(Ok((seq![], seq![])), lines_of(decode_utf8(b))) {
            Ok((rows, _)) => Ok(rows),
            Err(f) => Err(f),
        }
    }
}

/// Lines joined into text, each followed by a newline.
pub open spec fn join_lines(lines: Seq<Seq<char>>) -> Seq<char>
    decreases lines.len(),
{
    if lines.len() == 0 {
        seq![]
    } else {
        join_lines(lines.drop_last()) + lines.last() + seq!['\n']
    }
}

/// A `KEY: value` line.
pub open spec fn field_line(key: Seq<char>, value: Seq<char>) -> Seq<char> {
    key + ": "@ + value
}

/// The comment line that opens the block of `r`, numbered `index + 1`.
pub open spec fn header_line(index: nat, r: RecordView) -> Seq<char> {
    "# Record "@ + dec_chars(index + 1) + " ("@ + r.tx_type.name() + ")"@
}

/// The key and written value of each field of `r`, in the fixed order.
pub open spec fn record_pairs(r: RecordView) -> Seq<(Seq<char>, Seq<char>)> {
    seq![
        ("TX_ID"@, dec_chars(r.tx_id as nat)),
        ("TX_TYPE"@, r.tx_type.name()),
        ("FROM_USER_ID"@, dec_chars(r.from_user_id as nat)),
        ("TO_USER_ID"@, dec_chars(r.to_user_id as nat)),
        ("AMOUNT"@, dec_chars(r.amount as nat)),
        ("TIMESTAMP"@, dec_chars(r.timestamp as nat)),
        ("STATUS"@, r.status.name()),
        ("DESCRIPTION"@, "\""@ + r.description + "\""@),
    ]
}

/// The lines of the block of `r`: its header, then one line per field.
pub open spec fn block_lines(index: nat, r: RecordView) -> Seq<Seq<char>> {
    seq![header_line(index, r)] + record_pairs(r).map_values(
        |p: (Seq<char>, Seq<char>)| field_line(p.0, p.1),
    )
}

/// The block that encodes `r` as the record numbered `index + 1`.
pub open spec fn block_text(index: nat, r: RecordView) -> Seq<char> {
    join_lines(block_lines(index, r))
}

/// The text that encodes `rows`: their blocks in order, with no separator
/// after the last.
pub open spec fn txt_text(rows: Seq<RecordView>) -> Seq<char>
    decreases rows.len(),
{
    if rows.len() == 0 {
        seq![]
    } else {
        txt_text(rows.drop_last()) + block_text((rows.len() - 1) as nat, rows.last())
    }
}

/// The pairs of a block as values.
pub open spec fn block_view(block: Seq<(Vec<char>, Vec<char>)>) -> Seq<(Seq<char>, Seq<char>)> {
    block.map_values(|p: (Vec<char>, Vec<char>)| (p.0@, p.1@))
}

/// The decoder's state as values.
pub open spec fn state_view(rows: Seq<Record>, block: Seq<(Vec<char>, Vec<char>)>) -> ScanState {
    (records_view(rows), block_view(block))
}

proof fn lemma_first_colon_prefix(s: Seq<char>, k: int)
    requires
        0 <= k <= s.len(),
        first_colon(s.take(k)) is Some,
    ensures
        first_colon(s) == first_colon(s.take(k)),
    decreases s.len(),
{
    if k == s.len() {
        assert(s.take(k) =~= s);
    } else {
        assert(s.drop_last().take(k) =~= s.take(k));
        lemma_first_colon_prefix(s.drop_last(), k);
    }
}

/// The index of the first `:` in `line`.
fn find_colon(line: &Vec<char>) -> (r: Option<usize>)
    ensures
        match r {
            Some(i) => i < line@.len() && first_colon(line@) == Some(i as int),
            None => first_colon(line@) is None,
        },
{
    let mut j: usize = 0;
    while j < line.len()
        invariant
            j <= line@.len(),
            first_colon(line@.take(j as int)) is None,
        decreases line@.len() - j,
    {
        proof {
            assert(line@.take(j + 1).drop_last() =~= line@.take(j as int));
        }
        if line[j] == ':' {
            proof {
                lemma_first_colon_prefix(line@, j + 1);
            }
            return Some(j);
        }
        j = j + 1;
    }
    proof {
        assert(line@.take(j as int) =~= line@);
    }
    None
}

/// The position of the value of `key` in `block`, as `lookup` finds it.
fn find_value(block: &Vec<(Vec<char>, Vec<char>)>, key: &Vec<char>) -> (r: Option<usize>)
    ensures
        match r {
            Some(i) => i < block@.len() && lookup(block_view(block@), key@) == Some(
                block@[i as int].1@,
            ),
            None => lookup(block_view(block@), key@) is None,
        },
{
    let ghost bv = block_view(block@);
    let mut j: usize = block.len();
    proof {
        assert(bv.take(j as int) =~= bv);
    }
    while j > 0
        invariant
            j <= block@.len(),
            bv == block_view(block@),
            lookup(bv, key@) == lookup(bv.take(j as int), key@),
        decreases j,
    {
        proof {
            assert(bv.take(j as int).drop_last() =~= bv.take(j - 1));
            assert(bv.take(j as int).last() == bv[j - 1]);
        }
        if same_chars(&block[j - 1].0, key) {
            return Some(j - 1);
        }
        j = j - 1;
    }
    proof {
        assert(bv.take(0) =~= Seq::<(Seq<char>, Seq<char>)>::empty());
    }
    None
}

/// The numeric field `key` of `block`.
pub fn get_num(block: &Vec<(Vec<char>, Vec<char>)>, key: &str) -> (r: Result<u64, CustomError>)
    ensures
        match r {
            Ok(n) => num_field(block_view(block@), key@) == Ok::<u64, Fault>(n),
            Err(e) => num_field(block_view(block@), key@) == Err::<u64, Fault>(e.fault()),
        },
{
    match find_value(block, &chars_of(key)) {
        None => Err(CustomError::MissingField(String::from_str(key))),
        Some(i) => {
            let v = &block[i].1;
            proof {
                assert(v@.subrange(0, v@.len() as int) =~= v@);
            }
            match parse_u64(v, 0, v.len(), 10) {
                Some(n) => Ok(n),
                None => Err(CustomError::InvalidNumber(String::from_str(key))),
            }
        },
    }
}

impl TxtFormat {
    /// The record of a block: every field present and well formed.
    pub fn created_record(block: &Vec<(Vec<char>, Vec<char>)>) -> (r: Result<Record, CustomError>)
        ensures
            match r {
                Ok(rec) => record_of_block(block_view(block@)) == Ok::<RecordView, Fault>(rec@),
                Err(e) => record_of_block(block_view(block@)) == Err::<RecordView, Fault>(
                    e.fault(),
                ),
            },
    {
        let tx_id = get_num(block, "TX_ID")?;
        let tx_type = match find_value(block, &chars_of("TX_TYPE")) {
            None => {
                return Err(CustomError::MissingField(String::from_str("TX_TYPE")));
            },
            Some(i) => match TxType::from_name(&block[i].1) {
                Some(t) => t,
                None => {
                    return Err(CustomError::InvalidEnum(String::from_str("TX_TYPE")));
                },
            },
        };
        let from_user_id = get_num(block, "FROM_USER_ID")?;
        let to_user_id = get_num(block, "TO_USER_ID")?;
        let amount = get_num(block, "AMOUNT")?;
        let timestamp = get_num(block, "TIMESTAMP")?;
        let status = match find_value(block, &chars_of("STATUS")) {
            None => {
                return Err(CustomError::MissingField(String::from_str("STATUS")));
            },
            Some(i) => match Status::from_name(&block[i].1) {
                Some(s) => s,
                None => {
                    return Err(CustomError::InvalidEnum(String::from_str("STATUS")));
                },
            },
        };
        let description = match find_value(block, &chars_of("DESCRIPTION")) {
            None => {
                return Err(CustomError::MissingField(String::from_str("DESCRIPTION")));
            },
            Some(i) => string_of(&unquoted(&block[i].1)),
        };
        Ok(
            Record {
                tx_id,
                tx_type,
                from_user_id,
                to_user_id,
                amount,
                timestamp,
                status,
                description,
            },
        )
    }
}

/// Feeds one line to the decoder.
fn take_line(
    rows: &mut Vec<Record>,
    block: &mut Vec<(Vec<char>, Vec<char>)>,
    line: &Vec<char>,
) -> (r: Result<(), CustomError>)
    ensures
        match r {
            Ok(()) => step(Ok(state_view(old(rows)@, old(block)@)), line@) == Ok::<
                ScanState,
                Fault,
            >(state_view(final(rows)@, final(block)@)),
            Err(e) => step(Ok(state_view(old(rows)@, old(block)@)), line@) == Err::<
                ScanState,
                Fault,
            >(e.fault()),
        },
{
    if line.len() == 0 || line[0] == '#' {
        if block.len() == 0 {
            return Ok(());
        }
        let rec = TxtFormat::created_record(block)?;
        rows.push(rec);
        *block = Vec::new();
        proof {
            assert(records_view(rows@) =~= records_view(old(rows)@).push(rec@));
            assert(block_view(block@) =~= Seq::<(Seq<char>, Seq<char>)>::empty());
        }
        Ok(())
    } else {
        match find_colon(line) {
            None => Ok(()),
            Some(i) => {
                let key = trimmed(line, 0, i);
                let value = trimmed(line, i + 1, line.len());
                proof {
                    assert(line@.take(i as int) =~= line@.subrange(0, i as int));
                    assert(line@.skip(i + 1) =~= line@.subrange(i + 1, line@.len() as int));
                }
                block.push((key, value));
                proof {
                    assert(block_view(block@) =~= block_view(old(block)@).push((key@, value@)));
                }
                Ok(())
            },
        }
    }
}

proof fn lemma_run_stays_err(st: Result<ScanState, Fault>, lines: Seq<Seq<char>>, k: int)
    requires
        0 <= k <= lines.len(),
        run(st, lines.take(k)) is Err,
    ensures
        run(st, lines) == run(st, lines.take(k)),
    decreases lines.len(),
{
    if k == lines.len() {
        assert(lines.take(k) =~= lines);
    } else {
        assert(lines.drop_last().take(k) =~= lines.take(k));
        lemma_run_stays_err(st, lines.drop_last(), k);
    }
}

proof fn lemma_split_prefix(s: Seq<char>, i: int)
    requires
        0 <= i <= s.len(),
    ensures
        split_lines(s.take(i)).0.len() <= split_lines(s).0.len(),
        split_lines(s).0.take(split_lines(s.take(i)).0.len() as int) == split_lines(s.take(i)).0,
    decreases s.len(),
{
    let d = split_lines(s.take(i)).0;
    if i == s.len() {
        assert(s.take(i) =~= s);
        assert(split_lines(s).0.take(d.len() as int) =~= d);
    } else {
        assert(s.drop_last().take(i) =~= s.take(i));
        lemma_split_prefix(s.drop_last(), i);
        let e = split_lines(s.drop_last()).0;
        assert(split_lines(s).0.take(d.len() as int) =~= e.take(d.len() as int));
    }
}

proof fn lemma_lines_prefix(s: Seq<char>, i: int)
    requires
        0 <= i <= s.len(),
    ensures
        split_lines(s.take(i)).0.len() <= lines_of(s).len(),
        lines_of(s).take(split_lines(s.take(i)).0.len() as int) == split_lines(s.take(i)).0,
{
    lemma_split_prefix(s, i);
    let d = split_lines(s.take(i)).0;
    let e = split_lines(s).0;
    assert(lines_of(s).take(d.len() as int) =~= e.take(d.len() as int));
}

fn push_field(out: &mut Vec<char>, key: &str, value: &Vec<char>)
    ensures
        final(out)@ == old(out)@ + field_line(key@, value@) + seq!['\n'],
{
    push_str(out, key);
    push_str(out, ": ");
    let mut i: usize = 0;
    let ghost mid = out@;
    while i < value.len()
        invariant
            i <= value@.len(),
            out@ == mid + value@.take(i as int),
        decreases value@.len() - i,
    {
        out.push(value[i]);
        i = i + 1;
        proof {
            assert(out@ =~= mid + value@.take(i as int));
        }
    }
    proof {
        assert(value@.take(i as int) =~= value@);
        assert(out@ =~= old(out)@ + field_line(key@, value@));
    }
    out.push('\n');
    proof {
        assert(final(out)@ =~= old(out)@ + field_line(key@, value@) + seq!['\n']);
    }
}

fn dec_vec(n: u64) -> (r: Vec<char>)
    ensures
        r@ == dec_chars(n as nat),
{
    let mut r: Vec<char> = Vec::new();
    push_dec(&mut r, n);
    proof {
        assert(r@ =~= dec_chars(n as nat));
    }
    r
}

proof fn lemma_join_push(lines: Seq<Seq<char>>, line: Seq<char>)
    ensures
        join_lines(lines.push(line)) == join_lines(lines) + line + seq!['\n'],
{
    assert(lines.push(line).drop_last() =~= lines);
}

/// Appends the field line of `key` and `value`, `done` being the lines
/// already written.
fn push_field_line(
    out: &mut Vec<char>,
    key: &str,
    value: &Vec<char>,
    Ghost(start): Ghost<Seq<char>>,
    Ghost(done): Ghost<Seq<Seq<char>>>,
)
    requires
        old(out)@ == start + join_lines(done),
    ensures
        final(out)@ == start + join_lines(done.push(field_line(key@, value@))),
{
    push_field(out, key, value);
    proof {
        lemma_join_push(done, field_line(key@, value@));
        assert(final(out)@ =~= start + join_lines(done.push(field_line(key@, value@))));
    }
}

/// Appends the block of `rec`, numbered `index + 1`.
fn push_block(out: &mut Vec<char>, index: usize, rec: &Record)
    requires
        index < usize::MAX,
    ensures
        final(out)@ == old(out)@ + block_text(index as nat, rec@),
{
    let ghost start = old(out)@;
    let ghost r = rec@;
    push_str(out, "# Record ");
    push_dec(out, (index + 1) as u64);
    push_str(out, " (");
    push_str(out, rec.tx_type.as_str());
    push_str(out, ")");
    out.push('\n');
    let ghost hdr = header_line(index as nat, r);
    proof {
        lemma_join_push(Seq::empty(), hdr);
        assert(join_lines(Seq::<Seq<char>>::empty()) =~= Seq::<char>::empty());
        assert(out@ =~= start + join_lines(seq![hdr]));
    }
    let ghost d0 = seq![hdr];
    push_field_line(out, "TX_ID", &dec_vec(rec.tx_id), Ghost(start), Ghost(d0));
    let ghost d1 = d0.push(field_line("TX_ID"@, dec_chars(r.tx_id as nat)));
    push_field_line(out, "TX_TYPE", &chars_of(rec.tx_type.as_str()), Ghost(start), Ghost(d1));
    let ghost d2 = d1.push(field_line("TX_TYPE"@, r.tx_type.name()));
    push_field_line(out, "FROM_USER_ID", &dec_vec(rec.from_user_id), Ghost(start), Ghost(d2));
    let ghost d3 = d2.push(field_line("FROM_USER_ID"@, dec_chars(r.from_user_id as nat)));
    push_field_line(out, "TO_USER_ID", &dec_vec(rec.to_user_id), Ghost(start), Ghost(d3));
    let ghost d4 = d3.push(field_line("TO_USER_ID"@, dec_chars(r.to_user_id as nat)));
    push_field_line(out, "AMOUNT", &dec_vec(rec.amount), Ghost(start), Ghost(d4));
    let ghost d5 = d4.push(field_line("AMOUNT"@, dec_chars(r.amount as nat)));
    push_field_line(out, "TIMESTAMP", &dec_vec(rec.timestamp), Ghost(start), Ghost(d5));
    let ghost d6 = d5.push(field_line("TIMESTAMP"@, dec_chars(r.timestamp as nat)));
    push_field_line(out, "STATUS", &chars_of(rec.status.as_str()), Ghost(start), Ghost(d6));
    let ghost d7 = d6.push(field_line("STATUS"@, r.status.name()));
    let mut d: Vec<char> = Vec::new();
    push_str(&mut d, "\"");
    push_str(&mut d, rec.description.as_str());
    push_str(&mut d, "\"");
    proof {
        assert(d@ =~= "\""@ + r.description + "\""@);
    }
    push_field_line(out, "DESCRIPTION", &d, Ghost(start), Ghost(d7));
    proof {
        let d8 = d7.push(field_line("DESCRIPTION"@, "\""@ + r.description + "\""@));
        assert(d8 =~= block_lines(index as nat, r));
    }
}

impl From<Vec<Record>> for TxtFormat {
    fn from(records: Vec<Record>) -> (r: TxtFormat)
        ensures
            r.txt_rows == records,
    {
        TxtFormat { txt_rows: records }
    }
}

impl vstd::std_specs::convert::FromSpecImpl<Vec<Record>> for TxtFormat {
    open spec fn obeys_from_spec() -> bool {
        true
    }

    open spec fn from_spec(records: Vec<Record>) -> TxtFormat {
        TxtFormat { txt_rows: records }
    }
}

impl DataFormat for TxtFormat {
    open spec fn rows(&self) -> Seq<RecordView> {
        records_view(self.txt_rows@)
    }

    fn from_read(bytes: &[u8]) -> (r: Result<TxtFormat, CustomError>)
        ensures
            match r {
                Ok(f) => decode_txt(bytes@) == Ok::<Seq<RecordView>, Fault>(f.rows()),
                Err(e) => decode_txt(bytes@) == Err::<Seq<RecordView>, Fault>(e.fault()),
            },
    {
        let text = match utf8_text(bytes) {
            Some(t) => t,
            None => {
                return Err(CustomError::InvalidData(String::from_str("text is not UTF-8")));
            },
        };
        let cs = chars_of(text);
        let ghost init = Ok::<ScanState, Fault>((seq![], seq![]));
        let mut rows: Vec<Record> = Vec::new();
        let mut block: Vec<(Vec<char>, Vec<char>)> = Vec::new();
        let mut start: usize = 0;
        let mut i: usize = 0;
        proof {
            assert(cs@.take(0) =~= Seq::<char>::empty());
            assert(records_view(rows@) =~= Seq::<RecordView>::empty());
            assert(block_view(block@) =~= Seq::<(Seq<char>, Seq<char>)>::empty());
            assert(cs@.subrange(0, 0) =~= Seq::<char>::empty());
        }
        while i < cs.len()
            invariant
                start <= i <= cs@.len(),
                cs@ == decode_utf8(bytes@),
                valid_utf8(bytes@),
                init == Ok::<ScanState, Fault>((seq![], seq![])),
                split_lines(cs@.take(i as int)).1 == cs@.subrange(start as int, i as int),
                run(init, split_lines(cs@.take(i as int)).0) == Ok::<ScanState, Fault>(
                    state_view(rows@, block@),
                ),
            decreases cs@.len() - i,
        {
            proof {
                assert(cs@.take(i + 1).drop_last() =~= cs@.take(i as int));
            }
            if cs[i] == '\n' {
                let mut end: usize = i;
                if end > start && cs[end - 1] == '\r' {
                    end = end - 1;
                }
                let line = slice_of(&cs, start, end);
                let ghost done = split_lines(cs@.take(i + 1)).0;
                proof {
                    let open = cs@.subrange(start as int, i as int);
                    if i > start && cs@[i - 1] == '\r' {
                        assert(open.drop_last() =~= line@);
                    } else {
                        assert(open =~= line@);
                    }
                    assert(done.drop_last() =~= split_lines(cs@.take(i as int)).0);
                }
                match take_line(&mut rows, &mut block, &line) {
                    Ok(()) => {},
                    Err(e) => {
                        proof {
                            lemma_lines_prefix(cs@, i + 1);
                            lemma_run_stays_err(init, lines_of(cs@), done.len() as int);
                        }
                        return Err(e);
                    },
                }
                start = i + 1;
            }
            i = i + 1;
            proof {
                assert(cs@.subrange(start as int, i as int) =~= split_lines(cs@.take(i as int)).1);
            }
        }
        proof {
            assert(cs@.take(i as int) =~= cs@);
        }
        let ghost done = split_lines(cs@).0;
        if start < cs.len() {
            let line = slice_of(&cs, start, cs.len());
            proof {
                assert(lines_of(cs@) == done.push(line@));
                assert(lines_of(cs@).drop_last() =~= done);
            }
            take_line(&mut rows, &mut block, &line)?;
        } else {
            proof {
                assert(lines_of(cs@) == done);
            }
        }
        Ok(TxtFormat { txt_rows: rows })
    }

    fn write_to(&self, out: &mut Vec<u8>) -> (r: Result<(), CustomError>)
        ensures
            r is Ok,
            final(out)@ == old(out)@ + encode_utf8(txt_text(self.rows())),
    {
        let ghost rows = self.rows();
        let mut text: Vec<char> = Vec::new();
        for i in 0..self.txt_rows.len()
            invariant
                rows == self.rows(),
                text@ == txt_text(rows.take(i as int)),
        {
            proof {
                assert(rows.take(i + 1).drop_last() =~= rows.take(i as int));
            }
            push_block(&mut text, i, &self.txt_rows[i]);
        }
        proof {
            assert(rows.take(rows.len() as int) =~= rows);
        }
        let s = string_of(&text);
        push_bytes(out, s.as_str().as_bytes());
        Ok(())
    }
}

/// Whether `c` occurs nowhere in `s`.
pub open spec fn lacks(s: Seq<char>, c: char) -> bool {
    forall|i: int| 0 <= i < s.len() ==> s[i] != c
}

/// A line that reads back as itself: no newline in it, no carriage
/// return at its end.
pub open spec fn plain_line(l: Seq<char>) -> bool {
    lacks(l, '\n') && !(l.len() > 0 && l.last() == '\r')
}

proof fn lemma_split_no_newline(l: Seq<char>)
    requires
        lacks(l, '\n'),
    ensures
        split_lines(l) == (Seq::<Seq<char>>::empty(), l),
    decreases l.len(),
{
    if l.len() > 0 {
        lemma_split_no_newline(l.drop_last());
        assert(l.drop_last().push(l.last()) =~= l);
    } else {
        assert(l =~= Seq::<char>::empty());
    }
}

proof fn lemma_split_concat(a: Seq<char>, b: Seq<char>)
    requires
        split_lines(a).1.len() == 0,
    ensures
        split_lines(a + b) == (split_lines(a).0 + split_lines(b).0, split_lines(b).1),
    decreases b.len(),
{
    if b.len() == 0 {
        assert(a + b =~= a);
        assert(split_lines(a).0 + split_lines(b).0 =~= split_lines(a).0);
        assert(split_lines(a).1 =~= split_lines(b).1);
    } else {
        assert((a + b).drop_last() =~= a + b.drop_last());
        lemma_split_concat(a, b.drop_last());
        let (da, _) = split_lines(a);
        let (db, ob) = split_lines(b.drop_last());
        assert((da + db).push(strip_cr(ob)) =~= da + db.push(strip_cr(ob)));
    }
}

proof fn lemma_split_join(lines: Seq<Seq<char>>)
    requires
        forall|i: int| 0 <= i < lines.len() ==> plain_line(#[trigger] lines[i]),
    ensures
        split_lines(join_lines(lines)) == (lines, Seq::<char>::empty()),
    decreases lines.len(),
{
    if lines.len() == 0 {
        assert(lines =~= Seq::<Seq<char>>::empty());
    } else {
        let l = lines.last();
        assert(plain_line(l));
        lemma_split_join(lines.drop_last());
        lemma_split_no_newline(l);
        let tail = l + seq!['\n'];
        assert(tail.drop_last() =~= l);
        assert(split_lines(tail) == (seq![l], Seq::<char>::empty()));
        assert(join_lines(lines) =~= join_lines(lines.drop_last()) + tail);
        lemma_split_concat(join_lines(lines.drop_last()), tail);
        assert(lines.drop_last() + seq![l] =~= lines);
    }
}

proof fn lemma_join_concat(a: Seq<Seq<char>>, b: Seq<Seq<char>>)
    ensures
        join_lines(a + b) == join_lines(a) + join_lines(b),
    decreases b.len(),
{
    if b.len() == 0 {
        assert(a + b =~= a);
        assert(join_lines(a) + join_lines(b) =~= join_lines(a));
    } else {
        assert((a + b).drop_last() =~= a + b.drop_last());
        lemma_join_concat(a, b.drop_last());
        assert(join_lines(a + b) =~= join_lines(a) + join_lines(b));
    }
}

proof fn lemma_run_concat(st: Result<ScanState, Fault>, a: Seq<Seq<char>>, b: Seq<Seq<char>>)
    ensures
        run(st, a + b) == run(run(st, a), b),
    decreases b.len(),
{
    if b.len() == 0 {
        assert(a + b =~= a);
    } else {
        assert((a + b).drop_last() =~= a + b.drop_last());
        lemma_run_concat(st, a, b.drop_last());
    }
}

/// The lines of the blocks of `rows`, in order.
pub open spec fn all_lines(rows: Seq<RecordView>) -> Seq<Seq<char>>
    decreases rows.len(),
{
    if rows.len() == 0 {
        seq![]
    } else {
        all_lines(rows.drop_last()) + block_lines((rows.len() - 1) as nat, rows.last())
    }
}

proof fn lemma_text_lines(rows: Seq<RecordView>)
    ensures
        txt_text(rows) == join_lines(all_lines(rows)),
    decreases rows.len(),
{
    if rows.len() > 0 {
        lemma_text_lines(rows.drop_last());
        lemma_join_concat(
            all_lines(rows.drop_last()),
            block_lines((rows.len() - 1) as nat, rows.last()),
        );
    }
}


/// A field name: upper-case ASCII letters and underscores.
pub open spec fn key_like(s: Seq<char>) -> bool {
    s.len() > 0 && forall|i: int|
        0 <= i < s.len() ==> {
            let u = #[trigger] s[i] as u32;
            (0x41 <= u <= 0x5a) || u == 0x5f
        }
}

/// A written value that reads back as itself: not empty, no whitespace at
/// its ends, a plain line.
pub open spec fn value_like(v: Seq<char>) -> bool {
    v.len() > 0 && !is_space(v[0]) && !is_space(v.last()) && plain_line(v)
}

proof fn lemma_first_colon_none(s: Seq<char>)
    requires
        lacks(s, ':'),
    ensures
        first_colon(s) is None,
    decreases s.len(),
{
    if s.len() > 0 {
        lemma_first_colon_none(s.drop_last());
    }
}

proof fn lemma_trim_id(s: Seq<char>)
    requires
        s.len() > 0,
        !is_space(s[0]),
        !is_space(s.last()),
    ensures
        trim(s) == s,
{
    assert(trim_start(s) == s);
}

proof fn lemma_lacks_concat(a: Seq<char>, b: Seq<char>, c: char)
    requires
        lacks(a, c),
        lacks(b, c),
    ensures
        lacks(a + b, c),
{
    assert forall|i: int| 0 <= i < (a + b).len() implies (a + b)[i] != c by {
        if i >= a.len() {
            assert((a + b)[i] == b[i - a.len()]);
        }
    }
}

proof fn lemma_field_line(k: Seq<char>, v: Seq<char>)
    requires
        key_like(k),
        value_like(v),
    ensures
        plain_line(field_line(k, v)),
        !is_separator(field_line(k, v)),
        pair_of(field_line(k, v)) == Some((k, v)),
{
    reveal_strlit(": ");
    let l = field_line(k, v);
    let n = k.len() as int;
    assert(lacks(k, ':') && lacks(k, '\n')) by {
        assert forall|i: int| 0 <= i < k.len() implies k[i] != ':' && k[i] != '\n' by {
            let u = k[i] as u32;
            assert((0x41 <= u <= 0x5a) || u == 0x5f);
        }
    }
    assert(lacks(": "@, '\n'));
    lemma_lacks_concat(k, ": "@, '\n');
    lemma_lacks_concat(k + ": "@, v, '\n');
    assert(l.last() == v.last());
    assert(l[0] == k[0]);
    lemma_first_colon_none(k);
    assert(l.take(n + 1).drop_last() =~= k);
    assert(l.take(n + 1).last() == ':');
    lemma_first_colon_prefix(l, n + 1);
    assert(l.take(n) =~= k);
    let u0 = k[0] as u32;
    let ul = k.last() as u32;
    assert((0x41 <= u0 <= 0x5a) || u0 == 0x5f);
    assert(k.last() == k[k.len() - 1]);
    assert((0x41 <= ul <= 0x5a) || ul == 0x5f);
    lemma_trim_id(k);
    let after = l.skip(n + 1);
    assert(after =~= seq![' '] + v);
    assert(after.drop_first() =~= v);
    assert(trim_start(after) == trim_start(v));
    lemma_trim_id(v);
}

proof fn lemma_digits_value_like(n: nat)
    ensures
        value_like(dec_chars(n)),
{
    lemma_dec_chars_digits(n);
    let s = dec_chars(n);
    assert(s.len() > 0) by {
        reveal_with_fuel(dec_chars, 1);
    }
    assert forall|i: int| 0 <= i < s.len() implies s[i] != '\n' && !is_space(s[i]) && s[i]
        != '\r' by {
        assert(digit_value(s[i], 10) is Some);
    }
    assert(s.last() == s[s.len() - 1]);
}

proof fn lemma_name_value_like(t: TxType, st: Status)
    ensures
        value_like(t.name()),
        value_like(st.name()),
        TxType::of_name(t.name()) == Some(t),
        Status::of_name(st.name()) == Some(st),
{
    reveal_strlit("DEPOSIT");
    reveal_strlit("TRANSFER");
    reveal_strlit("WITHDRAWAL");
    reveal_strlit("SUCCESS");
    reveal_strlit("FAILURE");
    reveal_strlit("PENDING");
    let a = t.name();
    let b = st.name();
    assert(a.last() == a[a.len() - 1]);
    assert(b.last() == b[b.len() - 1]);
}

/// The lines of a block read back: the header closes the previous block,
/// and each field line yields its key and written value.
proof fn lemma_block_lines(index: nat, r: RecordView)
    requires
        lacks(r.description, '\n'),
    ensures
        forall|j: int|
            0 <= j < block_lines(index, r).len() ==> plain_line(#[trigger] block_lines(index, r)[j]),
        is_separator(block_lines(index, r)[0]),
        block_lines(index, r).len() == 9,
        forall|j: int|
            1 <= j < 9 ==> !is_separator(#[trigger] block_lines(index, r)[j]) && pair_of(
                block_lines(index, r)[j],
            ) == Some(record_pairs(r)[j - 1]),
{
    reveal_strlit("TX_ID");
    reveal_strlit("TX_TYPE");
    reveal_strlit("FROM_USER_ID");
    reveal_strlit("TO_USER_ID");
    reveal_strlit("AMOUNT");
    reveal_strlit("TIMESTAMP");
    reveal_strlit("STATUS");
    reveal_strlit("DESCRIPTION");
    reveal_strlit("\"");
    reveal_strlit("# Record ");
    reveal_strlit(" (");
    reveal_strlit(")");
    let ps = record_pairs(r);
    let lines = block_lines(index, r);
    lemma_digits_value_like(r.tx_id as nat);
    lemma_digits_value_like(r.from_user_id as nat);
    lemma_digits_value_like(r.to_user_id as nat);
    lemma_digits_value_like(r.amount as nat);
    lemma_digits_value_like(r.timestamp as nat);
    lemma_digits_value_like(index + 1);
    lemma_name_value_like(r.tx_type, r.status);
    let dq = "\""@ + r.description + "\""@;
    assert(lacks("\""@, '\n'));
    lemma_lacks_concat("\""@, r.description, '\n');
    lemma_lacks_concat("\""@ + r.description, "\""@, '\n');
    assert(dq[0] == '"');
    assert(dq.last() == '"');
    assert(value_like(dq));
    assert forall|j: int| 0 <= j < 8 implies key_like(#[trigger] ps[j].0) && value_like(ps[j].1) by {}
    assert forall|j: int| 1 <= j < 9 implies plain_line(#[trigger] lines[j]) && !is_separator(
        lines[j],
    ) && pair_of(lines[j]) == Some(ps[j - 1]) by {
        assert(lines[j] == field_line(ps[j - 1].0, ps[j - 1].1));
        lemma_field_line(ps[j - 1].0, ps[j - 1].1);
    }
    let h = header_line(index, r);
    let d = dec_chars(index + 1);
    let nm = r.tx_type.name();
    assert(lacks("# Record "@, '\n') && lacks(" ("@, '\n') && lacks(")"@, '\n'));
    lemma_lacks_concat("# Record "@, d, '\n');
    lemma_lacks_concat("# Record "@ + d, " ("@, '\n');
    lemma_lacks_concat("# Record "@ + d + " ("@, nm, '\n');
    lemma_lacks_concat("# Record "@ + d + " ("@ + nm, ")"@, '\n');
    assert(h.last() == ')');
    assert(h[0] == '#');
    assert(lines[0] == h);
}

proof fn lemma_strip_quoted(d: Seq<char>)
    ensures
        strip_quotes("\""@ + d + "\""@) == d,
{
    reveal_strlit("\"");
    let s = "\""@ + d + "\""@;
    assert(s[0] == '"' && s.last() == '"');
    lemma_trim_id(s);
    assert(s.drop_first().drop_last() =~= d);
}

proof fn lemma_lookup_distinct(block: Seq<(Seq<char>, Seq<char>)>)
    requires
        forall|i: int, j: int| 0 <= i < j < block.len() ==> block[i].0 != block[j].0,
    ensures
        forall|i: int| 0 <= i < block.len() ==> lookup(block, #[trigger] block[i].0) == Some(block[i].1),
    decreases block.len(),
{
    if block.len() > 0 {
        let rest = block.drop_last();
        lemma_lookup_distinct(rest);
        assert forall|i: int| 0 <= i < block.len() implies lookup(block, #[trigger] block[i].0)
            == Some(block[i].1) by {
            if i < block.len() - 1 {
                assert(rest[i] == block[i]);
            }
        }
    }
}

/// The block of `r` decodes back to `r`.
proof fn lemma_record_pairs(r: RecordView)
    ensures
        record_of_block(record_pairs(r)) == Ok::<RecordView, Fault>(r),
{
    reveal_strlit("TX_ID");
    reveal_strlit("TX_TYPE");
    reveal_strlit("FROM_USER_ID");
    reveal_strlit("TO_USER_ID");
    reveal_strlit("AMOUNT");
    reveal_strlit("TIMESTAMP");
    reveal_strlit("STATUS");
    reveal_strlit("DESCRIPTION");
    crate::text::lemma_dec_chars_parse(r.tx_id);
    crate::text::lemma_dec_chars_parse(r.from_user_id);
    crate::text::lemma_dec_chars_parse(r.to_user_id);
    crate::text::lemma_dec_chars_parse(r.amount);
    crate::text::lemma_dec_chars_parse(r.timestamp);
    lemma_name_value_like(r.tx_type, r.status);
    lemma_strip_quoted(r.description);
    let ps = record_pairs(r);
    assert("TX_ID"@.len() == 5 && "TX_TYPE"@.len() == 7 && "FROM_USER_ID"@.len() == 12);
    assert("TO_USER_ID"@.len() == 10 && "AMOUNT"@.len() == 6 && "TIMESTAMP"@.len() == 9);
    assert("STATUS"@.len() == 6 && "DESCRIPTION"@.len() == 11);
    assert("AMOUNT"@[0] != "STATUS"@[0]);
    assert forall|i: int, j: int| 0 <= i < j < ps.len() implies ps[i].0 != ps[j].0 by {
        if ps[i].0 == ps[j].0 {
            assert(ps[i].0.len() == ps[j].0.len());
            assert(ps[i].0[0] == ps[j].0[0]);
        }
    }
    lemma_lookup_distinct(ps);
    assert(ps[0].0 == "TX_ID"@ && ps[1].0 == "TX_TYPE"@ && ps[2].0 == "FROM_USER_ID"@);
    assert(ps[3].0 == "TO_USER_ID"@ && ps[4].0 == "AMOUNT"@ && ps[5].0 == "TIMESTAMP"@);
    assert(ps[6].0 == "STATUS"@ && ps[7].0 == "DESCRIPTION"@);
}

proof fn lemma_run_fields(
    rows: Seq<RecordView>,
    lines: Seq<Seq<char>>,
    pairs: Seq<(Seq<char>, Seq<char>)>,
)
    requires
        lines.len() == pairs.len(),
        forall|j: int|
            0 <= j < lines.len() ==> !is_separator(#[trigger] lines[j]) && pair_of(lines[j])
                == Some(pairs[j]),
    ensures
        run(Ok((rows, seq![])), lines) == Ok::<ScanState, Fault>((rows, pairs)),
    decreases lines.len(),
{
    if lines.len() == 0 {
        assert(pairs =~= Seq::<(Seq<char>, Seq<char>)>::empty());
    } else {
        lemma_run_fields(rows, lines.drop_last(), pairs.drop_last());
        assert(pairs.drop_last().push(pairs.last()) =~= pairs);
    }
}

/// The decoder's state after the blocks of the first `k` records: all
/// but the last decoded, the last one's pairs still open.
pub open spec fn state_after(rows: Seq<RecordView>, k: int) -> Result<ScanState, Fault> {
    if k == 0 {
        Ok((seq![], seq![]))
    } else {
        Ok((rows.take(k - 1), record_pairs(rows[k - 1])))
    }
}

proof fn lemma_run_blocks(rows: Seq<RecordView>, k: int)
    requires
        0 <= k <= rows.len(),
        forall|i: int| 0 <= i < rows.len() ==> lacks(#[trigger] rows[i].description, '\n'),
    ensures
        run(Ok((seq![], seq![])), all_lines(rows.take(k))) == state_after(rows, k),
        forall|j: int|
            0 <= j < all_lines(rows.take(k)).len() ==> plain_line(
                #[trigger] all_lines(rows.take(k))[j],
            ),
    decreases k,
{
    if k == 0 {
        assert(rows.take(0) =~= Seq::<RecordView>::empty());
    } else {
        lemma_run_blocks(rows, k - 1);
        let prev = all_lines(rows.take(k - 1));
        let r = rows[k - 1];
        let bl = block_lines((k - 1) as nat, r);
        assert(rows.take(k).drop_last() =~= rows.take(k - 1));
        assert(all_lines(rows.take(k)) == prev + bl);
        lemma_block_lines((k - 1) as nat, r);
        lemma_run_concat(Ok((seq![], seq![])), prev, bl);
        let st = state_after(rows, k - 1);
        let fields = bl.drop_first();
        assert(seq![bl[0]] + fields =~= bl);
        lemma_run_concat(st, seq![bl[0]], fields);
        assert(seq![bl[0]].drop_last() =~= Seq::<Seq<char>>::empty());
        assert(run(st, Seq::<Seq<char>>::empty()) == st);
        assert(run(st, seq![bl[0]]) == step(st, bl[0]));
        if k == 1 {
            assert(rows.take(0) =~= Seq::<RecordView>::empty());
        }
        if k > 1 {
            lemma_record_pairs(rows[k - 2]);
            assert(rows.take(k - 2).push(rows[k - 2]) =~= rows.take(k - 1));
        }
        assert(run(st, seq![bl[0]]) == Ok::<ScanState, Fault>((rows.take(k - 1), seq![])));
        lemma_run_fields(rows.take(k - 1), fields, record_pairs(r));
        assert forall|j: int| 0 <= j < (prev + bl).len() implies plain_line(
            #[trigger] (prev + bl)[j],
        ) by {
            if j >= prev.len() {
                assert((prev + bl)[j] == bl[j - prev.len()]);
            }
        }
    }
}

/// Block text round trip: decoding the text written for `rows`, with one
/// separator line after it, gives `rows` back, provided no description
/// holds a newline. Without that separator the last record is lost.
pub(crate) proof fn lemma_txt_round_trip(rows: Seq<RecordView>)
    requires
        forall|i: int| 0 <= i < rows.len() ==> lacks(#[trigger] rows[i].description, '\n'),
    ensures
        decode_txt(encode_utf8(txt_text(rows) + seq!['\n'])) == Ok::<Seq<RecordView>, Fault>(
            rows,
        ),
        rows.len() > 0 ==> decode_txt(encode_utf8(txt_text(rows))) == Ok::<
            Seq<RecordView>,
            Fault,
        >(rows.drop_last()),
{
    let n = rows.len() as int;
    let init = Ok::<ScanState, Fault>((seq![], seq![]));
    lemma_run_blocks(rows, n);
    assert(rows.take(n) =~= rows);
    let all = all_lines(rows);
    lemma_text_lines(rows);
    let t = txt_text(rows);
    let closed = all.push(Seq::<char>::empty());
    lemma_join_push(all, Seq::<char>::empty());
    assert(t + seq!['\n'] =~= join_lines(all) + Seq::<char>::empty() + seq!['\n']);
    assert forall|j: int| 0 <= j < closed.len() implies plain_line(#[trigger] closed[j]) by {
        if j < all.len() {
            assert(closed[j] == all[j]);
        }
    }
    lemma_split_join(all);
    lemma_split_join(closed);
    vstd::utf8::encode_utf8_valid_utf8(t);
    vstd::utf8::encode_utf8_decode_utf8(t);
    vstd::utf8::encode_utf8_valid_utf8(t + seq!['\n']);
    vstd::utf8::encode_utf8_decode_utf8(t + seq!['\n']);
    assert(lines_of(t) == all);
    assert(lines_of(t + seq!['\n']) == closed);
    assert(closed.drop_last() =~= all);
    if n > 0 {
        lemma_record_pairs(rows[n - 1]);
        assert(rows.take(n - 1).push(rows[n - 1]) =~= rows);
        assert(rows.drop_last() =~= rows.take(n - 1));
    } else {
        assert(rows =~= Seq::<RecordView>::empty());
    }
}

} // verus!
