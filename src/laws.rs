//! Properties that relate encoding and decoding.
use vstd::prelude::*;
use vstd::utf8::encode_utf8;
use crate::error::Fault;
use crate::format::bin::{all_fit, lemma_bin_round_trip, lemma_encode_utf8_concat};
use crate::format::txt::{lacks, lemma_txt_round_trip, txt_text};
use crate::models::{Format, RecordView};
use crate::{decoded, encoded};

verus! {

/// Binary round trip: any records that the binary format can hold (each
/// description's frame states its length in 32 bits) are encoded, and
/// decoding those bytes gives the same records, field for field and in
/// order.
pub proof fn law_bin_round_trip(rows: Seq<RecordView>)
    ensures
        encoded(Format::Bin, rows) is Some <==> all_fit(rows),
        encoded(Format::Bin, rows) matches Some(b) ==> decoded(Format::Bin, b) == Ok::<
            Seq<RecordView>,
            Fault,
        >(rows),
{
    if all_fit(rows) {
        lemma_bin_round_trip(rows);
    }
}

/// Block-text round trip: for records whose descriptions hold no newline,
/// the encoded text followed by one more newline (an empty separator line)
/// decodes to the same records. The encoded text alone decodes to all but
/// the last record, whose block no separator closes.
pub proof fn law_txt_round_trip(rows: Seq<RecordView>)
    requires
        forall|i: int| 0 <= i < rows.len() ==> lacks(#[trigger] rows[i].description, '\n'),
    ensures
        encoded(Format::Txt, rows) matches Some(b) && decoded(Format::Txt, b + seq![0x0au8])
            == Ok::<Seq<RecordView>, Fault>(rows),
        rows.len() > 0 ==> (encoded(Format::Txt, rows) matches Some(b) && decoded(Format::Txt, b)
            == Ok::<Seq<RecordView>, Fault>(rows.drop_last())),
{
    lemma_txt_round_trip(rows);
    let t = txt_text(rows);
    lemma_encode_utf8_concat(t, seq!['\n']);
    assert(encode_utf8(seq!['\n']) =~= seq![0x0au8]) by {
        assert(seq!['\n'].drop_first() =~= Seq::<char>::empty());
        assert(encode_utf8(Seq::<char>::empty()) =~= Seq::<u8>::empty());
        assert(('\n' as u32) == 0x0au32);
        assert((0x0au32 & 0x7f) as u8 == 0x0au8) by (bit_vector);
        reveal_with_fuel(encode_utf8, 2);
    }
}

} // verus!
