use crate::codec::{
    EncodedChar, spec_byte2, spec_decode_from, spec_decode_lossy, spec_encode_char,
    spec_encode_lossy,
};
use crate::tables::{
    Tables, REPLACEMENT_LEAD, REPLACEMENT_TRAIL, UNMAPPED, cell_index, forward_entry_ok,
    cell_ok, lemma_cell_index_range,
};
use vstd::prelude::*;

verus! {

/// Round trip: decoding the bytes produced by a successful `encode_char`
/// yields the original character and consumes exactly those bytes.  A
/// single-byte encoding decodes the same way whatever byte, if any, follows
/// it.
pub proof fn lemma_encode_decode_char(t: Tables, c: char, b2: Option<u8>)
    requires
        t.wf(),
        spec_encode_char(t, c) is Some,
    ensures
        match spec_encode_char(t, c).unwrap() {
            EncodedChar::One(b) => spec_decode_from(t, b, b2) == Ok::<(char, usize), EncodedChar>(
                (c, 1usize),
            ),
            EncodedChar::Two(l, tr) => spec_decode_from(t, l, Some(tr)) == Ok::<
                (char, usize),
                EncodedChar,
            >((c, 2usize)),
        },
{
    let u = c as u32;
    if u <= 0x7F {
        vstd::utf8::char_u32_cast(c, u);
    } else if 0xFF61 <= u && u <= 0xFF9F {
        vstd::utf8::char_u32_cast(c, u);
    } else {
        let k = c as u32;
        assert(t.fwd().contains_key(k));
        assert(forward_entry_ok(t.fwd(), t.rev(), k));
        let lead = t.fwd()[k].0;
        let trail = t.fwd()[k].1;
        lemma_cell_index_range(lead, trail);
        let d = t.rev()[cell_index(lead, trail)];
        assert(d as u32 == k);
        vstd::utf8::char_u32_cast(c, k);
        vstd::utf8::char_u32_cast(d, k);
        assert(d == c);
        assert(UNMAPPED as u32 == 0xFFFD);
    }
}

/// Inverse round trip: every accepted byte sequence decodes to a character
/// that can be encoded again.  A single-byte sequence re-encodes to exactly
/// the byte it came from; a double-byte sequence re-encodes to the canonical
/// pair held by the forward table, which decodes to the same character (the
/// pair itself may differ for characters with more than one valid
/// encoding).
pub proof fn lemma_decode_encode_char(t: Tables, b1: u8, b2: Option<u8>)
    requires
        t.wf(),
        spec_decode_from(t, b1, b2) is Ok,
    ensures
        ({
            let (c, used) = spec_decode_from(t, b1, b2).unwrap();
            &&& spec_encode_char(t, c) is Some
            &&& (used == 1 ==> spec_encode_char(t, c) == Some(EncodedChar::One(b1)))
            &&& (used == 2 ==> spec_encode_char(t, c) == Some(
                EncodedChar::Two(t.fwd()[c as u32].0, t.fwd()[c as u32].1),
            ) && spec_decode_from(t, t.fwd()[c as u32].0, Some(t.fwd()[c as u32].1)) == Ok::<
                (char, usize),
                EncodedChar,
            >((c, 2usize)))
        }),
{
    let (c, used) = spec_decode_from(t, b1, b2).unwrap();
    if b1 <= 0x7F {
        assert(c as u32 == b1 as u32);
    } else if 0xA1 <= b1 && b1 <= 0xDF {
        assert(c as u32 == (b1 - 0xA1) as u32 + 0xFF61);
    } else {
        let b = b2.unwrap();
        lemma_cell_index_range(b1, b);
        assert(cell_ok(t.fwd(), t.rev()[cell_index(b1, b)]));
        assert(t.fwd().contains_key(c as u32));
        lemma_encode_decode_char(t, c, Some(t.fwd()[c as u32].1));
    }
}

/// What one pass of the lossy round trip leaves of a single character: the
/// character itself when it is encodable, otherwise the character that the
/// fixed replacement sequence decodes to.
pub open spec fn substituted(t: Tables, c: char) -> char {
    if spec_encode_char(t, c) is Some {
        c
    } else {
        t.rev()[cell_index(REPLACEMENT_LEAD, REPLACEMENT_TRAIL)]
    }
}

/// The character-wise image of a text under one lossy round trip.
pub open spec fn substituted_seq(t: Tables, s: Seq<char>) -> Seq<char> {
    s.map_values(|c: char| substituted(t, c))
}

/// The fixed replacement sequence decodes to a character that re-encodes to
/// the very same sequence.
pub proof fn lemma_replacement_cycle(t: Tables)
    requires
        t.wf(),
    ensures
        ({
            let r0 = t.rev()[cell_index(REPLACEMENT_LEAD, REPLACEMENT_TRAIL)];
            &&& r0 != UNMAPPED
            &&& spec_encode_char(t, r0) == Some(
                EncodedChar::Two(REPLACEMENT_LEAD, REPLACEMENT_TRAIL),
            )
            &&& spec_decode_from(t, REPLACEMENT_LEAD, Some(REPLACEMENT_TRAIL)) == Ok::<
                (char, usize),
                EncodedChar,
            >((r0, 2usize))
        }),
{
    lemma_cell_index_range(REPLACEMENT_LEAD, REPLACEMENT_TRAIL);
    let r0 = t.rev()[cell_index(REPLACEMENT_LEAD, REPLACEMENT_TRAIL)];
    assert(cell_ok(t.fwd(), t.rev()[cell_index(REPLACEMENT_LEAD, REPLACEMENT_TRAIL)]));
}

/// One lossy round trip, `decode_lossy` after `encode_lossy`, maps each
/// character of the text independently: encodable characters survive and
/// every other character becomes the decoding of the replacement sequence.
pub proof fn lemma_lossy_normal_form(t: Tables, s: Seq<char>)
    requires
        t.wf(),
    ensures
        spec_decode_lossy(t, spec_encode_lossy(t, s)) == substituted_seq(t, s),
    decreases s.len(),
{
    let bytes = spec_encode_lossy(t, s);
    if s.len() == 0 {
        assert(substituted_seq(t, s) =~= Seq::<char>::empty());
    } else {
        let rest = s.drop_first();
        let rest_bytes = spec_encode_lossy(t, rest);
        lemma_lossy_normal_form(t, rest);
        if spec_encode_char(t, s[0]) is Some {
            let e = spec_encode_char(t, s[0]).unwrap();
            lemma_encode_decode_char(t, s[0], spec_byte2(bytes, 0));
            match e {
                EncodedChar::One(b) => {
                    assert(bytes[0] == b);
                    assert(bytes.skip(1) =~= rest_bytes);
                },
                EncodedChar::Two(l, tr) => {
                    assert(bytes[0] == l);
                    assert(bytes[1] == tr);
                    assert(spec_byte2(bytes, 0) == Some(tr));
                    lemma_encode_decode_char(t, s[0], Some(tr));
                    assert(bytes.skip(2) =~= rest_bytes);
                },
            }
        } else {
            lemma_replacement_cycle(t);
            assert(bytes[0] == REPLACEMENT_LEAD);
            assert(bytes[1] == REPLACEMENT_TRAIL);
            assert(spec_byte2(bytes, 0) == Some(REPLACEMENT_TRAIL));
            assert(bytes.skip(2) =~= rest_bytes);
        }
        assert(substituted_seq(t, s) =~= seq![substituted(t, s[0])] + substituted_seq(t, rest));
    }
}

/// Idempotence of the lossy round trip: applying `decode_lossy` after
/// `encode_lossy` a second time returns the first result unchanged, because
/// every character the first pass leaves behind is encodable.
pub proof fn lemma_lossy_round_trip_idempotent(t: Tables, s: Seq<char>)
    requires
        t.wf(),
    ensures
        ({
            let once = spec_decode_lossy(t, spec_encode_lossy(t, s));
            spec_decode_lossy(t, spec_encode_lossy(t, once)) == once
        }),
{
    lemma_lossy_normal_form(t, s);
    let once = substituted_seq(t, s);
    lemma_lossy_normal_form(t, once);
    assert forall|i: int| 0 <= i < once.len() implies substituted(t, once[i]) == once[i] by {
        lemma_replacement_cycle(t);
    }
    assert(substituted_seq(t, once) =~= once);
}

} // verus!
