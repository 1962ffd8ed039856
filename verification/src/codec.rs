use crate::tables::{
    Tables, UNMAPPED, REPLACEMENT_LEAD, REPLACEMENT_TRAIL, ascii_char, kana_char, valid_lead,
    valid_trail, cell_index,
};
use vstd::prelude::*;
use vstd::utf8::{encode_scalar, encode_utf8};

verus! {

/// An encoded character: one byte (ASCII or half-width kana) or two bytes
/// (lead and trail of a double-byte sequence).
#[derive(Debug, Clone, Copy, PartialEq, Eq, PartialOrd, Ord, Hash)]
pub enum EncodedChar {
    One(u8),
    Two(u8, u8),
}

impl EncodedChar {
    /// The bytes of this encoded character, in order.
    pub open spec fn byte_seq(self) -> Seq<u8> {
        match self {
            EncodedChar::One(a) => seq![a],
            EncodedChar::Two(a, b) => seq![a, b],
        }
    }

    /// The fixed replacement sequence used by `encode_lossy` for characters
    /// that cannot be encoded.
    pub fn replacement() -> (r: EncodedChar)
        ensures
            r == EncodedChar::Two(REPLACEMENT_LEAD, REPLACEMENT_TRAIL),
    {
        EncodedChar::Two(REPLACEMENT_LEAD, REPLACEMENT_TRAIL)
    }

    /// The bytes of this encoded character, as a vector.
    pub fn bytes(&self) -> (v: Vec<u8>)
        ensures
            v@ == self.byte_seq(),
    {
        let mut v: Vec<u8> = Vec::new();
        match self {
            EncodedChar::One(a) => {
                v.push(*a);
            },
            EncodedChar::Two(a, b) => {
                v.push(*a);
                v.push(*b);
            },
        }
        assert(v@ =~= self.byte_seq());
        v
    }
}

/// Relies on `char::from_u32`: for every Unicode scalar value it returns
/// `Some` of the character with exactly that value.
#[verifier::external_body]
fn char_from_u32(u: u32) -> (c: char)
    requires
        u < 0xD800 || (0xE000 <= u && u <= 0x10FFFF),
    ensures
        c as u32 == u,
{
    char::from_u32(u).unwrap()
}

/// Relies on `String::push`: appends exactly the given character.
#[verifier::external_body]
fn push_char(s: &mut String, c: char)
    ensures
        final(s)@ == old(s)@.push(c),
{
    s.push(c);
}

/// What encoding one character: ASCII and half-width kana become the
/// arithmetic single byte, everything else goes through the forward table.
pub open spec fn spec_encode_char(t: Tables, c: char) -> Option<EncodedChar> {
    if ascii_char(c) {
        Some(EncodedChar::One((c as u32) as u8))
    } else if kana_char(c) {
        Some(EncodedChar::One((c as u32 - 0xFF61 + 0xA1) as u8))
    } else if t.fwd().contains_key(c as u32) {
        Some(EncodedChar::Two(t.fwd()[c as u32].0, t.fwd()[c as u32].1))
    } else {
        None
    }
}

/// What decoding one or two bytes yields: the decoded character together
/// with the number of bytes consumed, or the offending bytes.
pub open spec fn spec_decode_from(t: Tables, b1: u8, b2: Option<u8>) -> Result<
    (char, usize),
    EncodedChar,
>
    recommends
        t.wf(),
{
    if b1 <= 0x7F {
        Ok(((b1 as u32) as char, 1usize))
    } else if 0xA1 <= b1 && b1 <= 0xDF {
        Ok((((b1 - 0xA1) as u32 + 0xFF61) as char, 1usize))
    } else if !valid_lead(b1) {
        Err(EncodedChar::One(b1))
    } else {
        match b2 {
            None => Err(EncodedChar::One(b1)),
            Some(b) => if !valid_trail(b) {
                Err(EncodedChar::Two(b1, b))
            } else {
                let c = t.rev()[cell_index(b1, b)];
                if c == UNMAPPED {
                    Err(EncodedChar::Two(b1, b))
                } else {
                    Ok((c, 2usize))
                }
            },
        }
    }
}

/// The byte at `pos + 1`, if any: what a decoder may consult as the second
/// byte of a sequence starting at `pos`.
pub open spec fn spec_byte2(bytes: Seq<u8>, pos: int) -> Option<u8> {
    if pos + 1 < bytes.len() {
        Some(bytes[pos + 1])
    } else {
        None
    }
}

/// Encodes a single character, yielding one or two bytes, or `None` if the
/// character has no representation in the encoding.
pub fn encode_char(t: &Tables, c: char) -> (r: Option<EncodedChar>)
    ensures
        r == spec_encode_char(*t, c),
{
    let u = c as u32;
    if u <= 0x7F {
        Some(EncodedChar::One(u as u8))
    } else if 0xFF61 <= u && u <= 0xFF9F {
        Some(EncodedChar::One(((u - 0xFF61) + 0xA1) as u8))
    } else {
        match t.lookup_forward(c) {
            Some(p) => Some(EncodedChar::Two(p.0, p.1)),
            None => None,
        }
    }
}

/// Decodes a single character from an already-read first byte, consulting
/// `b2` only when `b1` opens a double-byte sequence.
pub fn decode_char_from(t: &Tables, b1: u8, b2: Option<u8>) -> (r: Result<
    (char, usize),
    EncodedChar,
>)
    requires
        t.wf(),
    ensures
        r == spec_decode_from(*t, b1, b2),
{
    if b1 <= 0x7F {
        let c = char_from_u32(b1 as u32);
        proof {
            vstd::utf8::char_u32_cast(c, b1 as u32);
        }
        Ok((c, 1))
    } else if 0xA1 <= b1 && b1 <= 0xDF {
        let u: u32 = (b1 - 0xA1) as u32 + 0xFF61;
        let c = char_from_u32(u);
        proof {
            vstd::utf8::char_u32_cast(c, u);
        }
        Ok((c, 1))
    } else {
        let lead_ok = (0x81 <= b1 && b1 <= 0x9F) || (0xE0 <= b1 && b1 <= 0xEF);
        if !lead_ok {
            return Err(EncodedChar::One(b1));
        }
        match b2 {
            None => Err(EncodedChar::One(b1)),
            Some(b) => {
                let trail_ok = (0x40 <= b && b <= 0x7E) || (0x80 <= b && b <= 0xFC);
                if !trail_ok {
                    return Err(EncodedChar::Two(b1, b));
                }
                let c = t.cell(b1, b);
                if c == UNMAPPED {
                    Err(EncodedChar::Two(b1, b))
                } else {
                    Ok((c, 2))
                }
            },
        }
    }
}

/// Decodes a single character from `bytes` starting at `pos`, or `None` if
/// the input is exhausted.  Consumes one or two bytes; the count consumed is
/// returned alongside the character, and on error is the length of the
/// offending `EncodedChar`.
pub fn decode_char(t: &Tables, bytes: &[u8], pos: usize) -> (r: Option<
    Result<(char, usize), EncodedChar>,
>)
    requires
        t.wf(),
    ensures
        pos < bytes@.len() ==> r == Some(
            spec_decode_from(*t, bytes@[pos as int], spec_byte2(bytes@, pos as int)),
        ),
        pos >= bytes@.len() ==> r is None,
{
    if pos >= bytes.len() {
        return None;
    }
    let b1 = bytes[pos];
    let b2 = if pos + 1 < bytes.len() {
        Some(bytes[pos + 1])
    } else {
        None
    };
    Some(decode_char_from(t, b1, b2))
}

/// What encoding a whole text yields: the concatenated bytes, or the UTF-8
/// byte offset of the first character that cannot be encoded.
pub open spec fn spec_encode(t: Tables, s: Seq<char>) -> Result<Seq<u8>, int>
    decreases s.len(),
{
    if s.len() == 0 {
        Ok(Seq::empty())
    } else {
        match spec_encode_char(t, s[0]) {
            None => Err(0),
            Some(e) => match spec_encode(t, s.drop_first()) {
                Ok(bs) => Ok(e.byte_seq() + bs),
                Err(p) => Err(encode_scalar(s[0] as u32).len() + p),
            },
        }
    }
}

/// What lossy encoding yields: every unencodable character is replaced by
/// the fixed replacement sequence.
pub open spec fn spec_encode_lossy(t: Tables, s: Seq<char>) -> Seq<u8>
    decreases s.len(),
{
    if s.len() == 0 {
        Seq::empty()
    } else {
        let head = match spec_encode_char(t, s[0]) {
            Some(e) => e.byte_seq(),
            None => seq![REPLACEMENT_LEAD, REPLACEMENT_TRAIL],
        };
        head + spec_encode_lossy(t, s.drop_first())
    }
}

/// What strict decoding yields: the decoded characters, or the byte offset
/// at which the first invalid sequence begins together with its bytes.
pub open spec fn spec_decode(t: Tables, bytes: Seq<u8>) -> Result<Seq<char>, (int, EncodedChar)>
    recommends
        t.wf(),
    decreases bytes.len(),
{
    if bytes.len() == 0 {
        Ok(Seq::empty())
    } else {
        match spec_decode_from(t, bytes[0], spec_byte2(bytes, 0)) {
            Ok((c, used)) => match spec_decode(t, bytes.skip(used as int)) {
                Ok(cs) => Ok(seq![c] + cs),
                Err((p, e)) => Err((p + used, e)),
            },
            Err(e) => Err((0, e)),
        }
    }
}

/// What lossy decoding yields: an invalid sequence contributes one
/// replacement character and the cursor advances by exactly one byte.
pub open spec fn spec_decode_lossy(t: Tables, bytes: Seq<u8>) -> Seq<char>
    recommends
        t.wf(),
    decreases bytes.len(),
{
    if bytes.len() == 0 {
        Seq::empty()
    } else {
        match spec_decode_from(t, bytes[0], spec_byte2(bytes, 0)) {
            Ok((c, used)) => seq![c] + spec_decode_lossy(t, bytes.skip(used as int)),
            Err(_) => seq![UNMAPPED] + spec_decode_lossy(t, bytes.skip(1)),
        }
    }
}

/// The UTF-8 width of one character.
fn char_utf8_len(c: char) -> (n: usize)
    ensures
        n == encode_scalar(c as u32).len(),
        1 <= n <= 4,
{
    proof {
        vstd::utf8::char_is_scalar(c);
    }
    let u = c as u32;
    if u < 0x80 {
        1
    } else if u < 0x800 {
        2
    } else if u < 0x10000 {
        3
    } else {
        4
    }
}

/// Appends the bytes of one encoded character to `out`.
fn push_encoded(out: &mut Vec<u8>, e: EncodedChar)
    ensures
        final(out)@ == old(out)@ + e.byte_seq(),
{
    match e {
        EncodedChar::One(a) => {
            out.push(a);
        },
        EncodedChar::Two(a, b) => {
            out.push(a);
            out.push(b);
        },
    }
    assert(out@ =~= old(out)@ + e.byte_seq());
}

/// Encodes a string into a byte vector.
///
/// Returns `Err(position)` if a character cannot be represented, where
/// `position` is the UTF-8 byte offset of the offending character in the
/// input string.
pub fn encode(t: &Tables, s: &str) -> (r: Result<Vec<u8>, usize>)
    ensures
        match r {
            Ok(v) => spec_encode(*t, s@) == Ok::<Seq<u8>, int>(v@),
            Err(p) => spec_encode(*t, s@) == Err::<Seq<u8>, int>(p as int),
        },
{
    let n = s.unicode_len();
    let total = s.as_bytes().len();
    let mut out: Vec<u8> = Vec::new();
    let mut pos: usize = 0;
    let mut i: usize = 0;
    proof {
        assert(s@.skip(0) =~= s@);
    }
    while i < n
        invariant
            i <= n,
            n == s@.len(),
            total == encode_utf8(s@).len(),
            pos + encode_utf8(s@.skip(i as int)).len() == total,
            match spec_encode(*t, s@.skip(i as int)) {
                Ok(bs) => spec_encode(*t, s@) == Ok::<Seq<u8>, int>(out@ + bs),
                Err(p) => spec_encode(*t, s@) == Err::<Seq<u8>, int>(pos + p),
            },
        decreases n - i,
    {
        let c = s.get_char(i);
        proof {
            assert(s@.skip(i as int)[0] == s@[i as int]);
            assert(s@.skip(i as int).drop_first() =~= s@.skip(i as int + 1));
        }
        match encode_char(t, c) {
            Some(e) => {
                let ghost old_out = out@;
                push_encoded(&mut out, e);
                proof {
                    match spec_encode(*t, s@.skip(i as int + 1)) {
                        Ok(bs2) => {
                            assert((old_out + e.byte_seq()) + bs2 =~= old_out + (e.byte_seq()
                                + bs2));
                        },
                        Err(_) => {},
                    }
                }
            },
            None => {
                return Err(pos);
            },
        }
        let w = char_utf8_len(c);
        pos = pos + w;
        i = i + 1;
    }
    proof {
        assert(s@.skip(n as int) =~= Seq::<char>::empty());
    }
    Ok(out)
}

/// Encodes a string into a byte vector, substituting the fixed replacement
/// sequence for every character that cannot be encoded; never fails.
pub fn encode_lossy(t: &Tables, s: &str) -> (v: Vec<u8>)
    ensures
        v@ == spec_encode_lossy(*t, s@),
{
    let n = s.unicode_len();
    let mut out: Vec<u8> = Vec::new();
    let mut i: usize = 0;
    proof {
        assert(s@.skip(0) =~= s@);
    }
    while i < n
        invariant
            i <= n,
            n == s@.len(),
            spec_encode_lossy(*t, s@) == out@ + spec_encode_lossy(*t, s@.skip(i as int)),
        decreases n - i,
    {
        let c = s.get_char(i);
        proof {
            assert(s@.skip(i as int)[0] == s@[i as int]);
            assert(s@.skip(i as int).drop_first() =~= s@.skip(i as int + 1));
        }
        match encode_char(t, c) {
            Some(e) => {
                push_encoded(&mut out, e);
            },
            None => {
                let r = EncodedChar::replacement();
                push_encoded(&mut out, r);
            },
        }
        i = i + 1;
    }
    proof {
        assert(s@.skip(n as int) =~= Seq::<char>::empty());
        assert(out@ =~= out@ + spec_encode_lossy(*t, s@.skip(n as int)));
    }
    out
}

/// Decodes a byte slice into a string.
///
/// Returns `Err((position, bytes))` on the first invalid sequence, where
/// `position` is the offset of its first byte and `bytes` carries the
/// offending byte or byte pair.
pub fn decode(t: &Tables, bytes: &[u8]) -> (r: Result<String, (usize, EncodedChar)>)
    requires
        t.wf(),
    ensures
        match r {
            Ok(out) => spec_decode(*t, bytes@) == Ok::<Seq<char>, (int, EncodedChar)>(out@),
            Err((p, e)) => spec_decode(*t, bytes@) == Err::<Seq<char>, (int, EncodedChar)>(
                (p as int, e),
            ),
        },
{
    let n = bytes.len();
    let mut out = String::new();
    let mut pos: usize = 0;
    proof {
        assert(bytes@.skip(0) =~= bytes@);
    }
    while pos < n
        invariant
            pos <= n,
            n == bytes@.len(),
            t.wf(),
            match spec_decode(*t, bytes@.skip(pos as int)) {
                Ok(cs) => spec_decode(*t, bytes@) == Ok::<Seq<char>, (int, EncodedChar)>(
                    out@ + cs,
                ),
                Err((p, e)) => spec_decode(*t, bytes@) == Err::<Seq<char>, (int, EncodedChar)>(
                    (pos + p, e),
                ),
            },
        decreases n - pos,
    {
        let b1 = bytes[pos];
        let b2 = if pos + 1 < n {
            Some(bytes[pos + 1])
        } else {
            None
        };
        proof {
            assert(bytes@.skip(pos as int)[0] == bytes@[pos as int]);
            assert(spec_byte2(bytes@.skip(pos as int), 0) == b2);
        }
        match decode_char_from(t, b1, b2) {
            Ok((c, used)) => {
                proof {
                    assert(bytes@.skip(pos as int).skip(used as int) =~= bytes@.skip(
                        pos as int + used as int,
                    ));
                }
                let ghost old_out = out@;
                push_char(&mut out, c);
                proof {
                    assert(out@ =~= old_out + seq![c]);
                    match spec_decode(*t, bytes@.skip(pos as int + used as int)) {
                        Ok(cs2) => {
                            assert((old_out + seq![c]) + cs2 =~= old_out + (seq![c] + cs2));
                        },
                        Err(_) => {},
                    }
                }
                pos = pos + used;
            },
            Err(e) => {
                return Err((pos, e));
            },
        }
    }
    proof {
        assert(bytes@.skip(n as int) =~= Seq::<u8>::empty());
    }
    Ok(out)
}

/// Decodes a byte slice into a string, lossily: each invalid byte is
/// replaced by one Unicode replacement character and decoding resumes at
/// the very next byte; never fails.
pub fn decode_lossy(t: &Tables, bytes: &[u8]) -> (out: String)
    requires
        t.wf(),
    ensures
        out@ == spec_decode_lossy(*t, bytes@),
{
    let n = bytes.len();
    let mut out = String::new();
    let mut pos: usize = 0;
    proof {
        assert(bytes@.skip(0) =~= bytes@);
    }
    while pos < n
        invariant
            pos <= n,
            n == bytes@.len(),
            t.wf(),
            spec_decode_lossy(*t, bytes@) == out@ + spec_decode_lossy(*t, bytes@.skip(pos as int)),
        decreases n - pos,
    {
        let b1 = bytes[pos];
        let b2 = if pos + 1 < n {
            Some(bytes[pos + 1])
        } else {
            None
        };
        proof {
            assert(bytes@.skip(pos as int)[0] == bytes@[pos as int]);
            assert(spec_byte2(bytes@.skip(pos as int), 0) == b2);
        }
        let ghost old_out = out@;
        match decode_char_from(t, b1, b2) {
            Ok((c, used)) => {
                proof {
                    assert(bytes@.skip(pos as int).skip(used as int) =~= bytes@.skip(
                        pos as int + used as int,
                    ));
                }
                push_char(&mut out, c);
                proof {
                    assert(out@ =~= old_out + seq![c]);
                }
                pos = pos + used;
            },
            Err(_) => {
                proof {
                    assert(bytes@.skip(pos as int).skip(1) =~= bytes@.skip(pos as int + 1));
                }
                push_char(&mut out, UNMAPPED);
                proof {
                    assert(out@ =~= old_out + seq![UNMAPPED]);
                }
                pos = pos + 1;
            },
        }
    }
    proof {
        assert(bytes@.skip(n as int) =~= Seq::<u8>::empty());
        assert(out@ =~= out@ + spec_decode_lossy(*t, bytes@.skip(n as int)));
    }
    out
}

} // verus!
