use crate::error::ConvertError;
use vstd::prelude::*;

verus! {

/// The UTF-16 code units of one character.
pub open spec fn utf16_of_char(c: char) -> Seq<u16> {
    let v = c as u32;
    if v < 0x10000 {
        seq![v as u16]
    } else {
        let w = v - 0x10000;
        seq![(0xD800 + w / 0x400) as u16, (0xDC00 + w % 0x400) as u16]
    }
}

/// The UTF-16 encoding of a character sequence.
pub open spec fn utf16_encode(s: Seq<char>) -> Seq<u16>
    decreases s.len(),
{
    if s.len() == 0 {
        Seq::empty()
    } else {
        utf16_encode(s.drop_last()) + utf16_of_char(s.last())
    }
}

/// Whether a code unit is a high (leading) surrogate.
pub open spec fn is_high_surrogate(u: u16) -> bool {
    0xD800 <= u < 0xDC00
}

/// Whether a code unit is a low (trailing) surrogate.
pub open spec fn is_low_surrogate(u: u16) -> bool {
    0xDC00 <= u < 0xE000
}

/// The decoding of UTF-16 code units, or `None` where a surrogate is unpaired.
pub open spec fn utf16_decode(units: Seq<u16>) -> Option<Seq<char>>
    decreases units.len(),
{
    if units.len() == 0 {
        Some(Seq::empty())
    } else {
        let u = units[0];
        if !is_high_surrogate(u) && !is_low_surrogate(u) {
            match utf16_decode(units.drop_first()) {
                Some(rest) => Some(seq![u as char] + rest),
                None => None,
            }
        } else if is_high_surrogate(u) && units.len() >= 2 && is_low_surrogate(units[1]) {
            let c = (0x10000 + (u - 0xD800) * 0x400 + (units[1] - 0xDC00)) as char;
            match utf16_decode(units.skip(2)) {
                Some(rest) => Some(seq![c] + rest),
                None => None,
            }
        } else {
            None
        }
    }
}

/// Builds a `String` from UTF-16 code units with `String::from_utf16`.
/// Claimed, as std documents: the decoding of `units`, or nothing when they
/// hold an unpaired surrogate.
#[verifier::external_body]
fn string_from_utf16(units: &[u16]) -> (res: Option<String>)
    ensures
        res is Some <==> utf16_decode(units@) is Some,
        res matches Some(s) ==> utf16_decode(units@) == Some(s@),
{
    String::from_utf16(units).ok()
}

/// The UTF-16 code units of `text`.
pub fn encode_utf16(text: &str) -> (res: Vec<u16>)
    ensures
        res@ == utf16_encode(text@),
{
    let mut out: Vec<u16> = Vec::new();
    for c in it: text.chars()
        invariant
            it.seq() == text@,
            out@ == utf16_encode(text@.take(it.index() as int)),
    {
        let ghost done = text@.take(it.index() as int);
        let v = c as u32;
        if v < 0x10000 {
            out.push(v as u16);
        } else {
            let w = v - 0x10000;
            out.push((0xD800 + w / 0x400) as u16);
            out.push((0xDC00 + w % 0x400) as u16);
        }
        assert(text@.take(it.index() + 1).drop_last() =~= done);
        assert(out@ =~= utf16_encode(done) + utf16_of_char(c));
    }
    assert(text@.take(text@.len() as int) =~= text@);
    out
}

/// The code units of a UTF-16LE field up to its first NUL unit.
pub open spec fn utf16le_units_until_nul(raw: Seq<u8>) -> Seq<u16>
    decreases raw.len(),
{
    if raw.len() < 2 {
        Seq::empty()
    } else {
        let unit = (raw[0] + raw[1] * 0x100) as u16;
        if unit == 0 {
            Seq::empty()
        } else {
            seq![unit] + utf16le_units_until_nul(raw.skip(2))
        }
    }
}

/// The verdict on decoding a NUL-terminated UTF-16LE text field.
pub open spec fn utf16le_field_verdict(raw: Seq<u8>) -> Result<Seq<char>, ConvertError> {
    if raw.len() % 2 != 0 {
        Err(ConvertError::Utf16OddLength)
    } else {
        match utf16_decode(utf16le_units_until_nul(raw)) {
            Some(s) => Ok(s),
            None => Err(ConvertError::InvalidUtf16Title),
        }
    }
}

/// Decodes a UTF-16LE text field that ends at its first NUL unit.
pub fn decode_utf16le_field(raw: &[u8]) -> (res: Result<String, ConvertError>)
    ensures
        match utf16le_field_verdict(raw@) {
            Ok(s) => res matches Ok(t) && t@ == s,
            Err(e) => res == Err::<String, ConvertError>(e),
        },
{
    if raw.len() % 2 != 0 {
        return Err(ConvertError::Utf16OddLength);
    }
    let ghost whole = raw@;
    let mut units: Vec<u16> = Vec::new();
    let mut pos: usize = 0;
    assert(whole.skip(0) =~= whole);
    while pos < raw.len()
        invariant
            whole == raw@,
            whole.len() % 2 == 0,
            pos % 2 == 0,
            pos <= whole.len(),
            units@ + utf16le_units_until_nul(whole.skip(pos as int)) == utf16le_units_until_nul(whole),
        ensures
            units@ == utf16le_units_until_nul(whole),
        decreases whole.len() - pos,
    {
        let unit = (raw[pos] as u16) + (raw[pos + 1] as u16) * 0x100;
        let ghost rest = whole.skip(pos as int);
        assert(rest.skip(2) =~= whole.skip(pos + 2));
        if unit == 0 {
            assert(utf16le_units_until_nul(rest) == Seq::<u16>::empty());
            assert(units@ =~= units@ + utf16le_units_until_nul(rest));
            break;
        }
        assert(utf16le_units_until_nul(rest) == seq![unit] + utf16le_units_until_nul(whole.skip(pos + 2)));
        units.push(unit);
        assert(units@ + utf16le_units_until_nul(whole.skip(pos + 2)) =~= units@.drop_last() + utf16le_units_until_nul(rest));
        pos = pos + 2;
        proof {
            if pos >= whole.len() {
                assert(whole.skip(pos as int) =~= Seq::<u8>::empty());
                assert(units@ =~= units@ + utf16le_units_until_nul(whole.skip(pos as int)));
            }
        }
    }
    match string_from_utf16(units.as_slice()) {
        Some(text) => Ok(text),
        None => Err(ConvertError::InvalidUtf16Title),
    }
}

/// The characters of `text`.
pub fn chars_of(text: &str) -> (res: Vec<char>)
    ensures
        res@ == text@,
{
    let mut out: Vec<char> = Vec::new();
    for c in it: text.chars()
        invariant
            it.seq() == text@,
            out@ == text@.take(it.index() as int),
    {
        out.push(c);
        assert(out@ =~= text@.take(it.index() + 1));
    }
    assert(text@.take(text@.len() as int) =~= text@);
    out
}

proof fn lemma_utf16_encode_concat(a: Seq<char>, b: Seq<char>)
    ensures
        utf16_encode(a + b) == utf16_encode(a) + utf16_encode(b),
    decreases b.len(),
{
    if b.len() == 0 {
        assert(a + b =~= a);
        assert(utf16_encode(a) + utf16_encode(b) =~= utf16_encode(a));
    } else {
        assert((a + b).drop_last() =~= a + b.drop_last());
        assert((a + b).last() == b.last());
        lemma_utf16_encode_concat(a, b.drop_last());
        assert(utf16_encode(a) + utf16_encode(b.drop_last()) + utf16_of_char(b.last()) =~= utf16_encode(a) + (utf16_encode(b.drop_last()) + utf16_of_char(b.last())));
    }
}

proof fn lemma_utf16_decode_char(c: char, rest: Seq<u16>)
    ensures
        utf16_decode(utf16_of_char(c) + rest) == match utf16_decode(rest) {
            Some(r) => Some(seq![c] + r),
            None => None,
        },
{
    let v = c as u32;
    let units = utf16_of_char(c) + rest;
    if v < 0x10000 {
        assert(units[0] == v as u16);
        assert(!(0xD800 <= v < 0xE000));
        assert(units.drop_first() =~= rest);
        assert((v as u16) as char == c);
    } else {
        let w = v - 0x10000;
        assert(v <= 0x10FFFF);
        assert(units[0] == (0xD800 + w / 0x400) as u16);
        assert(units[1] == (0xDC00 + w % 0x400) as u16);
        assert(units.skip(2) =~= rest);
        assert((0xD800 + w / 0x400 - 0xD800) * 0x400 + (0xDC00 + w % 0x400 - 0xDC00) == w);
        assert((0x10000 + w) as char == c);
    }
}

/// Decoding the UTF-16 encoding of any characters gives them back.
pub proof fn lemma_utf16_roundtrip(s: Seq<char>)
    ensures
        utf16_decode(utf16_encode(s)) == Some(s),
    decreases s.len(),
{
    if s.len() > 0 {
        let rest = s.drop_first();
        assert(s =~= seq![s[0]] + rest);
        lemma_utf16_encode_concat(seq![s[0]], rest);
        assert(seq![s[0]].drop_last() =~= Seq::<char>::empty());
        assert(seq![s[0]].last() == s[0]);
        assert(utf16_encode(Seq::<char>::empty()) == Seq::<u16>::empty());
        assert(utf16_encode(seq![s[0]]) =~= utf16_of_char(s[0]));
        lemma_utf16_roundtrip(rest);
        lemma_utf16_decode_char(s[0], utf16_encode(rest));
        assert(seq![s[0]] + rest =~= s);
    } else {
        assert(utf16_encode(s) =~= Seq::<u16>::empty());
        assert(s =~= Seq::<char>::empty());
    }
}

proof fn lemma_char_units_nonzero(c: char)
    requires
        c != '\0',
    ensures
        forall|k: int| 0 <= k < utf16_of_char(c).len() ==> #[trigger] utf16_of_char(c)[k] != 0,
{
    let v = c as u32;
    assert(v != 0) by {
        assert(('\0' as u32) == 0);
        assert((v as char) == c);
    }
    if v < 0x10000 {
        assert(utf16_of_char(c)[0] == v as u16);
    }
}

/// Characters other than NUL encode to non-zero code units only.
pub proof fn lemma_utf16_no_zero_unit(s: Seq<char>)
    requires
        !s.contains('\0'),
    ensures
        forall|i: int| 0 <= i < utf16_encode(s).len() ==> #[trigger] utf16_encode(s)[i] != 0,
    decreases s.len(),
{
    if s.len() > 0 {
        assert(!s.drop_last().contains('\0')) by {
            if s.drop_last().contains('\0') {
                let k = choose|k: int| 0 <= k < s.drop_last().len() && s.drop_last()[k] == '\0';
                assert(s[k] == '\0');
            }
        }
        lemma_utf16_no_zero_unit(s.drop_last());
        assert(s.last() != '\0') by {
            assert(s[s.len() - 1] == s.last());
        }
        let e = utf16_encode(s);
        let prev = utf16_encode(s.drop_last());
        let c = s.last();
        lemma_char_units_nonzero(c);
        assert forall|i: int| 0 <= i < e.len() implies #[trigger] e[i] != 0 by {
            if i >= prev.len() {
                assert(e[i] == utf16_of_char(s.last())[i - prev.len()]);
            } else {
                assert(e[i] == prev[i]);
            }
        }
    }
}

} // verus!
