use crate::error::ConvertError;
use crate::text::chars_of;
use vstd::prelude::*;

verus! {

/// The two AES-256 keys, as the user wrote them in the key configuration.
#[derive(Debug, Clone)]
pub struct KeyConfig {
    pub xbox_save_key: String,
    pub pc_save_key: String,
}

/// Whether `c` has the Unicode `White_Space` property.
pub open spec fn is_unicode_whitespace(c: char) -> bool {
    let v = c as u32;
    ||| 0x09 <= v <= 0x0D
    ||| v == 0x20
    ||| v == 0x85
    ||| v == 0xA0
    ||| v == 0x1680
    ||| 0x2000 <= v <= 0x200A
    ||| v == 0x2028
    ||| v == 0x2029
    ||| v == 0x202F
    ||| v == 0x205F
    ||| v == 0x3000
}

/// Whether `c` is Unicode whitespace, as `char::is_whitespace` decides.
fn char_is_whitespace(c: char) -> (res: bool)
    ensures
        res == is_unicode_whitespace(c),
{
    let v = c as u32;
    (0x09 <= v && v <= 0x0D) || v == 0x20 || v == 0x85 || v == 0xA0 || v == 0x1680 || (0x2000 <= v
        && v <= 0x200A) || v == 0x2028 || v == 0x2029 || v == 0x202F || v == 0x205F || v == 0x3000
}

/// Whether `c` is ASCII whitespace as `char::is_ascii_whitespace` defines it.
pub open spec fn is_ascii_ws(c: char) -> bool {
    c == ' ' || c == '\t' || c == '\n' || c == '\x0C' || c == '\r'
}

/// Number of leading whitespace characters.
pub open spec fn leading_ws(s: Seq<char>) -> nat
    decreases s.len(),
{
    if s.len() > 0 && is_unicode_whitespace(s[0]) {
        1 + leading_ws(s.drop_first())
    } else {
        0
    }
}

/// Number of trailing whitespace characters.
pub open spec fn trailing_ws(s: Seq<char>) -> nat
    decreases s.len(),
{
    if s.len() > 0 && is_unicode_whitespace(s.last()) {
        1 + trailing_ws(s.drop_last())
    } else {
        0
    }
}

/// `s` without leading and trailing whitespace, as `str::trim` gives it.
pub open spec fn trim_ws(s: Seq<char>) -> Seq<char> {
    let t = s.skip(leading_ws(s) as int);
    t.take(t.len() - trailing_ws(t))
}

/// `s` without a leading `0x`.
pub open spec fn strip_hex_prefix(s: Seq<char>) -> Seq<char> {
    if s.len() >= 2 && s[0] == '0' && s[1] == 'x' {
        s.skip(2)
    } else {
        s
    }
}

/// `s` with every ASCII whitespace character removed.
pub open spec fn drop_ascii_ws(s: Seq<char>) -> Seq<char>
    decreases s.len(),
{
    if s.len() == 0 {
        s
    } else if is_ascii_ws(s.last()) {
        drop_ascii_ws(s.drop_last())
    } else {
        drop_ascii_ws(s.drop_last()).push(s.last())
    }
}

/// The text of a key once trimmed, stripped of `0x` and of inner ASCII whitespace.
pub open spec fn key_text(value: Seq<char>) -> Seq<char> {
    drop_ascii_ws(strip_hex_prefix(trim_ws(value)))
}

/// Number of bytes `c` takes in UTF-8.
pub open spec fn utf8_width(c: char) -> nat {
    let v = c as u32;
    if v < 0x80 {
        1
    } else if v < 0x800 {
        2
    } else if v < 0x10000 {
        3
    } else {
        4
    }
}

/// Number of bytes `s` takes in UTF-8, as `str::len` counts them.
pub open spec fn utf8_len(s: Seq<char>) -> nat
    decreases s.len(),
{
    if s.len() == 0 {
        0
    } else {
        utf8_len(s.drop_last()) + utf8_width(s.last())
    }
}

/// Whether a byte is an ASCII hexadecimal digit of either case.
pub open spec fn is_hex_byte(b: u8) -> bool {
    (0x30 <= b <= 0x39) || (0x41 <= b <= 0x46) || (0x61 <= b <= 0x66)
}

/// The value of a hexadecimal digit byte.
pub open spec fn hex_value(b: u8) -> u8 {
    if 0x30 <= b <= 0x39 {
        (b - 0x30) as u8
    } else if 0x41 <= b <= 0x46 {
        (b - 0x41 + 10) as u8
    } else {
        (b - 0x61 + 10) as u8
    }
}

/// Whether `d` is hexadecimal text that `hex::decode` accepts.
pub open spec fn hex_valid(d: Seq<u8>) -> bool {
    d.len() % 2 == 0 && forall|i: int| 0 <= i < d.len() ==> is_hex_byte(#[trigger] d[i])
}

/// The bytes that hexadecimal text `d` denotes, two digits per byte, high nibble first.
pub open spec fn hex_decoded(d: Seq<u8>) -> Seq<u8> {
    Seq::new(d.len() / 2, |i: int| (hex_value(d[2 * i]) * 16 + hex_value(d[2 * i + 1])) as u8)
}

/// Decodes hexadecimal text with `hex::decode`. Claimed, as the crate's
/// source (`FromHex for Vec<u8>`, `val`) shows: success exactly for an even
/// number of digits of either case, each pair giving one byte, high nibble first.
#[verifier::external_body]
fn hex_decode(data: &[u8]) -> (res: Option<Vec<u8>>)
    ensures
        res is Some <==> hex_valid(data@),
        res matches Some(v) ==> v@ == hex_decoded(data@),
{
    hex::decode(data).ok()
}

/// Whether `c` is an ASCII hexadecimal digit.
pub open spec fn is_hex_char(c: char) -> bool {
    ('0' <= c <= '9') || ('A' <= c <= 'F') || ('a' <= c <= 'f')
}

proof fn lemma_drop_ascii_ws_clean(s: Seq<char>)
    ensures
        forall|i: int| 0 <= i < drop_ascii_ws(s).len() ==> !is_ascii_ws(#[trigger] drop_ascii_ws(s)[i]),
        (forall|i: int| 0 <= i < s.len() ==> !is_ascii_ws(#[trigger] s[i])) ==> drop_ascii_ws(s) == s,
    decreases s.len(),
{
    if s.len() > 0 {
        lemma_drop_ascii_ws_clean(s.drop_last());
        let rest = drop_ascii_ws(s.drop_last());
        if !is_ascii_ws(s.last()) {
            assert forall|i: int| 0 <= i < rest.push(s.last()).len() implies !is_ascii_ws(#[trigger] rest.push(s.last())[i]) by {
                if i < rest.len() {
                    assert(rest.push(s.last())[i] == rest[i]);
                }
            }
        }
        if forall|i: int| 0 <= i < s.len() ==> !is_ascii_ws(#[trigger] s[i]) {
            assert forall|i: int| 0 <= i < s.drop_last().len() implies !is_ascii_ws(#[trigger] s.drop_last()[i]) by {
                assert(s.drop_last()[i] == s[i]);
            }
            assert(!is_ascii_ws(s[s.len() - 1]));
            assert(s.drop_last().push(s.last()) =~= s);
        }
    }
}

/// The cleaned-up key text never holds ASCII whitespace, and text made only
/// of hexadecimal digits, with or without a leading `0x`, cleans up to the
/// digits themselves.
pub proof fn lemma_key_text_cleanup(value: Seq<char>, digits: Seq<char>)
    ensures
        forall|i: int| 0 <= i < key_text(value).len() ==> !is_ascii_ws(#[trigger] key_text(value)[i]),
        (forall|i: int| 0 <= i < digits.len() ==> is_hex_char(#[trigger] digits[i])) ==> key_text(digits) == digits && key_text(
            seq!['0', 'x'] + digits,
        ) == digits,
{
    lemma_drop_ascii_ws_clean(strip_hex_prefix(trim_ws(value)));
    if forall|i: int| 0 <= i < digits.len() ==> is_hex_char(#[trigger] digits[i]) {
        assert forall|i: int| 0 <= i < digits.len() implies !is_unicode_whitespace(#[trigger] digits[i]) && !is_ascii_ws(digits[i]) by {
            assert(is_hex_char(digits[i]));
        }
        lemma_drop_ascii_ws_clean(digits);
        assert(leading_ws(digits) == 0);
        assert(digits.skip(0) =~= digits);
        assert(trailing_ws(digits) == 0);
        assert(digits.take(digits.len() as int) =~= digits);
        assert(trim_ws(digits) == digits);
        if digits.len() >= 2 {
            assert(is_hex_char(digits[1]));
        }
        assert(strip_hex_prefix(digits) == digits);
        let prefixed = seq!['0', 'x'] + digits;
        assert(prefixed[0] == '0');
        assert(leading_ws(prefixed) == 0);
        assert(prefixed.skip(0) =~= prefixed);
        if digits.len() > 0 {
            assert(prefixed.last() == digits.last());
            assert(is_hex_char(digits[digits.len() - 1]));
        } else {
            assert(prefixed.last() == 'x');
        }
        assert(trailing_ws(prefixed) == 0);
        assert(prefixed.take(prefixed.len() as int) =~= prefixed);
        assert(trim_ws(prefixed) == prefixed);
        assert(prefixed.skip(2) =~= digits);
        assert(strip_hex_prefix(prefixed) == digits);
    }
}

/// Whether the cleaned-up key text takes exactly 64 bytes.
pub open spec fn key_length_ok(value: Seq<char>) -> bool {
    utf8_len(key_text(value)) == 64
}

/// Whether every character of the cleaned-up key text is a hexadecimal digit.
pub open spec fn key_is_hex(value: Seq<char>) -> bool {
    forall|i: int| 0 <= i < key_text(value).len() ==> is_hex_char(#[trigger] key_text(value)[i])
}

/// The bytes of the cleaned-up key text, one per (ASCII) character.
pub open spec fn ascii_bytes(t: Seq<char>) -> Seq<u8> {
    Seq::new(t.len(), |i: int| (t[i] as u32) as u8)
}

/// The key that the cleaned-up key text denotes.
pub open spec fn key_bytes(value: Seq<char>) -> Seq<u8> {
    hex_decoded(ascii_bytes(key_text(value)))
}

/// The bounds of `s` without its leading and trailing whitespace.
fn trim_bounds(s: &Vec<char>) -> (res: (usize, usize))
    ensures
        res.0 <= res.1 <= s@.len(),
        trim_ws(s@) == s@.subrange(res.0 as int, res.1 as int),
{
    let ghost q = s@;
    let n = s.len();
    let mut i: usize = 0;
    assert(q.skip(0) =~= q);
    while i < n && char_is_whitespace(s[i])
        invariant
            q == s@,
            n == q.len(),
            i <= n,
            leading_ws(q) == i + leading_ws(q.skip(i as int)),
        decreases n - i,
    {
        assert(q.skip(i as int).drop_first() =~= q.skip(i + 1));
        i = i + 1;
    }
    let ghost t = q.skip(i as int);
    assert(leading_ws(t) == 0);
    let mut j: usize = n;
    assert(t.take(t.len() as int) =~= t);
    while j > i && char_is_whitespace(s[j - 1])
        invariant
            q == s@,
            n == q.len(),
            i <= j <= n,
            t == q.skip(i as int),
            trailing_ws(t) == (n - j) + trailing_ws(t.take(j - i)),
        decreases j,
    {
        assert(t.take(j - i).drop_last() =~= t.take(j - 1 - i));
        assert(t.take(j - i).last() == q[j - 1]);
        j = j - 1;
    }
    proof {
        if j > i {
            assert(t.take(j - i).last() == q[j - 1]);
        }
        assert(trailing_ws(t.take(j - i)) == 0);
        assert(t.take(t.len() - trailing_ws(t)) =~= q.subrange(i as int, j as int));
    }
    (i, j)
}

/// The cleaned-up text of a key: trimmed, without `0x`, without ASCII whitespace.
fn key_text_of(value: &str) -> (res: Vec<char>)
    ensures
        res@ == key_text(value@),
{
    let chars = chars_of(value);
    let (i, j) = trim_bounds(&chars);
    let ghost trimmed = chars@.subrange(i as int, j as int);
    let start = if j - i >= 2 && chars[i] == '0' && chars[i + 1] == 'x' { i + 2 } else { i };
    let ghost u = chars@.subrange(start as int, j as int);
    assert(u =~= strip_hex_prefix(trimmed));
    let mut out: Vec<char> = Vec::new();
    let mut k: usize = start;
    assert(u.take(0) =~= Seq::<char>::empty());
    while k < j
        invariant
            start <= k <= j <= chars@.len(),
            u == chars@.subrange(start as int, j as int),
            out@ == drop_ascii_ws(u.take(k - start)),
        decreases j - k,
    {
        let c = chars[k];
        assert(u.take(k + 1 - start).drop_last() =~= u.take(k - start));
        assert(u.take(k + 1 - start).last() == c);
        if !(c == ' ' || c == '\t' || c == '\n' || c == '\x0C' || c == '\r') {
            out.push(c);
        }
        k = k + 1;
    }
    assert(u.take(j - start) =~= u);
    out
}

/// Whether `t` takes exactly 64 bytes in UTF-8.
fn utf8_len_is_64(t: &Vec<char>) -> (res: bool)
    ensures
        res == (utf8_len(t@) == 64),
{
    let mut total: usize = 0;
    let mut k: usize = 0;
    while k < t.len()
        invariant
            k <= t@.len(),
            total == if utf8_len(t@.take(k as int)) > 65 { 65 } else { utf8_len(t@.take(k as int)) },
        decreases t@.len() - k,
    {
        let v = t[k] as u32;
        let width: usize = if v < 0x80 { 1 } else if v < 0x800 { 2 } else if v < 0x10000 { 3 } else { 4 };
        assert(t@.take(k + 1).drop_last() =~= t@.take(k as int));
        total = total + width;
        if total > 65 {
            total = 65;
        }
        k = k + 1;
    }
    assert(t@.take(t@.len() as int) =~= t@);
    total == 64
}

proof fn lemma_ascii_utf8_len(t: Seq<char>)
    requires
        forall|i: int| 0 <= i < t.len() ==> is_hex_char(#[trigger] t[i]),
    ensures
        utf8_len(t) == t.len(),
    decreases t.len(),
{
    if t.len() > 0 {
        assert(is_hex_char(t[t.len() - 1]));
        lemma_ascii_utf8_len(t.drop_last());
    }
}

proof fn lemma_utf8_len_at_least(t: Seq<char>)
    ensures
        utf8_len(t) >= t.len(),
        utf8_len(t) == t.len() ==> forall|i: int| 0 <= i < t.len() ==> (#[trigger] t[i] as u32) < 0x80,
    decreases t.len(),
{
    if t.len() > 0 {
        lemma_utf8_len_at_least(t.drop_last());
        assert forall|i: int| 0 <= i < t.len() && utf8_len(t) == t.len() implies (#[trigger] t[i] as u32) < 0x80 by {
            if i < t.len() - 1 {
                assert(t.drop_last()[i] == t[i]);
            }
        }
    }
}

/// A key text that takes 64 bytes passes the digit check exactly when it is
/// 64 characters whose bytes `hex::decode` accepts: digits of either case.
pub proof fn lemma_key_digits_are_hex_text(value: Seq<char>)
    requires
        key_length_ok(value),
    ensures
        key_is_hex(value) <==> (key_text(value).len() == 64 && hex_valid(ascii_bytes(key_text(value)))),
{
    let t = key_text(value);
    lemma_utf8_len_at_least(t);
    if key_is_hex(value) {
        lemma_ascii_utf8_len(t);
        assert forall|i: int| 0 <= i < ascii_bytes(t).len() implies is_hex_byte(#[trigger] ascii_bytes(t)[i]) by {
            assert(is_hex_char(t[i]));
        }
    }
    if t.len() == 64 && hex_valid(ascii_bytes(t)) {
        assert forall|i: int| 0 <= i < t.len() implies is_hex_char(#[trigger] t[i]) by {
            let v = t[i] as u32;
            assert(is_hex_byte(ascii_bytes(t)[i]));
            assert(v < 0x80);
            assert((v as u8) as u32 == v) by (bit_vector)
                requires
                    v < 0x80u32,
            ;
            assert(ascii_bytes(t)[i] == v as u8);
            assert(is_hex_byte(v as u8));
            assert(0x30 <= v <= 0x39 || 0x41 <= v <= 0x46 || 0x61 <= v <= 0x66);
            let c = t[i];
            let cv = c as u32;
            vstd::utf8::char_u32_cast(c, cv);
            assert((cv as char) as int == cv as int);
            assert(c as int == cv as int);
            if !is_hex_char(c) {
                if c >= 'a' {
                    assert(cv > 0x66);
                } else if c >= 'A' {
                    assert(cv > 0x46 && 0x61 > cv);
                } else if c >= '0' {
                    assert(cv > 0x39 && 0x41 > cv);
                } else {
                    assert(0x30 > cv);
                }
            }
        }
    }
}

/// Parses one AES-256 key from its configured text: surrounding whitespace
/// and a `0x` prefix are dropped, ASCII whitespace inside is ignored, and the
/// rest must be exactly 64 hexadecimal digits.
pub fn parse_key(label: &str, value: &str) -> (res: Result<[u8; 32], ConvertError>)
    ensures
        !key_length_ok(value@) ==> (res matches Err(ConvertError::KeyLength { label: l }) && l@ == label@),
        key_length_ok(value@) && !key_is_hex(value@) ==> (res matches Err(ConvertError::KeyNotHex { label: l }) && l@ == label@),
        key_length_ok(value@) && key_is_hex(value@) ==> (res matches Ok(k) && k@ == key_bytes(value@)),
{
    let text = key_text_of(value);
    if !utf8_len_is_64(&text) {
        return Err(ConvertError::KeyLength { label: label.to_owned() });
    }
    let mut digits: Vec<u8> = Vec::with_capacity(text.len());
    let mut k: usize = 0;
    while k < text.len()
        invariant
            text@ == key_text(value@),
            utf8_len(text@) == 64,
            k <= text@.len(),
            digits@.len() == k,
            forall|i: int| 0 <= i < k ==> is_hex_char(#[trigger] text@[i]),
            forall|i: int| 0 <= i < k ==> #[trigger] digits@[i] == (text@[i] as u32) as u8,
        decreases text@.len() - k,
    {
        let c = text[k];
        if !(('0' <= c && c <= '9') || ('A' <= c && c <= 'F') || ('a' <= c && c <= 'f')) {
            return Err(ConvertError::KeyNotHex { label: label.to_owned() });
        }
        digits.push((c as u32) as u8);
        k = k + 1;
    }
    assert(digits@ =~= ascii_bytes(text@));
    proof {
        lemma_ascii_utf8_len(text@);
        assert forall|i: int| 0 <= i < digits@.len() implies is_hex_byte(#[trigger] digits@[i]) by {
            assert(is_hex_char(text@[i]));
        }
    }
    let decoded = match hex_decode(digits.as_slice()) {
        Some(bytes) => bytes,
        None => {
            return Err(ConvertError::KeyNotHex { label: label.to_owned() });
        },
    };
    let mut key: [u8; 32] = [0u8; 32];
    let mut b: usize = 0;
    while b < 32
        invariant
            decoded@.len() == 32,
            b <= 32,
            forall|i: int| 0 <= i < b ==> #[trigger] key@[i] == decoded@[i],
        decreases 32 - b,
    {
        key[b] = decoded[b];
        b = b + 1;
    }
    assert(key@ =~= decoded@);
    Ok(key)
}

impl KeyConfig {
    /// Parses the Xbox key and then the PC key.
    pub fn keys(&self) -> (res: Result<([u8; 32], [u8; 32]), ConvertError>)
        ensures
            !key_length_ok(self.xbox_save_key@) ==> (res matches Err(ConvertError::KeyLength { label: l }) && l@ == "xbox_save_key"@),
            key_length_ok(self.xbox_save_key@) && !key_is_hex(self.xbox_save_key@) ==> (res matches Err(ConvertError::KeyNotHex { label: l }) && l@ == "xbox_save_key"@),
            key_length_ok(self.xbox_save_key@) && key_is_hex(self.xbox_save_key@) && !key_length_ok(self.pc_save_key@) ==> (res matches Err(ConvertError::KeyLength { label: l }) && l@ == "pc_save_key"@),
            key_length_ok(self.xbox_save_key@) && key_is_hex(self.xbox_save_key@) && key_length_ok(self.pc_save_key@) && !key_is_hex(self.pc_save_key@) ==> (res matches Err(ConvertError::KeyNotHex { label: l }) && l@ == "pc_save_key"@),
            key_length_ok(self.xbox_save_key@) && key_is_hex(self.xbox_save_key@) && key_length_ok(self.pc_save_key@) && key_is_hex(self.pc_save_key@) ==> (res matches Ok(ks) && ks.0@ == key_bytes(self.xbox_save_key@) && ks.1@ == key_bytes(self.pc_save_key@)),
    {
        let xbox = parse_key("xbox_save_key", self.xbox_save_key.as_str())?;
        let pc = parse_key("pc_save_key", self.pc_save_key.as_str())?;
        Ok((xbox, pc))
    }
}

} // verus!
