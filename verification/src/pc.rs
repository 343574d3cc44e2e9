use crate::bytes::{be_bytes, bytes_equal, push_u32_be, read_u32_be, swap_each_u32, swapped_words, u32_be_at};
use crate::checksum::{digest_finish, digest_step, jooat_fold, jooat_update};
use crate::crypto::{aes_ecb, ecb};
use crate::error::ConvertError;
use crate::rsav::{rsav_verdict, validate_rsav, RsavValidation};
use crate::text::{encode_utf16, lemma_utf16_no_zero_unit, lemma_utf16_roundtrip, utf16_encode, utf16le_field_verdict, utf16le_units_until_nul};
use vstd::prelude::*;

verus! {

/// Size of the header in front of a PC save's encrypted payload.
pub const PC_HEADER_SIZE: usize = 0x110;

/// How many leading code units fit in a `size`-byte field that keeps room
/// for a NUL unit behind them.
pub open spec fn utf16_field_count(units: Seq<u16>, size: int) -> int {
    if size < 4 {
        0
    } else if units.len() <= (size - 4) / 2 + 1 {
        units.len() as int
    } else {
        (size - 4) / 2 + 1
    }
}

/// A `size`-byte UTF-16LE field: the code units that fit, then zeros.
pub open spec fn utf16_field(units: Seq<u16>, size: int) -> Seq<u8> {
    let count = utf16_field_count(units, size);
    Seq::new(
        size as nat,
        |i: int|
            if i < 2 * count {
                if i % 2 == 0 {
                    (units[i / 2] % 0x100) as u8
                } else {
                    (units[i / 2] / 0x100) as u8
                }
            } else {
                0u8
            },
    )
}

/// Writes `text` as a NUL-terminated UTF-16LE field of exactly `size`
/// bytes, dropping the code units that would not leave room for the NUL.
pub fn encode_utf16le_field(text: &str, size: usize) -> (res: Vec<u8>)
    ensures
        res@ == utf16_field(utf16_encode(text@), size as int),
{
    let units = encode_utf16(text);
    let ghost spec_units = utf16_encode(text@);
    let count: usize = if size < 4 {
        0
    } else if units.len() <= (size - 4) / 2 + 1 {
        units.len()
    } else {
        (size - 4) / 2 + 1
    };
    let ghost field = utf16_field(spec_units, size as int);
    let mut output: Vec<u8> = Vec::with_capacity(size);
    let mut k: usize = 0;
    while k < size
        invariant
            units@ == spec_units,
            field == utf16_field(spec_units, size as int),
            count == utf16_field_count(spec_units, size as int),
            k <= size,
            output@.len() == k,
            forall|j: int| 0 <= j < k ==> #[trigger] output@[j] == field[j],
        decreases size - k,
    {
        let byte: u8 = if k < 2 * count {
            let unit = units[k / 2];
            if k % 2 == 0 {
                (unit % 0x100) as u8
            } else {
                (unit / 0x100) as u8
            }
        } else {
            0
        };
        output.push(byte);
        k = k + 1;
    }
    assert(output@ =~= field);
    output
}

/// The PC header checksum: the one-at-a-time hash, seeded with zero, of the
/// byte-swapped version word, continued over the byte-swapped timestamp and
/// reserved words.
pub open spec fn pc_checksum_spec(h: Seq<u8>) -> u32 {
    let first = swapped_words(h.subrange(0, 4));
    let second = swapped_words(h.subrange(0x104, 0x10C));
    digest_finish(jooat_fold(digest_finish(jooat_fold(0, first)), second))
}

/// Computes the checksum of a PC header; fails unless the header has the PC
/// header size.
pub fn pc_header_checksum(header: &[u8]) -> (res: Result<u32, ConvertError>)
    ensures
        header@.len() == PC_HEADER_SIZE ==> res == Ok::<u32, ConvertError>(pc_checksum_spec(header@)),
        header@.len() != PC_HEADER_SIZE ==> res == Err::<u32, ConvertError>(ConvertError::PcHeaderLength),
{
    if header.len() != PC_HEADER_SIZE {
        return Err(ConvertError::PcHeaderLength);
    }
    let first = swap_each_u32(&header[0..4])?;
    let second = swap_each_u32(&header[0x104..0x10C])?;
    let value = digest_step(jooat_update(0, first.as_slice()));
    Ok(digest_step(jooat_update(value, second.as_slice())))
}

/// The PC header before its checksum is filled in: version 4 (big-endian),
/// the title field, the timestamp (big-endian), and eight zero bytes.
pub open spec fn pc_header_unsigned(title: Seq<char>, timestamp: u32) -> Seq<u8> {
    be_bytes(4) + utf16_field(utf16_encode(title), 0x100) + be_bytes(timestamp) + seq![
        0u8,
        0,
        0,
        0,
        0,
        0,
        0,
        0,
    ]
}

/// The PC header for a save with this title and timestamp.
pub open spec fn pc_header_spec(title: Seq<char>, timestamp: u32) -> Seq<u8> {
    let unsigned = pc_header_unsigned(title, timestamp);
    unsigned.subrange(0, 0x10C) + be_bytes(pc_checksum_spec(unsigned))
}

/// Builds the PC header for a save with this title and timestamp.
pub fn build_pc_header(title: &str, timestamp: u32) -> (res: Result<Vec<u8>, ConvertError>)
    ensures
        res matches Ok(h) && h@ == pc_header_spec(title@, timestamp),
{
    let mut header: Vec<u8> = Vec::with_capacity(PC_HEADER_SIZE);
    push_u32_be(&mut header, 4);
    let field = encode_utf16le_field(title, 0x100);
    header.extend_from_slice(field.as_slice());
    push_u32_be(&mut header, timestamp);
    push_u32_be(&mut header, 0);
    push_u32_be(&mut header, 0);
    assert(be_bytes(0) =~= seq![0u8, 0, 0, 0]);
    assert(header@ =~= pc_header_unsigned(title@, timestamp));
    let checksum = pc_header_checksum(header.as_slice())?;
    header.truncate(0x10C);
    push_u32_be(&mut header, checksum);
    Ok(header)
}

/// `h` with its stored checksum (bytes 0x10C..0x110) zeroed.
pub open spec fn with_checksum_zeroed(h: Seq<u8>) -> Seq<u8> {
    h.subrange(0, 0x10C) + seq![0u8, 0, 0, 0]
}

/// The verdict on a PC save file under `key`: the first check that fails,
/// in the order length, header version, header checksum, payload, and
/// re-encryption; or the payload's validation summary.
#[verifier::opaque]
pub open spec fn pc_verdict(f: Seq<u8>, key: Seq<u8>) -> Result<RsavValidation, ConvertError> {
    let body = f.subrange(PC_HEADER_SIZE as int, f.len() as int);
    let payload = ecb(key, body, false);
    if f.len() < PC_HEADER_SIZE + 16 || (f.len() - PC_HEADER_SIZE) % 16 != 0 {
        Err(ConvertError::PcLength)
    } else if u32_be_at(f, 0) != 4 {
        Err(ConvertError::PcHeaderVersion)
    } else if pc_checksum_spec(with_checksum_zeroed(f.subrange(0, PC_HEADER_SIZE as int)))
        != u32_be_at(f, 0x10C) {
        Err(ConvertError::PcHeaderChecksum)
    } else if rsav_verdict(payload) is Err {
        rsav_verdict(payload)
    } else if ecb(key, payload, true) != body {
        Err(ConvertError::PcRoundTrip)
    } else {
        rsav_verdict(payload)
    }
}

/// Validates a PC save file: its length, header version and checksum, that
/// its payload decrypts under `pc_key` to a valid RSAV, and that encrypting
/// that payload again gives back the file's payload bytes.
pub fn validate_pc_file(pc_file: &[u8], pc_key: &[u8; 32]) -> (res: Result<RsavValidation, ConvertError>)
    ensures
        res == pc_verdict(pc_file@, pc_key@),
{
    reveal(pc_verdict);
    let ghost f = pc_file@;
    let len = pc_file.len();
    if len < PC_HEADER_SIZE + 16 || (len - PC_HEADER_SIZE) % 16 != 0 {
        return Err(ConvertError::PcLength);
    }
    if read_u32_be(pc_file, 0)? != 4 {
        return Err(ConvertError::PcHeaderVersion);
    }
    let expected = read_u32_be(pc_file, 0x10C)?;
    let mut scratch: Vec<u8> = Vec::with_capacity(PC_HEADER_SIZE);
    scratch.extend_from_slice(&pc_file[0..0x10C]);
    scratch.push(0);
    scratch.push(0);
    scratch.push(0);
    scratch.push(0);
    assert(scratch@ =~= with_checksum_zeroed(f.subrange(0, PC_HEADER_SIZE as int)));
    if pc_header_checksum(scratch.as_slice())? != expected {
        return Err(ConvertError::PcHeaderChecksum);
    }
    let body = &pc_file[PC_HEADER_SIZE..len];
    assert(body@ == f.subrange(PC_HEADER_SIZE as int, f.len() as int));
    let payload = aes_ecb(body, pc_key, false)?;
    let validation = validate_rsav(payload.as_slice())?;
    let again = aes_ecb(payload.as_slice(), pc_key, true)?;
    if !bytes_equal(again.as_slice(), body) {
        return Err(ConvertError::PcRoundTrip);
    }
    Ok(validation)
}

/// A PC header built for any title and timestamp carries the checksum of
/// itself with the checksum field zeroed, so it passes the header check.
pub proof fn lemma_pc_header_self_consistent(title: Seq<char>, timestamp: u32)
    ensures
        pc_header_spec(title, timestamp).len() == PC_HEADER_SIZE,
        pc_checksum_spec(with_checksum_zeroed(pc_header_spec(title, timestamp))) == u32_be_at(
            pc_header_spec(title, timestamp),
            0x10C,
        ),
{
    let unsigned = pc_header_unsigned(title, timestamp);
    let header = pc_header_spec(title, timestamp);
    let zeroed = with_checksum_zeroed(header);
    assert(unsigned.len() == PC_HEADER_SIZE);
    assert(zeroed =~= unsigned);
    crate::bytes::lemma_be_bytes_roundtrip(pc_checksum_spec(unsigned));
    assert(header.subrange(0x10C, 0x110) =~= be_bytes(pc_checksum_spec(unsigned)));
    assert(u32_be_at(header, 0x10C) == u32_be_at(be_bytes(pc_checksum_spec(unsigned)), 0));
}

/// The PC header for any title and timestamp is 0x110 bytes: version 4 as a
/// big-endian word, the title field, the timestamp as a big-endian word at
/// 0x104, eight zero bytes, and the checksum.
pub proof fn lemma_pc_header_layout(title: Seq<char>, timestamp: u32)
    ensures
        pc_header_spec(title, timestamp).len() == PC_HEADER_SIZE,
        pc_header_spec(title, timestamp)[0] == 0 && pc_header_spec(title, timestamp)[1] == 0
            && pc_header_spec(title, timestamp)[2] == 0 && pc_header_spec(title, timestamp)[3] == 4,
        pc_header_spec(title, timestamp)[0x104] as int * 0x100_0000 + pc_header_spec(title, timestamp)[0x105] as int
            * 0x1_0000 + pc_header_spec(title, timestamp)[0x106] as int * 0x100 + pc_header_spec(title, timestamp)[0x107] as int
            == timestamp as int,
        forall|i: int| 0x108 <= i < 0x10C ==> #[trigger] pc_header_spec(title, timestamp)[i] == 0,
{
    let h = pc_header_spec(title, timestamp);
    let unsigned = pc_header_unsigned(title, timestamp);
    crate::bytes::lemma_be_bytes_roundtrip(timestamp);
    let b = be_bytes(timestamp);
    assert(h.subrange(0x104, 0x108) =~= b);
    assert(h[0x104] == b[0] && h[0x105] == b[1] && h[0x106] == b[2] && h[0x107] == b[3]);
    assert(u32_be_at(b, 0) == timestamp);
    assert(b[3] + b[2] * 0x100 + b[1] * 0x1_0000 + b[0] * 0x100_0000 == timestamp as int);
    assert(h.subrange(0, 4) =~= be_bytes(4));
}

proof fn lemma_field_units(units: Seq<u16>, size: int)
    requires
        forall|i: int| 0 <= i < units.len() ==> #[trigger] units[i] != 0,
        2 * units.len() + 2 <= size,
    ensures
        utf16le_units_until_nul(utf16_field(units, size)) == units,
    decreases units.len(),
{
    let f = utf16_field(units, size);
    assert(units.len() > 0 ==> utf16_field_count(units, size) == units.len());
    if units.len() == 0 {
        assert(f[0] == 0 && f[1] == 0);
        assert(units =~= Seq::<u16>::empty());
    } else {
        let u = units[0];
        assert(f[0] == (u % 0x100) as u8);
        assert(f[1] == (u / 0x100) as u8);
        assert((f[0] + f[1] * 0x100) as u16 == u);
        let rest = units.drop_first();
        assert forall|i: int| 0 <= i < rest.len() implies #[trigger] rest[i] != 0 by {
            assert(rest[i] == units[i + 1]);
        }
        assert(utf16_field_count(rest, size - 2) == rest.len());
        assert forall|i: int| 0 <= i < size - 2 implies #[trigger] f.skip(2)[i] == utf16_field(rest, size - 2)[i] by {
            assert(f.skip(2)[i] == f[i + 2]);
            if i < 2 * rest.len() {
                assert((i + 2) / 2 == i / 2 + 1);
                assert(rest[i / 2] == units[i / 2 + 1]);
            }
        }
        assert(f.skip(2) =~= utf16_field(rest, size - 2));
        lemma_field_units(rest, size - 2);
        assert(seq![u] + rest =~= units);
    }
}

/// A title without NUL characters whose UTF-16 encoding, with a NUL unit
/// behind it, fits the 0x100-byte title field is stored whole in the PC
/// header, and decoding that field gives the title back.
pub proof fn lemma_title_field_roundtrip(title: Seq<char>, timestamp: u32)
    requires
        !title.contains('\0'),
        2 * utf16_encode(title).len() + 2 <= 0x100,
    ensures
        pc_header_spec(title, timestamp).subrange(4, 0x104) == utf16_field(utf16_encode(title), 0x100),
        utf16le_field_verdict(utf16_field(utf16_encode(title), 0x100)) == Ok::<Seq<char>, ConvertError>(title),
{
    let units = utf16_encode(title);
    lemma_utf16_no_zero_unit(title);
    lemma_field_units(units, 0x100);
    lemma_utf16_roundtrip(title);
    assert(pc_header_spec(title, timestamp).subrange(4, 0x104) =~= utf16_field(units, 0x100));
}

/// A PC file made of the header for a title and timestamp followed by a
/// body that decrypts under `key` to a valid RSAV payload, and that this
/// payload encrypts back to, validates with that payload's summary.
pub proof fn lemma_built_pc_file_validates(title: Seq<char>, timestamp: u32, body: Seq<u8>, payload: Seq<u8>, key: Seq<u8>)
    requires
        ecb(key, body, false) == payload,
        ecb(key, payload, true) == body,
        rsav_verdict(payload) is Ok,
    ensures
        pc_verdict(pc_header_spec(title, timestamp) + body, key) == rsav_verdict(payload),
{
    reveal(pc_verdict);
    reveal(rsav_verdict);
    let header = pc_header_spec(title, timestamp);
    let f = header + body;
    lemma_pc_header_self_consistent(title, timestamp);
    crate::bytes::lemma_be_bytes_roundtrip(4);
    assert(header.len() == PC_HEADER_SIZE);
    assert(payload.len() == body.len());
    assert(f.subrange(0, 4) =~= be_bytes(4));
    assert(u32_be_at(f, 0) == u32_be_at(be_bytes(4), 0));
    assert(f.subrange(0, PC_HEADER_SIZE as int) =~= header);
    assert(u32_be_at(f, 0x10C) == u32_be_at(header, 0x10C));
    assert(f.subrange(PC_HEADER_SIZE as int, f.len() as int) =~= body);
}

} // verus!
