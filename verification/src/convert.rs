use crate::bytes::{bytes_equal, read_u32_le, u32_le_at};
use crate::crypto::{aes_ecb, ecb, hex_lower, lemma_ecb_first_block, lemma_ecb_last_block, sha256_hex, sha256_spec};
use crate::error::ConvertError;
use crate::pc::{build_pc_header, pc_header_spec, pc_verdict, validate_pc_file, PC_HEADER_SIZE};
use crate::rsav::{
    bytes_at, ends_block, lemma_valid_rsav_code_nonempty, rsav_verdict, validate_rsav, RsavValidation,
    RSAV_HEADER_SIZE,
};
use crate::slots::XboxSlot;
use vstd::prelude::*;

verus! {

/// Whether `first` opens an RSAV v3 header with a non-empty CODE block and
/// `last` is the `ENDS` trailer.
pub open spec fn rsav_frame(first: Seq<u8>, last: Seq<u8>) -> bool {
    &&& bytes_at(first, 0, seq![0x52u8, 0x53, 0x41, 0x56])
    &&& u32_le_at(first, 4) == 3
    &&& u32_le_at(first, 8) == RSAV_HEADER_SIZE
    &&& u32_le_at(first, 12) != 0
    &&& last == ends_block()
}

/// Whether `key` decrypts the first and last blocks of `data` to an RSAV frame.
pub open spec fn xbox_key_fits(key: Seq<u8>, data: Seq<u8>) -> bool {
    rsav_frame(ecb(key, data.take(16), false), ecb(key, data.skip(data.len() - 16), false))
}

/// Whether two decrypted 16-byte blocks frame an RSAV payload: the first
/// opens an RSAV v3 header with a non-empty CODE block, the last is `ENDS`.
pub fn xbox_frame_fits(first: &[u8], last: &[u8]) -> (res: bool)
    requires
        first@.len() == 16,
    ensures
        res == rsav_frame(first@, last@),
{
    let magic: [u8; 4] = [0x52u8, 0x53, 0x41, 0x56];
    let ends: [u8; 16] = [0x45u8, 0x4E, 0x44, 0x53, 0, 0, 0, 0, 0, 0, 0, 0, 0, 0, 0, 0];
    assert(magic@ == seq![0x52u8, 0x53, 0x41, 0x56]);
    assert(ends@ == ends_block());
    let version = match read_u32_le(first, 4) {
        Ok(v) => v,
        Err(_) => {
            return false;
        },
    };
    let header_size = match read_u32_le(first, 8) {
        Ok(v) => v,
        Err(_) => {
            return false;
        },
    };
    let code_size = match read_u32_le(first, 12) {
        Ok(v) => v,
        Err(_) => {
            return false;
        },
    };
    crate::rsav::bytes_match(first, 0, magic.as_slice()) && version == 3 && header_size as usize
        == RSAV_HEADER_SIZE && code_size != 0 && bytes_equal(last, ends.as_slice())
}

/// The index of the first slot from `i` on that the key does not fit.
pub open spec fn first_key_mismatch(key: Seq<u8>, slots: Seq<XboxSlot>, i: int) -> Option<int>
    decreases slots.len() - i,
{
    if i < 0 || i >= slots.len() {
        None
    } else if !xbox_key_fits(key, slots[i].data@) {
        Some(i)
    } else {
        first_key_mismatch(key, slots, i + 1)
    }
}

proof fn lemma_key_prefix(key: Seq<u8>, slots: Seq<XboxSlot>, i: int)
    requires
        0 <= i <= slots.len(),
        forall|j: int| 0 <= j < i ==> xbox_key_fits(key, #[trigger] slots[j].data@),
    ensures
        first_key_mismatch(key, slots, 0) == first_key_mismatch(key, slots, i),
    decreases i,
{
    if i > 0 {
        lemma_key_prefix(key, slots, i - 1);
        assert(xbox_key_fits(key, slots[i - 1].data@));
    }
}

/// Checks, before any conversion, that the Xbox key fits every slot.
pub fn verify_xbox_key(key: &[u8; 32], slots: &Vec<XboxSlot>) -> (res: Result<(), ConvertError>)
    requires
        forall|i: int| 0 <= i < slots@.len() ==> #[trigger] slots@[i].data@.len() >= 16,
    ensures
        first_key_mismatch(key@, slots@, 0) is None ==> res is Ok,
        first_key_mismatch(key@, slots@, 0) matches Some(i) ==> (res matches Err(ConvertError::XboxKeyMismatch { slot: n }) && n@ == slots@[i].xbox_name@),
        (forall|i: int| 0 <= i < slots@.len() ==> payload_valid(key@, #[trigger] slots@[i])) ==> first_key_mismatch(key@, slots@, 0) is None && res is Ok,
{
    proof {
        lemma_valid_payloads_fit_key(key@, slots@);
    }
    let mut i: usize = 0;
    while i < slots.len()
        invariant
            forall|j: int| 0 <= j < slots@.len() ==> #[trigger] slots@[j].data@.len() >= 16,
            i <= slots@.len(),
            forall|j: int| 0 <= j < i ==> xbox_key_fits(key@, #[trigger] slots@[j].data@),
            (forall|j: int| 0 <= j < slots@.len() ==> payload_valid(key@, #[trigger] slots@[j])) ==> (forall|j: int| 0 <= j < slots@.len() ==> xbox_key_fits(key@, #[trigger] slots@[j].data@)),
        decreases slots@.len() - i,
    {
        proof {
            lemma_key_prefix(key@, slots@, i as int);
        }
        let slot = &slots[i];
        assert(slot.data@.len() >= 16);
        let len = slot.data.len();
        let head = &slot.data.as_slice()[0..16];
        let tail = &slot.data.as_slice()[len - 16..len];
        assert(head@ == slot.data@.take(16));
        assert(tail@ == slot.data@.skip(len - 16));
        let first = aes_ecb(head, key, false)?;
        let last = aes_ecb(tail, key, false)?;
        let fits = xbox_frame_fits(first.as_slice(), last.as_slice());
        if !fits {
            return Err(ConvertError::XboxKeyMismatch { slot: slot.xbox_name.clone() });
        }
        i = i + 1;
    }
    proof {
        lemma_key_prefix(key@, slots@, slots@.len() as int);
    }
    Ok(())
}

/// A slot whose PC save file has been built and checked, ready to be written.
#[derive(Debug)]
pub struct PreparedSave {
    pub slot: XboxSlot,
    pub pc_file: Vec<u8>,
    pub validation: RsavValidation,
}

/// The decrypted RSAV payload of a slot under the Xbox key.
pub open spec fn xbox_payload(xbox_key: Seq<u8>, s: XboxSlot) -> Seq<u8> {
    ecb(xbox_key, s.data@, false)
}

/// The PC save file for a slot: the PC header for its title and timestamp,
/// then its payload encrypted under the PC key.
pub open spec fn pc_file_for(xbox_key: Seq<u8>, pc_key: Seq<u8>, s: XboxSlot) -> Seq<u8> {
    pc_header_spec(s.title@, s.timestamp) + ecb(pc_key, xbox_payload(xbox_key, s), true)
}

/// Whether a slot converts: its payload is a valid RSAV that re-encrypts to
/// its data, and its PC file validates alike and decrypts to the same payload.
pub open spec fn converts(xbox_key: Seq<u8>, pc_key: Seq<u8>, s: XboxSlot) -> bool {
    let payload = xbox_payload(xbox_key, s);
    let pc_file = pc_file_for(xbox_key, pc_key, s);
    &&& s.data@.len() % 16 == 0
    &&& rsav_verdict(payload) is Ok
    &&& ecb(xbox_key, payload, true) == s.data@
    &&& pc_verdict(pc_file, pc_key) == rsav_verdict(payload)
    &&& ecb(pc_key, pc_file.subrange(PC_HEADER_SIZE as int, pc_file.len() as int), false) == payload
}

/// Whether `e` is the error of the first conversion check that a slot fails.
pub open spec fn conversion_error(xbox_key: Seq<u8>, pc_key: Seq<u8>, s: XboxSlot, e: ConvertError) -> bool {
    let payload = xbox_payload(xbox_key, s);
    let pc_file = pc_file_for(xbox_key, pc_key, s);
    if s.data@.len() % 16 != 0 {
        e == ConvertError::AesUnaligned
    } else if rsav_verdict(payload) is Err {
        rsav_verdict(payload) == Err::<RsavValidation, ConvertError>(e)
    } else if ecb(xbox_key, payload, true) != s.data@ {
        e matches ConvertError::XboxRoundTrip { slot: n } && n@ == s.xbox_name@
    } else if pc_verdict(pc_file, pc_key) is Err {
        pc_verdict(pc_file, pc_key) == Err::<RsavValidation, ConvertError>(e)
    } else if pc_verdict(pc_file, pc_key) != rsav_verdict(payload) {
        e matches ConvertError::PcValidationDiffers { slot: n } && n@ == s.xbox_name@
    } else {
        e matches ConvertError::PayloadChanged { slot: n } && n@ == s.xbox_name@
    }
}

/// Whether `p` is the prepared save of slot `s`: a copy of the slot, its PC
/// file, which validates under the PC key with the payload's summary and
/// decrypts to the slot's payload.
pub open spec fn prepared_for(p: PreparedSave, xbox_key: Seq<u8>, pc_key: Seq<u8>, s: XboxSlot) -> bool {
    &&& same_slot(p.slot, s)
    &&& p.pc_file@ == pc_file_for(xbox_key, pc_key, s)
    &&& Ok::<RsavValidation, ConvertError>(p.validation) == rsav_verdict(xbox_payload(xbox_key, s))
    &&& pc_verdict(p.pc_file@, pc_key) == Ok::<RsavValidation, ConvertError>(p.validation)
    &&& ecb(pc_key, p.pc_file@.subrange(PC_HEADER_SIZE as int, p.pc_file@.len() as int), false) == xbox_payload(xbox_key, s)
}

/// Whether a slot's data is whole AES blocks that decrypt under the Xbox key
/// to a valid RSAV payload.
pub open spec fn payload_valid(xbox_key: Seq<u8>, s: XboxSlot) -> bool {
    s.data@.len() % 16 == 0 && rsav_verdict(xbox_payload(xbox_key, s)) is Ok
}

/// Whenever a slot's data decrypts under the key to a payload that RSAV
/// validation accepts, the key check accepts the key for that slot, whatever
/// the length of the payload's CODE block.
pub proof fn lemma_valid_payload_fits_key(key: Seq<u8>, s: XboxSlot)
    requires
        s.data@.len() >= 16,
        payload_valid(key, s),
    ensures
        xbox_key_fits(key, s.data@),
{
    let data = s.data@;
    let n = data.len() as int;
    let p = xbox_payload(key, s);
    lemma_valid_rsav_code_nonempty(p);
    lemma_ecb_first_block(key, data, false);
    lemma_ecb_last_block(key, data, false);
    let first = ecb(key, data.take(16), false);
    let last = ecb(key, data.skip(n - 16), false);
    assert(first.subrange(0, 4) =~= p.subrange(0, 4));
    assert(p.subrange(n - 16, n) == ends_block());
    assert(u32_le_at(first, 12) == u32_le_at(p, 12));
    assert(u32_le_at(first, 12) != 0);
}

proof fn lemma_valid_payloads_fit_key(key: Seq<u8>, slots: Seq<XboxSlot>)
    requires
        forall|i: int| 0 <= i < slots.len() ==> #[trigger] slots[i].data@.len() >= 16,
    ensures
        (forall|i: int| 0 <= i < slots.len() ==> payload_valid(key, #[trigger] slots[i])) ==> first_key_mismatch(key, slots, 0) is None,
        (forall|i: int| 0 <= i < slots.len() ==> payload_valid(key, #[trigger] slots[i])) ==> (forall|i: int| 0 <= i < slots.len() ==> xbox_key_fits(key, #[trigger] slots[i].data@)),
{
    if forall|i: int| 0 <= i < slots.len() ==> payload_valid(key, #[trigger] slots[i]) {
        assert forall|j: int| 0 <= j < slots.len() implies xbox_key_fits(key, #[trigger] slots[j].data@) by {
            assert(payload_valid(key, slots[j]));
            lemma_valid_payload_fits_key(key, slots[j]);
        }
        lemma_key_prefix(key, slots, slots.len() as int);
    }
}

/// The index of the first slot from `i` on that does not convert.
pub open spec fn first_failed_conversion(xbox_key: Seq<u8>, pc_key: Seq<u8>, slots: Seq<XboxSlot>, i: int) -> Option<int>
    decreases slots.len() - i,
{
    if i < 0 || i >= slots.len() {
        None
    } else if !converts(xbox_key, pc_key, slots[i]) {
        Some(i)
    } else {
        first_failed_conversion(xbox_key, pc_key, slots, i + 1)
    }
}

proof fn lemma_conversion_prefix(xbox_key: Seq<u8>, pc_key: Seq<u8>, slots: Seq<XboxSlot>, i: int)
    requires
        0 <= i <= slots.len(),
        forall|j: int| 0 <= j < i ==> converts(xbox_key, pc_key, #[trigger] slots[j]),
    ensures
        first_failed_conversion(xbox_key, pc_key, slots, 0) == first_failed_conversion(xbox_key, pc_key, slots, i),
    decreases i,
{
    if i > 0 {
        lemma_conversion_prefix(xbox_key, pc_key, slots, i - 1);
        assert(converts(xbox_key, pc_key, slots[i - 1]));
    }
}

/// Whether two slots carry the same names, title, timestamp, data and digest.
pub open spec fn same_slot(a: XboxSlot, b: XboxSlot) -> bool {
    &&& a.xbox_name@ == b.xbox_name@
    &&& a.pc_name@ == b.pc_name@
    &&& a.title@ == b.title@
    &&& a.timestamp == b.timestamp
    &&& a.data@ == b.data@
    &&& a.source_sha256@ == b.source_sha256@
}

/// A copy of a slot.
fn copy_slot(s: &XboxSlot) -> (res: XboxSlot)
    ensures
        same_slot(res, *s),
{
    let data = s.data.clone();
    assert(data@ =~= s.data@);
    XboxSlot {
        xbox_name: s.xbox_name.clone(),
        pc_name: s.pc_name.clone(),
        title: s.title.clone(),
        timestamp: s.timestamp,
        data,
        source_sha256: s.source_sha256.clone(),
    }
}

/// Converts one slot and checks the result.
fn prepare_slot(xbox_key: &[u8; 32], pc_key: &[u8; 32], slot: &XboxSlot) -> (res: Result<PreparedSave, ConvertError>)
    ensures
        converts(xbox_key@, pc_key@, *slot) ==> (res matches Ok(p) && prepared_for(p, xbox_key@, pc_key@, *slot)),
        !converts(xbox_key@, pc_key@, *slot) ==> (res matches Err(e) && conversion_error(xbox_key@, pc_key@, *slot, e)),
        payload_valid(xbox_key@, *slot) ==> converts(xbox_key@, pc_key@, *slot),
{
    let payload = aes_ecb(slot.data.as_slice(), xbox_key, false)?;
    let xbox_validation = validate_rsav(payload.as_slice())?;
    let again = aes_ecb(payload.as_slice(), xbox_key, true)?;
    if !bytes_equal(again.as_slice(), slot.data.as_slice()) {
        return Err(ConvertError::XboxRoundTrip { slot: slot.xbox_name.clone() });
    }
    let mut pc_file = build_pc_header(slot.title.as_str(), slot.timestamp)?;
    let body = aes_ecb(payload.as_slice(), pc_key, true)?;
    pc_file.extend_from_slice(body.as_slice());
    assert(payload@ == xbox_payload(xbox_key@, *slot));
    assert(pc_file@ =~= pc_file_for(xbox_key@, pc_key@, *slot));
    proof {
        crate::pc::lemma_built_pc_file_validates(slot.title@, slot.timestamp, body@, payload@, pc_key@);
        assert(pc_file@.subrange(PC_HEADER_SIZE as int, pc_file@.len() as int) =~= body@);
    }
    let pc_validation = validate_pc_file(pc_file.as_slice(), pc_key)?;
    if pc_validation != xbox_validation {
        return Err(ConvertError::PcValidationDiffers { slot: slot.xbox_name.clone() });
    }
    let len = pc_file.len();
    let decrypted = aes_ecb(&pc_file.as_slice()[PC_HEADER_SIZE..len], pc_key, false)?;
    if !bytes_equal(decrypted.as_slice(), payload.as_slice()) {
        return Err(ConvertError::PayloadChanged { slot: slot.xbox_name.clone() });
    }
    Ok(PreparedSave { slot: copy_slot(slot), pc_file, validation: pc_validation })
}

/// Checks the Xbox key against every slot, then builds each slot's PC save
/// file and checks it: the RSAV payload validates, the Xbox data re-encrypts
/// exactly, the PC file validates alike, and it decrypts to the same payload.
pub fn prepare_conversion(xbox_key: &[u8; 32], pc_key: &[u8; 32], slots: &Vec<XboxSlot>) -> (res: Result<Vec<PreparedSave>, ConvertError>)
    requires
        forall|i: int| 0 <= i < slots@.len() ==> #[trigger] slots@[i].data@.len() >= 16,
    ensures
        first_key_mismatch(xbox_key@, slots@, 0) matches Some(i) ==> (res matches Err(ConvertError::XboxKeyMismatch { slot: n }) && n@ == slots@[i].xbox_name@),
        first_key_mismatch(xbox_key@, slots@, 0) is None ==> (first_failed_conversion(xbox_key@, pc_key@, slots@, 0) matches Some(i) ==> (res matches Err(e) && conversion_error(xbox_key@, pc_key@, slots@[i], e))),
        first_key_mismatch(xbox_key@, slots@, 0) is None && first_failed_conversion(xbox_key@, pc_key@, slots@, 0) is None ==> (res matches Ok(prepared) && prepared@.len() == slots@.len() && forall|i: int| 0 <= i < slots@.len() ==> prepared_for(#[trigger] prepared@[i], xbox_key@, pc_key@, slots@[i])),
        (forall|i: int| 0 <= i < slots@.len() ==> payload_valid(xbox_key@, #[trigger] slots@[i])) ==> res is Ok && first_key_mismatch(xbox_key@, slots@, 0) is None && first_failed_conversion(xbox_key@, pc_key@, slots@, 0) is None,
{
    verify_xbox_key(xbox_key, slots)?;
    let mut prepared: Vec<PreparedSave> = Vec::with_capacity(slots.len());
    let mut i: usize = 0;
    while i < slots.len()
        invariant
            first_key_mismatch(xbox_key@, slots@, 0) is None,
            i <= slots@.len(),
            prepared@.len() == i,
            forall|j: int| 0 <= j < i ==> converts(xbox_key@, pc_key@, #[trigger] slots@[j]),
            forall|j: int| 0 <= j < i ==> prepared_for(#[trigger] prepared@[j], xbox_key@, pc_key@, slots@[j]),
        decreases slots@.len() - i,
    {
        proof {
            lemma_conversion_prefix(xbox_key@, pc_key@, slots@, i as int);
        }
        let save = prepare_slot(xbox_key, pc_key, &slots[i])?;
        prepared.push(save);
        i = i + 1;
    }
    proof {
        lemma_conversion_prefix(xbox_key@, pc_key@, slots@, slots@.len() as int);
    }
    Ok(prepared)
}

/// One line of the conversion manifest.
#[derive(Debug, Clone)]
pub struct ManifestEntry {
    pub source_slot: String,
    pub pc_file: String,
    pub title: String,
    pub timestamp: u32,
    pub source_sha256: String,
    pub pc_sha256: String,
    pub pc_size: usize,
    pub rsav_checksums: usize,
}

/// The manifest line that records a prepared save.
pub fn manifest_entry(prepared: &PreparedSave) -> (res: ManifestEntry)
    ensures
        res.source_slot@ == prepared.slot.xbox_name@,
        res.pc_file@ == prepared.slot.pc_name@,
        res.title@ == prepared.slot.title@,
        res.timestamp == prepared.slot.timestamp,
        res.source_sha256@ == prepared.slot.source_sha256@,
        res.pc_sha256@ == hex_lower(sha256_spec(prepared.pc_file@)),
        res.pc_size == prepared.pc_file@.len(),
        res.rsav_checksums == prepared.validation.checksum_count,
{
    ManifestEntry {
        source_slot: prepared.slot.xbox_name.clone(),
        pc_file: prepared.slot.pc_name.clone(),
        title: prepared.slot.title.clone(),
        timestamp: prepared.slot.timestamp,
        source_sha256: prepared.slot.source_sha256.clone(),
        pc_sha256: sha256_hex(prepared.pc_file.as_slice()),
        pc_size: prepared.pc_file.len(),
        rsav_checksums: prepared.validation.checksum_count,
    }
}

} // verus!
