use crate::bytes::{read_u32_be, read_u32_le, u32_be_at, u32_le_at};
use crate::checksum::{jooat, jooat_spec};
use crate::error::ConvertError;
use vstd::prelude::*;

verus! {

/// What a successful RSAV validation reports.
#[derive(Debug, Clone, Copy, PartialEq, Eq, Structural)]
pub struct RsavValidation {
    pub size: usize,
    pub block_count: usize,
    pub checksum_count: usize,
}

/// Size of the RSAV header; the CODE block starts right behind it.
pub const RSAV_HEADER_SIZE: usize = 0xB0;

/// Number of entries in the RSAV block table.
pub const RSAV_TABLE_COUNT: usize = 9;

/// The fixed block id of table entry `i`.
pub open spec fn rsav_block_id(i: int) -> u32 {
    if i == 0 {
        0x41D6F794
    } else if i == 1 {
        0x130F999E
    } else if i == 2 {
        0x2016AB2F
    } else if i == 3 {
        0xF0565D1D
    } else if i == 4 {
        0x9466E30C
    } else if i == 5 {
        0xF80C8931
    } else if i == 6 {
        0x702A6025
    } else if i == 7 {
        0x32D99C58
    } else {
        0x0C6ADEDD
    }
}

/// Whether `expected` stands in `p` at `at`.
pub open spec fn bytes_at(p: Seq<u8>, at: int, expected: Seq<u8>) -> bool {
    0 <= at && at + expected.len() <= p.len() && p.subrange(at, at + expected.len()) == expected
}

/// The eight bytes that open a CHKS record.
pub open spec fn chks_marker() -> Seq<u8> {
    seq![0x43u8, 0x48, 0x4B, 0x53, 0, 0, 0, 0x14]
}

/// The sixteen bytes that close an RSAV payload.
pub open spec fn ends_block() -> Seq<u8> {
    seq![0x45u8, 0x4E, 0x44, 0x53, 0, 0, 0, 0, 0, 0, 0, 0, 0, 0, 0, 0]
}

/// The section tag `S00n` that opens data block `i`.
pub open spec fn section_tag(i: int) -> Seq<u8> {
    seq![0x53u8, 0x30, 0x30, (0x30 + i) as u8]
}

/// The offsets, in increasing order, of all CHKS markers at or after `i`.
pub open spec fn markers_from(p: Seq<u8>, i: int) -> Seq<usize>
    decreases p.len() - i,
{
    if i < 0 || i + 8 > p.len() {
        Seq::empty()
    } else if bytes_at(p, i, chks_marker()) {
        seq![i as usize] + markers_from(p, i + 1)
    } else {
        markers_from(p, i + 1)
    }
}

/// The offsets of all CHKS markers in `p`, overlapping ones included.
pub open spec fn chks_offsets(p: Seq<u8>) -> Seq<usize> {
    markers_from(p, 0)
}

/// Block-table field `field` (0: id, 1: reserved, 2: offset, 3: size) of entry `i`.
pub open spec fn table_word(p: Seq<u8>, i: int, field: int) -> u32 {
    u32_le_at(p, 0x14 + i * 0x10 + field * 4)
}

/// Offset of data block `i`, as the table declares it.
pub open spec fn block_offset(p: Seq<u8>, i: int) -> int {
    table_word(p, i, 2) as int
}

/// Size of data block `i`, as the table declares it.
pub open spec fn block_size(p: Seq<u8>, i: int) -> int {
    table_word(p, i, 3) as int
}

/// The first reason block-table entry `i` is refused, if any.
pub open spec fn entry_error(p: Seq<u8>, i: int) -> Option<ConvertError> {
    let off = block_offset(p, i);
    let size = block_size(p, i);
    if table_word(p, i, 0) != rsav_block_id(i) || table_word(p, i, 1) != 0 {
        Some(ConvertError::BlockEntry { entry: (i + 1) as usize })
    } else if off % 16 != 0 || size < 0x20 || size % 16 != 0 {
        Some(ConvertError::BlockAlignment { entry: (i + 1) as usize })
    } else if off + size > usize::MAX {
        Some(ConvertError::BlockOffsetOverflow)
    } else if off < RSAV_HEADER_SIZE || off + size > p.len() {
        Some(ConvertError::BlockRange { entry: (i + 1) as usize })
    } else if !bytes_at(p, off, section_tag(i)) {
        Some(ConvertError::SectionTag { entry: (i + 1) as usize })
    } else {
        None
    }
}

/// The error of the first refused entry among entries `i..9`.
pub open spec fn table_error_from(p: Seq<u8>, i: int) -> Option<ConvertError>
    decreases 9 - i,
{
    if i < 0 || i >= 9 {
        None
    } else if entry_error(p, i) is Some {
        entry_error(p, i)
    } else {
        table_error_from(p, i + 1)
    }
}

/// The error of the first block among blocks `i..8` that is not directly
/// followed (behind a 0x20-byte trailer) by the next block.
pub open spec fn gap_error_from(p: Seq<u8>, i: int) -> Option<ConvertError>
    decreases 8 - i,
{
    if i < 0 || i >= 8 {
        None
    } else if block_offset(p, i + 1) != block_offset(p, i) + block_size(p, i) + 0x20 {
        Some(ConvertError::BlocksNotContiguous { first: (i + 1) as usize })
    } else {
        gap_error_from(p, i + 1)
    }
}

/// The CODE length that the first data block's offset implies.
pub open spec fn expected_code_size(p: Seq<u8>) -> int {
    if block_offset(p, 0) >= 0xD0 {
        block_offset(p, 0) - 0xD0
    } else {
        0
    }
}

/// The CODE length that the header declares.
pub open spec fn code_size(p: Seq<u8>) -> int {
    u32_le_at(p, 0x0C) as int
}

/// `n` rounded up to a multiple of 16.
pub open spec fn round_up16(n: int) -> int {
    ((n + 15) / 16) * 16
}

/// The region `[start, end)` of `p` with the eight bytes of the CHKS record at
/// `m` that follow its header word (data length and stored checksum) zeroed.
pub open spec fn checked_region(p: Seq<u8>, start: int, end: int, m: int) -> Seq<u8> {
    Seq::new(
        (end - start) as nat,
        |k: int| if m + 8 <= start + k < m + 16 { 0u8 } else { p[start + k] },
    )
}

/// The first reason CHKS record `r` (at offset `m`) is refused, if any.
pub open spec fn record_error(p: Seq<u8>, r: int, m: int) -> Option<ConvertError> {
    if m + 12 > p.len() || m + 16 > p.len() {
        Some(ConvertError::UnexpectedEnd)
    } else {
        let header_size = u32_be_at(p, m + 4) as int;
        let data_size = u32_be_at(p, m + 8) as int;
        let stored = u32_be_at(p, m + 12);
        if header_size != 0x14 || data_size < 0x10 {
            Some(ConvertError::ChecksumHeader { record: (r + 1) as usize })
        } else if data_size > m {
            Some(ConvertError::ChecksumRange { record: (r + 1) as usize })
        } else {
            let start = m - data_size + header_size;
            let end = m + header_size;
            let logical_offset = if r == 0 { RSAV_HEADER_SIZE as int } else { block_offset(p, r - 1) };
            let logical_size = if r == 0 { code_size(p) } else { block_size(p, r - 1) };
            let next_limit = if r == 0 {
                block_offset(p, 0)
            } else if r < 9 {
                block_offset(p, r)
            } else {
                p.len() as int
            };
            if start != logical_offset + 0x10 || round_up16(data_size) != logical_size || m
                >= logical_offset + logical_size || end > next_limit {
                Some(ConvertError::ChecksumBlock { record: (r + 1) as usize })
            } else {
                let calculated = jooat_spec(checked_region(p, start, end, m));
                if calculated != stored {
                    Some(
                        ConvertError::ChecksumMismatch {
                            record: (r + 1) as usize,
                            stored,
                            calculated,
                        },
                    )
                } else {
                    None
                }
            }
        }
    }
}

/// The error of the first refused CHKS record among records `r..10`.
pub open spec fn record_error_from(p: Seq<u8>, r: int) -> Option<ConvertError>
    decreases 10 - r,
{
    if r < 0 || r >= 10 {
        None
    } else if record_error(p, r, chks_offsets(p)[r] as int) is Some {
        record_error(p, r, chks_offsets(p)[r] as int)
    } else {
        record_error_from(p, r + 1)
    }
}

/// Whether the RSAV header fields are those of an RSAV v3 file with nine blocks.
pub open spec fn rsav_header_ok(p: Seq<u8>) -> bool {
    &&& bytes_at(p, 0, seq![0x52u8, 0x53, 0x41, 0x56])
    &&& u32_le_at(p, 4) == 3
    &&& u32_le_at(p, 8) == RSAV_HEADER_SIZE
    &&& u32_le_at(p, 0x10) == RSAV_TABLE_COUNT
}

/// The verdict on a decrypted RSAV payload: the first check that fails, in
/// the order length, header, CODE tag, block table, contiguity, last block,
/// CODE length, CHKS count, CHKS records, ending; or the validation summary.
#[verifier::opaque]
pub open spec fn rsav_verdict(p: Seq<u8>) -> Result<RsavValidation, ConvertError> {
    let len = p.len() as int;
    if len < 0x100 || len % 16 != 0 {
        Err(ConvertError::RsavLength)
    } else if !rsav_header_ok(p) {
        Err(ConvertError::RsavHeader)
    } else if !bytes_at(p, RSAV_HEADER_SIZE as int, seq![0x43u8, 0x4F, 0x44, 0x45]) {
        Err(ConvertError::CodeBlockOffset)
    } else if table_error_from(p, 0) is Some {
        Err(table_error_from(p, 0)->0)
    } else if gap_error_from(p, 0) is Some {
        Err(gap_error_from(p, 0)->0)
    } else if len != block_offset(p, 8) + block_size(p, 8) + 0x20 {
        Err(ConvertError::LastBlockEnd)
    } else if code_size(p) != expected_code_size(p) {
        Err(ConvertError::CodeLength)
    } else if chks_offsets(p).len() != 10 {
        Err(ConvertError::ChecksumCount { found: chks_offsets(p).len() as usize })
    } else if record_error_from(p, 0) is Some {
        Err(record_error_from(p, 0)->0)
    } else if chks_offsets(p)[9] != len - 0x30 || !bytes_at(p, len - 16, ends_block()) {
        Err(ConvertError::RsavEnding)
    } else {
        Ok(RsavValidation { size: len as usize, block_count: 9, checksum_count: 10 })
    }
}


/// Whether `expected` stands in `data` at `at`.
pub(crate) fn bytes_match(data: &[u8], at: usize, expected: &[u8]) -> (res: bool)
    ensures
        res == bytes_at(data@, at as int, expected@),
{
    if at > data.len() || data.len() - at < expected.len() {
        return false;
    }
    let mut k: usize = 0;
    while k < expected.len()
        invariant
            at + expected@.len() <= data@.len(),
            data@.len() <= usize::MAX,
            k <= expected@.len(),
            forall|j: int| 0 <= j < k ==> data@[at + j] == expected@[j],
        decreases expected@.len() - k,
    {
        if data[at + k] != expected[k] {
            assert(data@.subrange(at as int, at + expected@.len())[k as int] != expected@[k as int]);
            return false;
        }
        k = k + 1;
    }
    assert(data@.subrange(at as int, at + expected@.len()) =~= expected@);
    true
}

/// Offsets of all CHKS markers in `data`, in increasing order; markers may overlap.
pub fn marker_offsets(data: &[u8]) -> (res: Vec<usize>)
    ensures
        res@ == chks_offsets(data@),
{
    let marker: [u8; 8] = [0x43u8, 0x48, 0x4B, 0x53, 0, 0, 0, 0x14];
    assert(marker@ == chks_marker());
    let mut found: Vec<usize> = Vec::new();
    if data.len() < 8 {
        return found;
    }
    let mut offset: usize = 0;
    while offset <= data.len() - 8
        invariant
            data@.len() >= 8,
            marker@ == chks_marker(),
            offset <= data@.len() - 7,
            found@ + markers_from(data@, offset as int) == markers_from(data@, 0),
        decreases data@.len() - offset,
    {
        let hit = bytes_match(data, offset, marker.as_slice());
        let ghost rest = markers_from(data@, offset + 1);
        if hit {
            assert(markers_from(data@, offset as int) == seq![offset] + rest);
            found.push(offset);
            assert(found@ + rest =~= (found@.drop_last() + seq![offset]) + rest);
        } else {
            assert(markers_from(data@, offset as int) == rest);
        }
        offset = offset + 1;
    }
    assert(markers_from(data@, offset as int) =~= Seq::<usize>::empty());
    assert(found@ =~= found@ + markers_from(data@, offset as int));
    found
}

/// The fixed block id of table entry `i`.
fn expected_block_id(i: usize) -> (res: u32)
    ensures
        res == rsav_block_id(i as int),
{
    if i == 0 {
        0x41D6F794
    } else if i == 1 {
        0x130F999E
    } else if i == 2 {
        0x2016AB2F
    } else if i == 3 {
        0xF0565D1D
    } else if i == 4 {
        0x9466E30C
    } else if i == 5 {
        0xF80C8931
    } else if i == 6 {
        0x702A6025
    } else if i == 7 {
        0x32D99C58
    } else {
        0x0C6ADEDD
    }
}

proof fn lemma_table_prefix(p: Seq<u8>, i: int)
    requires
        0 <= i <= 9,
        forall|j: int| 0 <= j < i ==> #[trigger] entry_error(p, j) is None,
    ensures
        table_error_from(p, 0) == table_error_from(p, i),
    decreases i,
{
    if i > 0 {
        lemma_table_prefix(p, i - 1);
        assert(entry_error(p, i - 1) is None);
    }
}

proof fn lemma_entry_ok(p: Seq<u8>, i: int)
    requires
        table_error_from(p, 0) is None,
        0 <= i < 9,
    ensures
        entry_error(p, i) is None,
{
    lemma_table_ok(p, 0);
}

proof fn lemma_table_ok(p: Seq<u8>, i: int)
    requires
        0 <= i <= 9,
        table_error_from(p, i) is None,
    ensures
        forall|j: int| i <= j < 9 ==> #[trigger] entry_error(p, j) is None,
    decreases 9 - i,
{
    if i < 9 {
        lemma_table_ok(p, i + 1);
    }
}

/// Reads and checks the nine block-table entries; on success, the declared
/// (offset, size) of each data block.
fn read_block_table(payload: &[u8]) -> (res: Result<Vec<(usize, usize)>, ConvertError>)
    requires
        payload@.len() >= 0x100,
    ensures
        table_error_from(payload@, 0) matches Some(e) ==> res == Err::<Vec<(usize, usize)>, ConvertError>(e),
        table_error_from(payload@, 0) is None ==> (res matches Ok(v) && v@.len() == 9 && forall|i: int|
            0 <= i < 9 ==> #[trigger] v@[i] == (block_offset(payload@, i) as usize, block_size(payload@, i) as usize)),
{
    let ghost p = payload@;
    let mut ranges: Vec<(usize, usize)> = Vec::with_capacity(RSAV_TABLE_COUNT);
    let mut index: usize = 0;
    while index < RSAV_TABLE_COUNT
        invariant
            p == payload@,
            p.len() >= 0x100,
            index <= 9,
            ranges@.len() == index,
            forall|j: int| 0 <= j < index ==> #[trigger] entry_error(p, j) is None,
            forall|j: int| 0 <= j < index ==> #[trigger] ranges@[j] == (block_offset(p, j) as usize, block_size(p, j) as usize),
        decreases 9 - index,
    {
        let entry = 0x14 + index * 0x10;
        let block_id = read_u32_le(payload, entry)?;
        let reserved = read_u32_le(payload, entry + 4)?;
        let offset = read_u32_le(payload, entry + 8)? as usize;
        let size = read_u32_le(payload, entry + 12)? as usize;
        assert(block_id == table_word(p, index as int, 0));
        assert(reserved == table_word(p, index as int, 1));
        assert(offset == block_offset(p, index as int));
        assert(size == block_size(p, index as int));
        proof {
            lemma_table_prefix(p, index as int);
        }
        if block_id != expected_block_id(index) || reserved != 0 {
            return Err(ConvertError::BlockEntry { entry: index + 1 });
        }
        if offset % 16 != 0 || size < 0x20 || size % 16 != 0 {
            return Err(ConvertError::BlockAlignment { entry: index + 1 });
        }
        if offset > usize::MAX - size {
            return Err(ConvertError::BlockOffsetOverflow);
        }
        let end = offset + size;
        if offset < RSAV_HEADER_SIZE || end > payload.len() {
            return Err(ConvertError::BlockRange { entry: index + 1 });
        }
        let tag: [u8; 4] = [0x53u8, 0x30, 0x30, 0x30 + index as u8];
        assert(tag@ == section_tag(index as int));
        if !bytes_match(payload, offset, tag.as_slice()) {
            return Err(ConvertError::SectionTag { entry: index + 1 });
        }
        assert(entry_error(p, index as int) is None);
        ranges.push((offset, size));
        index = index + 1;
    }
    proof {
        lemma_table_prefix(p, 9);
    }
    Ok(ranges)
}


/// Whether `ranges` lists the declared (offset, size) of the nine data blocks.
pub open spec fn ranges_match(p: Seq<u8>, ranges: Seq<(usize, usize)>) -> bool {
    &&& ranges.len() == 9
    &&& forall|i: int| 0 <= i < 9 ==> #[trigger] ranges[i] == (block_offset(p, i) as usize, block_size(p, i) as usize)
}

proof fn lemma_gap_prefix(p: Seq<u8>, i: int)
    requires
        0 <= i <= 8,
        forall|j: int| 0 <= j < i ==> block_offset(p, j + 1) == block_offset(p, j) + block_size(p, j) + 0x20,
    ensures
        gap_error_from(p, 0) == gap_error_from(p, i),
    decreases i,
{
    if i > 0 {
        lemma_gap_prefix(p, i - 1);
        assert(block_offset(p, i - 1 + 1) == block_offset(p, i - 1) + block_size(p, i - 1) + 0x20);
    }
}

/// Checks that each data block is directly followed, behind its 0x20-byte
/// trailer, by the next one.
fn check_contiguous(payload: &[u8], ranges: &Vec<(usize, usize)>) -> (res: Result<(), ConvertError>)
    requires
        table_error_from(payload@, 0) is None,
        ranges_match(payload@, ranges@),
    ensures
        res == (match gap_error_from(payload@, 0) {
            Some(e) => Err::<(), ConvertError>(e),
            None => Ok(()),
        }),
{
    let ghost p = payload@;
    proof {
        lemma_table_ok(p, 0);
    }
    let mut index: usize = 0;
    while index < RSAV_TABLE_COUNT - 1
        invariant
            p == payload@,
            ranges_match(p, ranges@),
            forall|j: int| 0 <= j < 9 ==> #[trigger] entry_error(p, j) is None,
            index <= 8,
            forall|j: int| 0 <= j < index ==> block_offset(p, j + 1) == block_offset(p, j) + block_size(p, j) + 0x20,
        decreases 8 - index,
    {
        let (offset, size) = ranges[index];
        let (next, _) = ranges[index + 1];
        assert(entry_error(p, index as int) is None);
        assert(ranges@[index as int] == (block_offset(p, index as int) as usize, block_size(p, index as int) as usize));
        assert(ranges@[index + 1] == (block_offset(p, index + 1) as usize, block_size(p, index + 1) as usize));
        proof {
            lemma_gap_prefix(p, index as int);
        }
        if !(next >= 0x20 && next - 0x20 >= offset && next - 0x20 - offset == size) {
            return Err(ConvertError::BlocksNotContiguous { first: index + 1 });
        }
        index = index + 1;
    }
    proof {
        lemma_gap_prefix(p, 8);
    }
    Ok(())
}


/// The checksum over `[start, end)` with the record's length and checksum words zeroed.
fn record_checksum(payload: &[u8], start: usize, end: usize, m: usize) -> (res: u32)
    requires
        start <= end <= payload@.len(),
        m + 16 <= payload@.len(),
    ensures
        res == jooat_spec(checked_region(payload@, start as int, end as int, m as int)),
{
    let ghost p = payload@;
    let _len = payload.len();
    let mut checked: Vec<u8> = Vec::with_capacity(end - start);
    let mut k: usize = start;
    while k < end
        invariant
            p == payload@,
            start <= k <= end,
            end <= p.len(),
            m + 16 <= p.len(),
            p.len() <= usize::MAX,
            checked@.len() == k - start,
            forall|j: int| 0 <= j < k - start ==> #[trigger] checked@[j] == (if m + 8 <= start + j < m + 16 { 0u8 } else { p[start + j] }),
        decreases end - k,
    {
        let byte = if m + 8 <= k && k < m + 16 { 0u8 } else { payload[k] };
        checked.push(byte);
        k = k + 1;
    }
    assert(checked@ =~= checked_region(p, start as int, end as int, m as int));
    jooat(checked.as_slice())
}

/// Whether `n` rounded up to a multiple of 16 is `target`.
fn rounds_up_to(n: usize, target: usize) -> (res: bool)
    ensures
        res == (round_up16(n as int) == target),
{
    let blocks = n / 16 + if n % 16 != 0 { 1usize } else { 0usize };
    assert(blocks * 16 == round_up16(n as int)) by (nonlinear_arith)
        requires
            blocks == n / 16 + if n % 16 != 0 { 1int } else { 0int },
    ;
    if blocks > usize::MAX / 16 {
        return false;
    }
    blocks * 16 == target
}

/// Checks CHKS record `r`, whose marker stands at `m`.
#[verifier::rlimit(40)]
fn check_record(
    payload: &[u8],
    r: usize,
    m: usize,
    ranges: &Vec<(usize, usize)>,
    declared_code_size: usize,
) -> (res: Result<(), ConvertError>)
    requires
        payload@.len() >= 0x100,
        table_error_from(payload@, 0) is None,
        ranges_match(payload@, ranges@),
        declared_code_size == code_size(payload@),
        code_size(payload@) == expected_code_size(payload@),
        r < 10,
        bytes_at(payload@, m as int, chks_marker()),
    ensures
        res == (match record_error(payload@, r as int, m as int) {
            Some(e) => Err::<(), ConvertError>(e),
            None => Ok(()),
        }),
{
    let ghost p = payload@;
    let len = payload.len();
    if len - m < 16 {
        return Err(ConvertError::UnexpectedEnd);
    }
    let header_size = read_u32_be(payload, m + 4)? as usize;
    let data_size = read_u32_be(payload, m + 8)? as usize;
    let stored = read_u32_be(payload, m + 12)?;
    if header_size != 0x14 || data_size < 0x10 {
        return Err(ConvertError::ChecksumHeader { record: r + 1 });
    }
    if data_size > m {
        return Err(ConvertError::ChecksumRange { record: r + 1 });
    }
    let start = m - data_size + header_size;
    let logical_offset: usize;
    let logical_size: usize;
    let next_limit: usize;
    if r == 0 {
        logical_offset = RSAV_HEADER_SIZE;
        logical_size = declared_code_size;
        next_limit = ranges[0].0;
        assert(ranges@[0] == (block_offset(p, 0) as usize, block_size(p, 0) as usize));
        proof { lemma_entry_ok(p, 0); }
    } else {
        logical_offset = ranges[r - 1].0;
        logical_size = ranges[r - 1].1;
        assert(ranges@[r - 1] == (block_offset(p, r - 1) as usize, block_size(p, r - 1) as usize));
        proof { lemma_entry_ok(p, r - 1); }
        if r < RSAV_TABLE_COUNT {
            next_limit = ranges[r].0;
            assert(ranges@[r as int] == (block_offset(p, r as int) as usize, block_size(p, r as int) as usize));
            proof { lemma_entry_ok(p, r as int); }
        } else {
            next_limit = len;
        }
    }
    if start != logical_offset + 0x10 || !rounds_up_to(data_size, logical_size) || m >= logical_offset
        + logical_size || m > next_limit || next_limit - m < header_size {
        return Err(ConvertError::ChecksumBlock { record: r + 1 });
    }
    let end = m + header_size;
    let calculated = record_checksum(payload, start, end, m);
    if calculated != stored {
        return Err(ConvertError::ChecksumMismatch { record: r + 1, stored, calculated });
    }
    Ok(())
}


proof fn lemma_markers_are_markers(p: Seq<u8>, i: int)
    requires
        0 <= i,
        p.len() <= usize::MAX,
    ensures
        forall|k: int| 0 <= k < markers_from(p, i).len() ==> bytes_at(p, #[trigger] markers_from(p, i)[k] as int, chks_marker()),
    decreases p.len() - i,
{
    if i + 8 <= p.len() {
        lemma_markers_are_markers(p, i + 1);
        let rest = markers_from(p, i + 1);
        if bytes_at(p, i, chks_marker()) {
            assert(markers_from(p, i)[0] as int == i);
            assert forall|k: int| 0 <= k < markers_from(p, i).len() implies bytes_at(p, #[trigger] markers_from(p, i)[k] as int, chks_marker()) by {
                if k > 0 {
                    assert(markers_from(p, i)[k] == rest[k - 1]);
                }
            }
        } else {
            assert(markers_from(p, i) == rest);
        }
    }
}

proof fn lemma_record_prefix(p: Seq<u8>, r: int)
    requires
        0 <= r <= 10,
        forall|j: int| 0 <= j < r ==> #[trigger] record_error(p, j, chks_offsets(p)[j] as int) is None,
    ensures
        record_error_from(p, 0) == record_error_from(p, r),
    decreases r,
{
    if r > 0 {
        lemma_record_prefix(p, r - 1);
        assert(record_error(p, r - 1, chks_offsets(p)[r - 1] as int) is None);
    }
}

/// Checks the ten CHKS records in order.
fn check_records(
    payload: &[u8],
    markers: &Vec<usize>,
    ranges: &Vec<(usize, usize)>,
    declared_code_size: usize,
) -> (res: Result<(), ConvertError>)
    requires
        payload@.len() >= 0x100,
        table_error_from(payload@, 0) is None,
        ranges_match(payload@, ranges@),
        declared_code_size == code_size(payload@),
        code_size(payload@) == expected_code_size(payload@),
        markers@ == chks_offsets(payload@),
        markers@.len() == 10,
    ensures
        res == (match record_error_from(payload@, 0) {
            Some(e) => Err::<(), ConvertError>(e),
            None => Ok(()),
        }),
{
    let ghost p = payload@;
    let _len = payload.len();
    proof {
        lemma_markers_are_markers(p, 0);
    }
    let mut r: usize = 0;
    while r < 10
        invariant
            p == payload@,
            p.len() >= 0x100,
            table_error_from(p, 0) is None,
            ranges_match(p, ranges@),
            declared_code_size == code_size(p),
            code_size(p) == expected_code_size(p),
            markers@ == chks_offsets(p),
            markers@.len() == 10,
            forall|k: int| 0 <= k < chks_offsets(p).len() ==> bytes_at(p, #[trigger] chks_offsets(p)[k] as int, chks_marker()),
            r <= 10,
            forall|j: int| 0 <= j < r ==> #[trigger] record_error(p, j, chks_offsets(p)[j] as int) is None,
        decreases 10 - r,
    {
        proof {
            lemma_record_prefix(p, r as int);
        }
        let m = markers[r];
        assert(bytes_at(p, chks_offsets(p)[r as int] as int, chks_marker()));
        check_record(payload, r, m, ranges, declared_code_size)?;
        r = r + 1;
    }
    proof {
        lemma_record_prefix(p, 10);
    }
    Ok(())
}

/// Validates a decrypted RSAV v3 payload: its header, the nine-entry block
/// table and the layout of the blocks, the CODE length, the ten CHKS records
/// with their seeded checksums, and the `ENDS` trailer.
pub fn validate_rsav(payload: &[u8]) -> (res: Result<RsavValidation, ConvertError>)
    ensures
        res == rsav_verdict(payload@),
{
    reveal(rsav_verdict);
    let ghost p = payload@;
    let len = payload.len();
    if len < 0x100 || len % 16 != 0 {
        return Err(ConvertError::RsavLength);
    }
    let magic: [u8; 4] = [0x52u8, 0x53, 0x41, 0x56];
    assert(magic@ == seq![0x52u8, 0x53, 0x41, 0x56]);
    let magic_ok = bytes_match(payload, 0, magic.as_slice());
    let version = read_u32_le(payload, 4)?;
    let header_size = read_u32_le(payload, 8)?;
    let table_count = read_u32_le(payload, 0x10)?;
    if !magic_ok || version != 3 || header_size as usize != RSAV_HEADER_SIZE || table_count as usize
        != RSAV_TABLE_COUNT {
        return Err(ConvertError::RsavHeader);
    }
    let code_tag: [u8; 4] = [0x43u8, 0x4F, 0x44, 0x45];
    assert(code_tag@ == seq![0x43u8, 0x4F, 0x44, 0x45]);
    if !bytes_match(payload, RSAV_HEADER_SIZE, code_tag.as_slice()) {
        return Err(ConvertError::CodeBlockOffset);
    }
    let ranges = read_block_table(payload)?;
    check_contiguous(payload, &ranges)?;
    proof {
        lemma_entry_ok(p, 0);
        lemma_entry_ok(p, 8);
    }
    let (last_offset, last_size) = ranges[8];
    assert(ranges@[8] == (block_offset(p, 8) as usize, block_size(p, 8) as usize));
    if !(len >= 0x20 && len - 0x20 >= last_offset && len - 0x20 - last_offset == last_size) {
        return Err(ConvertError::LastBlockEnd);
    }
    let declared_code_size = read_u32_le(payload, 0x0C)? as usize;
    let first_offset = ranges[0].0;
    assert(ranges@[0] == (block_offset(p, 0) as usize, block_size(p, 0) as usize));
    let implied = if first_offset >= 0xD0 { first_offset - 0xD0 } else { 0 };
    if declared_code_size != implied {
        return Err(ConvertError::CodeLength);
    }
    let checksums = marker_offsets(payload);
    if checksums.len() != RSAV_TABLE_COUNT + 1 {
        return Err(ConvertError::ChecksumCount { found: checksums.len() });
    }
    check_records(payload, &checksums, &ranges, declared_code_size)?;
    let ends: [u8; 16] = [0x45u8, 0x4E, 0x44, 0x53, 0, 0, 0, 0, 0, 0, 0, 0, 0, 0, 0, 0];
    assert(ends@ == ends_block());
    if checksums[9] != len - 0x30 || !bytes_match(payload, len - 16, ends.as_slice()) {
        return Err(ConvertError::RsavEnding);
    }
    Ok(RsavValidation { size: len, block_count: RSAV_TABLE_COUNT, checksum_count: checksums.len() })
}

proof fn lemma_gaps_ok(p: Seq<u8>, i: int)
    requires
        0 <= i <= 8,
        gap_error_from(p, i) is None,
    ensures
        forall|j: int| i <= j < 8 ==> #[trigger] block_offset(p, j + 1) == block_offset(p, j) + block_size(p, j) + 0x20,
    decreases 8 - i,
{
    if i < 8 {
        lemma_gaps_ok(p, i + 1);
    }
}

proof fn lemma_records_ok(p: Seq<u8>, r: int)
    requires
        0 <= r <= 10,
        record_error_from(p, r) is None,
    ensures
        forall|j: int| r <= j < 10 ==> #[trigger] record_error(p, j, chks_offsets(p)[j] as int) is None,
    decreases 10 - r,
{
    if r < 10 {
        lemma_records_ok(p, r + 1);
    }
}

/// A payload that validates has the RSAV v3 header, nine well-formed data
/// blocks laid out back to back behind the CODE block up to a 0x20-byte
/// trailer, exactly ten CHKS records that all check out, the last of them
/// 0x30 bytes before the end, and the `ENDS` trailer; and its summary
/// reports its size, nine blocks and ten records.
pub proof fn lemma_valid_rsav_shape(p: Seq<u8>)
    requires
        rsav_verdict(p) is Ok,
    ensures
        rsav_header_ok(p),
        forall|i: int| 0 <= i < 9 ==> #[trigger] entry_error(p, i) is None,
        forall|i: int| 0 <= i < 8 ==> #[trigger] block_offset(p, i + 1) == block_offset(p, i) + block_size(p, i) + 0x20,
        p.len() == block_offset(p, 8) + block_size(p, 8) + 0x20,
        chks_offsets(p).len() == 10,
        forall|r: int| 0 <= r < 10 ==> #[trigger] record_error(p, r, chks_offsets(p)[r] as int) is None,
        chks_offsets(p)[9] == p.len() - 0x30,
        bytes_at(p, p.len() - 16, ends_block()),
        rsav_verdict(p) == Ok::<RsavValidation, ConvertError>(RsavValidation { size: p.len() as usize, block_count: 9, checksum_count: 10 }),
{
    reveal(rsav_verdict);
    lemma_table_ok(p, 0);
    lemma_gaps_ok(p, 0);
    lemma_records_ok(p, 0);
}

/// The bytes that the CHKS record at `m` vouches for: the `d` bytes (its data
/// length) that end where its 0x14-byte header ends, so the block data in
/// front of the record and the record itself, with the record's data-length
/// and checksum words read as zero.
pub open spec fn chks_covered(p: Seq<u8>, m: int) -> Seq<u8> {
    let d = u32_be_at(p, m + 8) as int;
    Seq::new(d as nat, |k: int| if d - 12 <= k < d - 4 { 0u8 } else { p[m + 0x14 - d + k] })
}

/// A CHKS record that passes its structural checks is accepted exactly when
/// its stored checksum is the one-at-a-time hash of all the bytes it covers,
/// from the start of its block's data to the end of its own header; when it
/// is not, the record is refused with a checksum mismatch.
pub proof fn lemma_record_checksum_covers_data(p: Seq<u8>, r: int, m: int)
    requires
        0 <= r < 10,
        record_error(p, r, m) is None || record_error(p, r, m) matches Some(ConvertError::ChecksumMismatch { .. }),
    ensures
        u32_be_at(p, m + 8) >= 0x10,
        u32_be_at(p, m + 8) <= m,
        record_error(p, r, m) is None <==> u32_be_at(p, m + 12) == jooat_spec(chks_covered(p, m)),
{
    let d = u32_be_at(p, m + 8) as int;
    let start = m - d + 0x14;
    let end = m + 0x14;
    assert(checked_region(p, start, end, m) =~= chks_covered(p, m));
}

/// Every CHKS record of a valid payload stores the hash of all the bytes it
/// covers: at least 0x10 bytes ending with its own header.
pub proof fn lemma_valid_rsav_checksums(p: Seq<u8>)
    requires
        rsav_verdict(p) is Ok,
    ensures
        chks_offsets(p).len() == 10,
        forall|r: int| 0 <= r < 10 ==> u32_be_at(p, #[trigger] chks_offsets(p)[r] + 8) >= 0x10 && u32_be_at(p,
            chks_offsets(p)[r] + 12) == jooat_spec(chks_covered(p, chks_offsets(p)[r] as int)),
{
    lemma_valid_rsav_shape(p);
    assert forall|r: int| 0 <= r < 10 implies u32_be_at(p, #[trigger] chks_offsets(p)[r] + 8) >= 0x10 && u32_be_at(p,
        chks_offsets(p)[r] + 12) == jooat_spec(chks_covered(p, chks_offsets(p)[r] as int)) by {
        assert(record_error(p, r, chks_offsets(p)[r] as int) is None);
        lemma_record_checksum_covers_data(p, r, chks_offsets(p)[r] as int);
    }
}

/// The layout of every payload that validation accepts: a multiple of 16
/// bytes, at least 0x100; `RSAV`, version 3 and header size 0xB0 as
/// little-endian words; the `CODE` tag at 0xB0; ten `CHKS` records, the last
/// 0x30 bytes before the end; the `ENDS` trailer in the last 16 bytes; and a
/// summary of its size, nine blocks and ten records.
pub proof fn lemma_valid_rsav_layout(p: Seq<u8>)
    requires
        p.len() <= usize::MAX,
        rsav_verdict(p) is Ok,
    ensures
        p.len() >= 0x100,
        p.len() % 16 == 0,
        p.subrange(0, 4) == seq![0x52u8, 0x53, 0x41, 0x56],
        p[4] == 3 && p[5] == 0 && p[6] == 0 && p[7] == 0,
        p[8] == 0xB0 && p[9] == 0 && p[10] == 0 && p[11] == 0,
        p.subrange(0xB0, 0xB4) == seq![0x43u8, 0x4F, 0x44, 0x45],
        p.subrange(p.len() - 16, p.len() as int) == seq![0x45u8, 0x4E, 0x44, 0x53, 0, 0, 0, 0, 0, 0, 0, 0, 0, 0, 0, 0],
        chks_offsets(p).len() == 10,
        chks_offsets(p)[9] == p.len() - 0x30,
        forall|r: int| 0 <= r < 10 ==> p.subrange(#[trigger] chks_offsets(p)[r] as int, chks_offsets(p)[r] + 8) == seq![
            0x43u8,
            0x48,
            0x4B,
            0x53,
            0,
            0,
            0,
            0x14,
        ],
        rsav_verdict(p) == Ok::<RsavValidation, ConvertError>(RsavValidation { size: p.len() as usize, block_count: 9, checksum_count: 10 }),
{
    lemma_valid_rsav_shape(p);
    lemma_markers_are_markers(p, 0);
    assert(p.len() >= 0x100 && p.len() % 16 == 0 && bytes_at(p, RSAV_HEADER_SIZE as int, seq![0x43u8, 0x4F, 0x44, 0x45])) by {
        reveal(rsav_verdict);
    }
    assert(u32_le_at(p, 4) == 3);
    assert(u32_le_at(p, 8) == 0xB0);
    assert forall|r: int| 0 <= r < 10 implies p.subrange(#[trigger] chks_offsets(p)[r] as int, chks_offsets(p)[r] + 8) == seq![
        0x43u8,
        0x48,
        0x4B,
        0x53,
        0,
        0,
        0,
        0x14,
    ] by {
        assert(bytes_at(p, chks_offsets(p)[r] as int, chks_marker()));
    }
}

/// The blocks of every payload that validation accepts. Table entry `i`
/// (16 bytes at 0x14 + 0x10 * i) gives block `i`'s offset and size as
/// little-endian words at +8 and +12. Each block is 16-byte aligned, at least
/// 0x20 bytes, lies behind the header and opens with its tag `S00i`. The first
/// block starts 0x20 bytes after the CODE block, whose length the header
/// word at 0x0C gives. Each block starts 0x20 bytes after the previous one
/// ends, and the last ends 0x20 bytes before the payload does. The bytes
/// covered by CHKS record `r` start 0x10 bytes into the CODE block (`r == 0`)
/// or into block `r - 1`.
pub proof fn lemma_valid_rsav_blocks(p: Seq<u8>)
    requires
        rsav_verdict(p) is Ok,
    ensures
        forall|i: int| 0 <= i < 9 ==> {
            let off = #[trigger] u32_le_at(p, 0x14 + 0x10 * i + 8) as int;
            let size = u32_le_at(p, 0x14 + 0x10 * i + 12) as int;
            &&& off % 16 == 0 && off >= 0xB0 && size >= 0x20 && size % 16 == 0 && off + size <= p.len()
            &&& p[off] == 0x53 && p[off + 1] == 0x30 && p[off + 2] == 0x30 && p[off + 3] == 0x30 + i
        },
        u32_le_at(p, 0x1C) == 0xD0 + u32_le_at(p, 0x0C),
        forall|i: int| 0 <= i < 8 ==> #[trigger] u32_le_at(p, 0x14 + 0x10 * (i + 1) + 8) == u32_le_at(p, 0x14 + 0x10 * i + 8)
            + u32_le_at(p, 0x14 + 0x10 * i + 12) + 0x20,
        p.len() == u32_le_at(p, 0x9C) + u32_le_at(p, 0xA0) + 0x20,
        chks_offsets(p).len() == 10,
        forall|r: int| 0 <= r < 10 ==> #[trigger] chks_offsets(p)[r] + 0x14 - u32_be_at(p, chks_offsets(p)[r] + 8) == if r == 0 {
            0xC0
        } else {
            u32_le_at(p, 0x14 + 0x10 * (r - 1) + 8) + 0x10
        },
{
    lemma_valid_rsav_entries(p);
    lemma_valid_rsav_chain(p);
    lemma_valid_rsav_record_starts(p);
}

proof fn lemma_valid_rsav_code_size(p: Seq<u8>)
    requires
        rsav_verdict(p) is Ok,
    ensures
        code_size(p) == expected_code_size(p),
{
    reveal(rsav_verdict);
}

proof fn lemma_valid_rsav_entries(p: Seq<u8>)
    requires
        rsav_verdict(p) is Ok,
    ensures
        forall|i: int| 0 <= i < 9 ==> {
            let off = #[trigger] u32_le_at(p, 0x14 + 0x10 * i + 8) as int;
            let size = u32_le_at(p, 0x14 + 0x10 * i + 12) as int;
            &&& off % 16 == 0 && off >= 0xB0 && size >= 0x20 && size % 16 == 0 && off + size <= p.len()
            &&& p[off] == 0x53 && p[off + 1] == 0x30 && p[off + 2] == 0x30 && p[off + 3] == 0x30 + i
        },
{
    lemma_valid_rsav_shape(p);
    assert forall|i: int| 0 <= i < 9 implies {
        let off = #[trigger] u32_le_at(p, 0x14 + 0x10 * i + 8) as int;
        let size = u32_le_at(p, 0x14 + 0x10 * i + 12) as int;
        &&& off % 16 == 0 && off >= 0xB0 && size >= 0x20 && size % 16 == 0 && off + size <= p.len()
        &&& p[off] == 0x53 && p[off + 1] == 0x30 && p[off + 2] == 0x30 && p[off + 3] == 0x30 + i
    } by {
        lemma_entry_facts(p, i);
    }
}

proof fn lemma_entry_facts(p: Seq<u8>, i: int)
    requires
        0 <= i < 9,
        entry_error(p, i) is None,
    ensures
        ({
            let off = u32_le_at(p, 0x14 + 0x10 * i + 8) as int;
            let size = u32_le_at(p, 0x14 + 0x10 * i + 12) as int;
            &&& off % 16 == 0 && off >= 0xB0 && size >= 0x20 && size % 16 == 0 && off + size <= p.len()
            &&& p[off] == 0x53 && p[off + 1] == 0x30 && p[off + 2] == 0x30 && p[off + 3] == 0x30 + i
        }),
{
    let off = block_offset(p, i);
    assert(bytes_at(p, off, section_tag(i)));
    assert(p.subrange(off, off + 4)[0] == p[off]);
    assert(p.subrange(off, off + 4)[1] == p[off + 1]);
    assert(p.subrange(off, off + 4)[2] == p[off + 2]);
    assert(p.subrange(off, off + 4)[3] == p[off + 3]);
}

proof fn lemma_valid_rsav_chain(p: Seq<u8>)
    requires
        rsav_verdict(p) is Ok,
    ensures
        u32_le_at(p, 0x1C) == 0xD0 + u32_le_at(p, 0x0C),
        forall|i: int| 0 <= i < 8 ==> #[trigger] u32_le_at(p, 0x14 + 0x10 * (i + 1) + 8) == u32_le_at(p, 0x14 + 0x10 * i + 8)
            + u32_le_at(p, 0x14 + 0x10 * i + 12) + 0x20,
        p.len() == u32_le_at(p, 0x9C) + u32_le_at(p, 0xA0) + 0x20,
{
    lemma_valid_rsav_shape(p);
    lemma_valid_rsav_code_nonempty(p);
    lemma_valid_rsav_code_size(p);
    assert forall|i: int| 0 <= i < 8 implies #[trigger] u32_le_at(p, 0x14 + 0x10 * (i + 1) + 8) == u32_le_at(p, 0x14 + 0x10 * i + 8)
        + u32_le_at(p, 0x14 + 0x10 * i + 12) + 0x20 by {
        assert(block_offset(p, i + 1) == block_offset(p, i) + block_size(p, i) + 0x20);
    }
}

proof fn lemma_valid_rsav_record_starts(p: Seq<u8>)
    requires
        rsav_verdict(p) is Ok,
    ensures
        chks_offsets(p).len() == 10,
        forall|r: int| 0 <= r < 10 ==> #[trigger] chks_offsets(p)[r] + 0x14 - u32_be_at(p, chks_offsets(p)[r] + 8) == if r == 0 {
            0xC0
        } else {
            u32_le_at(p, 0x14 + 0x10 * (r - 1) + 8) + 0x10
        },
{
    lemma_valid_rsav_shape(p);
    assert forall|r: int| 0 <= r < 10 implies #[trigger] chks_offsets(p)[r] + 0x14 - u32_be_at(p, chks_offsets(p)[r] + 8) == if r == 0 {
        0xC0
    } else {
        u32_le_at(p, 0x14 + 0x10 * (r - 1) + 8) + 0x10
    } by {
        assert(record_error(p, r, chks_offsets(p)[r] as int) is None);
    }
}

/// A valid payload declares a CODE block of at least one 16-byte block: its
/// first CHKS record covers at least 0x10 bytes of it.
pub(crate) proof fn lemma_valid_rsav_code_nonempty(p: Seq<u8>)
    requires
        rsav_verdict(p) is Ok,
    ensures
        rsav_header_ok(p),
        bytes_at(p, p.len() - 16, ends_block()),
        code_size(p) >= 16,
{
    lemma_valid_rsav_shape(p);
    let m = chks_offsets(p)[0] as int;
    assert(record_error(p, 0, m) is None);
    let d = u32_be_at(p, m + 8) as int;
    assert(d >= 0x10);
    assert(round_up16(d) == code_size(p));
    assert(round_up16(d) >= 16) by (nonlinear_arith)
        requires
            d >= 0x10,
            round_up16(d) == ((d + 15) / 16) * 16,
    ;
}

} // verus!
