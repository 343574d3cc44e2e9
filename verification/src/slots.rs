use crate::error::ConvertError;
use crate::order::{chars_less, lemma_chars_less_irreflexive, lemma_chars_less_total, lemma_chars_less_transitive, str_less};
use crate::bytes::{read_u32_le, u32_le_at};
use crate::crypto::{hex_lower, sha256_hex, sha256_spec};
use crate::text::{chars_of, decode_utf16le_field, utf16le_field_verdict};
use vstd::multiset::Multiset;
use vstd::prelude::*;

verus! {

/// The prefix shared by all story-save slot folders.
pub open spec fn srdr3() -> Seq<char> {
    seq!['S', 'R', 'D', 'R', '3']
}

/// Whether `c` is an ASCII decimal digit.
pub open spec fn is_ascii_digit(c: char) -> bool {
    '0' <= c <= '9'
}

/// Whether `s` is `SRDR3` followed by ASCII digits only.
pub open spec fn is_slot_folder(s: Seq<char>) -> bool {
    &&& s.len() >= 5
    &&& s.take(5) == srdr3()
    &&& forall|i: int| 5 <= i < s.len() ==> is_ascii_digit(#[trigger] s[i])
}

/// The PC file name for an Xbox slot folder: `SRDR3` with four digits maps
/// to itself, the two long names of slots 14 and 15 map to their short
/// forms, and nothing else maps.
pub open spec fn pc_name_spec(s: Seq<char>) -> Option<Seq<char>> {
    if is_slot_folder(s) && s.len() == 9 {
        Some(s)
    } else if s == seq!['S', 'R', 'D', 'R', '3', '0', '0', '0', '1', '4'] {
        Some(seq!['S', 'R', 'D', 'R', '3', '0', '0', '1', '4'])
    } else if s == seq!['S', 'R', 'D', 'R', '3', '0', '0', '0', '1', '5'] {
        Some(seq!['S', 'R', 'D', 'R', '3', '0', '0', '1', '5'])
    } else {
        None
    }
}

/// Every PC file name is nine characters: `SRDR3` and four ASCII digits. A
/// folder named `SRDR3` and four digits keeps its name on the PC.
pub proof fn lemma_pc_name_shape(s: Seq<char>, digits: Seq<char>)
    ensures
        pc_name_spec(s) matches Some(n) ==> n.len() == 9 && n.take(5) == seq!['S', 'R', 'D', 'R', '3'] && forall|i: int|
            5 <= i < 9 ==> '0' <= #[trigger] n[i] <= '9',
        digits.len() == 4 && (forall|i: int| 0 <= i < 4 ==> '0' <= #[trigger] digits[i] <= '9') ==> pc_name_spec(
            seq!['S', 'R', 'D', 'R', '3'] + digits,
        ) == Some(seq!['S', 'R', 'D', 'R', '3'] + digits),
{
    let short14 = seq!['S', 'R', 'D', 'R', '3', '0', '0', '1', '4'];
    let short15 = seq!['S', 'R', 'D', 'R', '3', '0', '0', '1', '5'];
    assert(short14.take(5) =~= seq!['S', 'R', 'D', 'R', '3']);
    assert(short15.take(5) =~= seq!['S', 'R', 'D', 'R', '3']);
    if is_slot_folder(s) && s.len() == 9 {
        assert forall|i: int| 5 <= i < 9 implies '0' <= #[trigger] s[i] <= '9' by {
            assert(is_ascii_digit(s[i]));
        }
    }
    let name = seq!['S', 'R', 'D', 'R', '3'] + digits;
    if digits.len() == 4 && (forall|i: int| 0 <= i < 4 ==> '0' <= #[trigger] digits[i] <= '9') {
        assert(name.take(5) =~= srdr3());
        assert forall|i: int| 5 <= i < name.len() implies is_ascii_digit(#[trigger] name[i]) by {
            assert(name[i] == digits[i - 5]);
        }
    }
}

/// Whether `s` is `SRDR3` followed by ASCII digits only.
fn slot_folder_name(s: &Vec<char>) -> (res: bool)
    ensures
        res == is_slot_folder(s@),
{
    if s.len() < 5 || s[0] != 'S' || s[1] != 'R' || s[2] != 'D' || s[3] != 'R' || s[4] != '3' {
        proof {
            if s@.len() >= 5 && s@.take(5) == srdr3() {
                assert(s@.take(5)[0] == 'S' && s@.take(5)[1] == 'R' && s@.take(5)[2] == 'D');
                assert(s@.take(5)[3] == 'R' && s@.take(5)[4] == '3');
            }
        }
        return false;
    }
    assert(s@.take(5) =~= srdr3());
    let mut k: usize = 5;
    while k < s.len()
        invariant
            5 <= k <= s@.len(),
            forall|i: int| 5 <= i < k ==> is_ascii_digit(#[trigger] s@[i]),
        decreases s@.len() - k,
    {
        if !('0' <= s[k] && s[k] <= '9') {
            return false;
        }
        k = k + 1;
    }
    true
}

/// Whether two character sequences are equal.
fn chars_equal(a: &[char], b: &[char]) -> (res: bool)
    ensures
        res == (a@ == b@),
{
    if a.len() != b.len() {
        return false;
    }
    let mut k: usize = 0;
    while k < a.len()
        invariant
            a@.len() == b@.len(),
            k <= a@.len(),
            forall|j: int| 0 <= j < k ==> a@[j] == b@[j],
        decreases a@.len() - k,
    {
        if a[k] != b[k] {
            return false;
        }
        k = k + 1;
    }
    assert(a@ =~= b@);
    true
}

/// Maps an Xbox slot folder name to the PC save file name, refusing any name
/// that cannot be mapped without guessing.
pub fn pc_name(xbox_name: &str) -> (res: Result<String, ConvertError>)
    ensures
        pc_name_spec(xbox_name@) matches Some(n) ==> (res matches Ok(s) && s@ == n),
        pc_name_spec(xbox_name@) is None ==> (res matches Err(ConvertError::SlotName { name }) && name@ == xbox_name@),
{
    let chars = chars_of(xbox_name);
    if chars.len() == 9 && slot_folder_name(&chars) {
        return Ok(xbox_name.to_owned());
    }
    let long14: [char; 10] = ['S', 'R', 'D', 'R', '3', '0', '0', '0', '1', '4'];
    let long15: [char; 10] = ['S', 'R', 'D', 'R', '3', '0', '0', '0', '1', '5'];
    if chars_equal(chars.as_slice(), long14.as_slice()) {
        let short = "SRDR30014";
        proof {
            reveal_strlit("SRDR30014");
        }
        assert(short@ =~= seq!['S', 'R', 'D', 'R', '3', '0', '0', '1', '4']);
        return Ok(short.to_owned());
    }
    if chars_equal(chars.as_slice(), long15.as_slice()) {
        let short = "SRDR30015";
        proof {
            reveal_strlit("SRDR30015");
        }
        assert(short@ =~= seq!['S', 'R', 'D', 'R', '3', '0', '0', '1', '5']);
        return Ok(short.to_owned());
    }
    Err(ConvertError::SlotName { name: xbox_name.to_owned() })
}

/// Splitting `s` at `/`: the non-empty segments completed so far, and the
/// segment still open at the end.
pub open spec fn split_state(s: Seq<char>) -> (Seq<Seq<char>>, Seq<char>)
    decreases s.len(),
{
    if s.len() == 0 {
        (Seq::empty(), Seq::empty())
    } else {
        let (done, open) = split_state(s.drop_last());
        if s.last() == '/' {
            if open.len() > 0 {
                (done.push(open), Seq::empty())
            } else {
                (done, Seq::empty())
            }
        } else {
            (done, open.push(s.last()))
        }
    }
}

/// The non-empty `/`-separated segments of `s`, in order.
pub open spec fn path_parts(s: Seq<char>) -> Seq<Seq<char>> {
    let (done, open) = split_state(s);
    if open.len() > 0 {
        done.push(open)
    } else {
        done
    }
}

/// Whether a ZIP member name stays inside the archive root: no NUL, no
/// backslash, not absolute, no `.` or `..` segment, no drive-like first segment.
pub open spec fn zip_path_safe(s: Seq<char>) -> bool {
    let parts = path_parts(s);
    &&& !s.contains('\0')
    &&& !s.contains('\\')
    &&& !(s.len() > 0 && s[0] == '/')
    &&& forall|i: int| 0 <= i < parts.len() ==> #[trigger] parts[i] != seq!['.'] && parts[i] != seq!['.', '.']
    &&& !(parts.len() > 0 && parts[0].contains(':'))
}

/// A member name is accepted exactly when it holds no NUL and no backslash,
/// does not start with `/`, has no `.` or `..` segment and no `:` in its first
/// segment; no other character, of any script, makes it unsafe.
pub proof fn lemma_zip_path_acceptance(s: Seq<char>)
    ensures
        zip_path_safe(s) <==> {
            &&& forall|i: int| 0 <= i < s.len() ==> #[trigger] s[i] != '\0' && s[i] != '\\'
            &&& (s.len() == 0 || s[0] != '/')
            &&& forall|i: int| 0 <= i < path_parts(s).len() ==> #[trigger] path_parts(s)[i] != seq!['.'] && path_parts(s)[i] != seq!['.', '.']
            &&& forall|k: int| path_parts(s).len() > 0 && 0 <= k < path_parts(s)[0].len() ==> #[trigger] path_parts(s)[0][k] != ':'
        },
{
    let parts = path_parts(s);
    if !s.contains('\0') && !s.contains('\\') {
        assert forall|i: int| 0 <= i < s.len() implies #[trigger] s[i] != '\0' && s[i] != '\\' by {
            if s[i] == '\0' {
                assert(s.contains('\0'));
            }
            if s[i] == '\\' {
                assert(s.contains('\\'));
            }
        }
    }
    if parts.len() > 0 && parts[0].contains(':') {
        let k = choose|k: int| 0 <= k < parts[0].len() && parts[0][k] == ':';
        assert(parts[0][k] == ':');
    }
}

/// Whether `s` holds the character `c`.
fn chars_contain(s: &Vec<char>, c: char) -> (res: bool)
    ensures
        res == s@.contains(c),
{
    let mut k: usize = 0;
    while k < s.len()
        invariant
            k <= s@.len(),
            forall|j: int| 0 <= j < k ==> s@[j] != c,
        decreases s@.len() - k,
    {
        if s[k] == c {
            assert(s@[k as int] == c);
            return true;
        }
        k = k + 1;
    }
    false
}

/// Splits a ZIP member name into its non-empty path segments, refusing names
/// that could escape the archive root.
pub fn safe_zip_parts(name: &str) -> (res: Result<Vec<Vec<char>>, ConvertError>)
    ensures
        zip_path_safe(name@) ==> (res matches Ok(parts) && parts@.len() == path_parts(name@).len() && forall|i: int|
            0 <= i < parts@.len() ==> #[trigger] parts@[i]@ == path_parts(name@)[i]),
        !zip_path_safe(name@) ==> (res matches Err(ConvertError::UnsafeZipPath { name: n }) && n@ == name@),
{
    let chars = chars_of(name);
    if chars_contain(&chars, '\0') || chars_contain(&chars, '\\') || (chars.len() > 0 && chars[0] == '/') {
        return Err(ConvertError::UnsafeZipPath { name: name.to_owned() });
    }
    let mut done: Vec<Vec<char>> = Vec::new();
    let mut open: Vec<char> = Vec::new();
    let mut k: usize = 0;
    assert(chars@.take(0) =~= Seq::<char>::empty());
    while k < chars.len()
        invariant
            k <= chars@.len(),
            split_state(chars@.take(k as int)).0.len() == done@.len(),
            forall|i: int| 0 <= i < done@.len() ==> #[trigger] done@[i]@ == split_state(chars@.take(k as int)).0[i],
            open@ == split_state(chars@.take(k as int)).1,
        decreases chars@.len() - k,
    {
        let c = chars[k];
        assert(chars@.take(k + 1).drop_last() =~= chars@.take(k as int));
        assert(chars@.take(k + 1).last() == c);
        if c == '/' {
            if open.len() > 0 {
                let finished = open;
                open = Vec::new();
                done.push(finished);
            } else {
                open = Vec::new();
            }
            assert(open@ =~= Seq::<char>::empty());
        } else {
            open.push(c);
        }
        k = k + 1;
    }
    assert(chars@.take(chars@.len() as int) =~= chars@);
    if open.len() > 0 {
        done.push(open);
    }
    let ghost parts = path_parts(chars@);
    assert(done@.len() == parts.len());
    assert(forall|i: int| 0 <= i < done@.len() ==> #[trigger] done@[i]@ == parts[i]);
    let dot: [char; 1] = ['.'];
    let dotdot: [char; 2] = ['.', '.'];
    let mut p: usize = 0;
    while p < done.len()
        invariant
            parts == path_parts(name@),
            done@.len() == parts.len(),
            forall|i: int| 0 <= i < done@.len() ==> #[trigger] done@[i]@ == parts[i],
            dot@ == seq!['.'],
            dotdot@ == seq!['.', '.'],
            p <= done@.len(),
            forall|i: int| 0 <= i < p ==> #[trigger] parts[i] != seq!['.'] && parts[i] != seq!['.', '.'],
        decreases done@.len() - p,
    {
        if chars_equal(done[p].as_slice(), dot.as_slice()) || chars_equal(done[p].as_slice(), dotdot.as_slice()) {
            assert(done@[p as int]@ == parts[p as int]);
            assert(parts[p as int] == seq!['.'] || parts[p as int] == seq!['.', '.']);
            return Err(ConvertError::UnsafeZipPath { name: name.to_owned() });
        }
        p = p + 1;
    }
    if done.len() > 0 && chars_contain(&done[0], ':') {
        return Err(ConvertError::UnsafeZipPath { name: name.to_owned() });
    }
    Ok(done)
}

/// Which of the two files of a story-save slot a ZIP member holds.
#[derive(Debug, Clone, Copy, PartialEq, Eq, Structural)]
pub enum SaveFile {
    /// `Save Game Data`: the AES-encrypted RSAV payload.
    Data,
    /// `Save Game Header`: the Xbox atom header.
    Header,
}

/// The file name of a slot's member of this kind.
pub open spec fn save_file_name(file: SaveFile) -> Seq<char> {
    match file {
        SaveFile::Data => seq!['S', 'a', 'v', 'e', ' ', 'G', 'a', 'm', 'e', ' ', 'D', 'a', 't', 'a'],
        SaveFile::Header => seq!['S', 'a', 'v', 'e', ' ', 'G', 'a', 'm', 'e', ' ', 'H', 'e', 'a', 'd', 'e', 'r'],
    }
}

/// The kind of slot file that a member's last path segment names, if any.
pub open spec fn save_file_of(leaf: Seq<char>) -> Option<SaveFile> {
    if leaf == save_file_name(SaveFile::Data) {
        Some(SaveFile::Data)
    } else if leaf == save_file_name(SaveFile::Header) {
        Some(SaveFile::Header)
    } else {
        None
    }
}

/// What the archive reader reports of one ZIP member before reading it.
pub struct ZipEntryInfo {
    pub name: String,
    pub size: u64,
    pub is_dir: bool,
    pub unix_mode: Option<u32>,
}

/// A ZIP member that holds one file of a story-save slot.
pub struct SlotMember {
    pub folder: String,
    pub file: SaveFile,
}

struct StoredMember {
    folder: String,
    file: SaveFile,
    bytes: Vec<u8>,
}

/// The limit on the sum of the uncompressed sizes that the members declare.
pub const MAX_ARCHIVE_UNCOMPRESSED: u64 = 0x1000_0000;

/// The state of reading an archive member by member: the declared sizes so
/// far, the member names seen, and the slot files kept.
pub struct ArchiveScan {
    total_size: u64,
    seen: Vec<String>,
    members: Vec<StoredMember>,
}

/// The declared total after adding `size`, saturating at the largest `u64`.
pub open spec fn next_total(total: nat, size: u64) -> nat {
    if total + size > u64::MAX {
        u64::MAX as nat
    } else {
        (total + size) as nat
    }
}

/// The archive limit is 256 MiB of declared uncompressed size: a member is
/// refused as too large exactly when the sizes declared so far, its own
/// included, exceed 256 * 1024 * 1024 bytes.
pub proof fn lemma_archive_limit(total: nat, size: u64)
    requires
        total <= u64::MAX,
    ensures
        next_total(total, size) > MAX_ARCHIVE_UNCOMPRESSED <==> total + size > 256 * 1024 * 1024,
{
}

/// Whether a Unix mode marks a symbolic link.
pub open spec fn is_symlink_mode(mode: Option<u32>) -> bool {
    mode matches Some(m) && m & 0o170000u32 == 0o120000u32
}

/// The slot file that a safe, non-directory member named `name` holds, if any.
pub open spec fn slot_file_of(name: Seq<char>) -> Option<(Seq<char>, SaveFile)> {
    let parts = path_parts(name);
    let folder = parts[parts.len() - 2];
    let leaf = parts[parts.len() - 1];
    if is_slot_folder(folder) && save_file_of(leaf) is Some {
        Some((folder, save_file_of(leaf)->0))
    } else {
        None
    }
}

/// Whether no two kept files share both folder and kind.
pub open spec fn files_distinct(st: Seq<(Seq<char>, SaveFile, Seq<u8>)>) -> bool {
    forall|i: int, j: int| 0 <= i < j < st.len() ==> !(#[trigger] st[i].0 == #[trigger] st[j].0 && st[i].1 == st[j].1)
}

impl ArchiveScan {
    /// What holds of every scan: no member name is seen twice, and at most
    /// one file of each kind is kept for each slot folder.
    pub open spec fn well_formed(&self) -> bool {
        &&& self.seen_names().no_duplicates()
        &&& files_distinct(self.stored())
    }

    #[verifier::type_invariant]
    closed spec fn scan_invariant(self) -> bool {
        self.well_formed()
    }

    /// The sum of the sizes declared so far.
    pub closed spec fn total(&self) -> nat {
        self.total_size as nat
    }

    /// The names of the members seen so far, in order.
    pub closed spec fn seen_names(&self) -> Seq<Seq<char>> {
        Seq::new(self.seen@.len(), |i: int| self.seen@[i]@)
    }

    /// The slot files kept so far: folder, kind and bytes, in order.
    pub closed spec fn stored(&self) -> Seq<(Seq<char>, SaveFile, Seq<u8>)> {
        Seq::new(self.members@.len(), |i: int| (self.members@[i].folder@, self.members@[i].file, self.members@[i].bytes@))
    }

    /// A scan that has seen nothing.
    pub fn new() -> (res: Self)
        ensures
            res.total() == 0,
            res.seen_names() == Seq::<Seq<char>>::empty(),
            res.stored() == Seq::<(Seq<char>, SaveFile, Seq<u8>)>::empty(),
            res.well_formed(),
    {
        let seen: Vec<String> = Vec::new();
        let members: Vec<StoredMember> = Vec::new();
        assert(Seq::new(seen@.len(), |i: int| seen@[i]@) =~= Seq::<Seq<char>>::empty());
        assert(Seq::new(members@.len(), |i: int| (members@[i].folder@, members@[i].file, members@[i].bytes@)) =~= Seq::<(Seq<char>, SaveFile, Seq<u8>)>::empty());
        ArchiveScan { total_size: 0, seen, members }
    }

    fn has_seen(&self, name: &String) -> (res: bool)
        ensures
            res == self.seen_names().contains(name@),
    {
        let mut k: usize = 0;
        while k < self.seen.len()
            invariant
                k <= self.seen@.len(),
                forall|j: int| 0 <= j < k ==> self.seen_names()[j] != name@,
            decreases self.seen@.len() - k,
        {
            if self.seen[k] == *name {
                assert(self.seen_names()[k as int] == name@);
                return true;
            }
            k = k + 1;
        }
        false
    }

    /// Decides on one archive member before it is read: counts its declared
    /// size against the limit, refuses a repeated name, an unsafe path and a
    /// symbolic link, and says whether it is a slot file to read.
    pub fn admit_entry(&mut self, entry: &ZipEntryInfo) -> (res: Result<Option<SlotMember>, ConvertError>)
        ensures
            final(self).total() == next_total(old(self).total(), entry.size),
            final(self).stored() == old(self).stored(),
            final(self).well_formed(),
            next_total(old(self).total(), entry.size) > MAX_ARCHIVE_UNCOMPRESSED ==> res == Err::<Option<SlotMember>, ConvertError>(ConvertError::ArchiveTooLarge) && final(self).seen_names() == old(self).seen_names(),
            next_total(old(self).total(), entry.size) <= MAX_ARCHIVE_UNCOMPRESSED && old(self).seen_names().contains(entry.name@) ==> (res matches Err(ConvertError::DuplicateMember { name: n }) && n@ == entry.name@) && final(self).seen_names() == old(self).seen_names(),
            next_total(old(self).total(), entry.size) <= MAX_ARCHIVE_UNCOMPRESSED && !old(self).seen_names().contains(entry.name@) ==> {
                &&& final(self).seen_names() == old(self).seen_names().push(entry.name@)
                &&& !zip_path_safe(entry.name@) ==> (res matches Err(ConvertError::UnsafeZipPath { name: n }) && n@ == entry.name@)
                &&& zip_path_safe(entry.name@) && (entry.is_dir || path_parts(entry.name@).len() < 2) ==> res == Ok::<Option<SlotMember>, ConvertError>(None)
                &&& zip_path_safe(entry.name@) && !entry.is_dir && path_parts(entry.name@).len() >= 2 && is_symlink_mode(entry.unix_mode) ==> (res matches Err(ConvertError::SymbolicLink { name: n }) && n@ == entry.name@)
                &&& zip_path_safe(entry.name@) && !entry.is_dir && path_parts(entry.name@).len() >= 2 && !is_symlink_mode(entry.unix_mode) ==> match slot_file_of(entry.name@) {
                    None => res == Ok::<Option<SlotMember>, ConvertError>(None),
                    Some((folder, file)) => res matches Ok(Some(m)) && m.folder@ == folder && m.file == file,
                }
            },
    {
        proof {
            use_type_invariant(&*self);
        }
        self.total_size = self.total_size.saturating_add(entry.size);
        if self.total_size > MAX_ARCHIVE_UNCOMPRESSED {
            return Err(ConvertError::ArchiveTooLarge);
        }
        if self.has_seen(&entry.name) {
            return Err(ConvertError::DuplicateMember { name: entry.name.clone() });
        }
        let ghost before = self.seen_names();
        let mut seen: Vec<String> = Vec::new();
        std::mem::swap(&mut seen, &mut self.seen);
        assert(Seq::new(seen@.len(), |i: int| seen@[i]@) =~= before);
        seen.push(entry.name.clone());
        assert(Seq::new(seen@.len(), |i: int| seen@[i]@) =~= before.push(entry.name@));
        self.seen = seen;
        let parts = match safe_zip_parts(entry.name.as_str()) {
            Ok(parts) => parts,
            Err(error) => {
                return Err(error);
            },
        };
        if entry.is_dir || parts.len() < 2 {
            return Ok(None);
        }
        match entry.unix_mode {
            Some(mode) => {
                if mode & 0o170000u32 == 0o120000u32 {
                    return Err(ConvertError::SymbolicLink { name: entry.name.clone() });
                }
            },
            None => {},
        }
        let folder = &parts[parts.len() - 2];
        let leaf = &parts[parts.len() - 1];
        assert(folder@ == path_parts(entry.name@)[path_parts(entry.name@).len() - 2]);
        assert(leaf@ == path_parts(entry.name@)[path_parts(entry.name@).len() - 1]);
        if !slot_folder_name(folder) {
            return Ok(None);
        }
        let data_name: [char; 14] = ['S', 'a', 'v', 'e', ' ', 'G', 'a', 'm', 'e', ' ', 'D', 'a', 't', 'a'];
        let header_name: [char; 16] = ['S', 'a', 'v', 'e', ' ', 'G', 'a', 'm', 'e', ' ', 'H', 'e', 'a', 'd', 'e', 'r'];
        assert(data_name@ == save_file_name(SaveFile::Data));
        assert(header_name@ == save_file_name(SaveFile::Header));
        let file = if chars_equal(leaf.as_slice(), data_name.as_slice()) {
            SaveFile::Data
        } else if chars_equal(leaf.as_slice(), header_name.as_slice()) {
            SaveFile::Header
        } else {
            return Ok(None);
        };
        let folder_name = string_from_chars(folder.as_slice());
        Ok(Some(SlotMember { folder: folder_name, file }))
    }
}

/// Collects characters into a `String` with `FromIterator<char> for String`.
/// Claimed, as std documents: the string of exactly those characters.
#[verifier::external_body]
fn string_from_chars(chars: &[char]) -> (res: String)
    ensures
        res@ == chars@,
{
    chars.iter().collect()
}

/// One story-save slot read from the archive.
#[derive(Debug, Clone)]
pub struct XboxSlot {
    pub xbox_name: String,
    pub pc_name: String,
    pub title: String,
    pub timestamp: u32,
    pub data: Vec<u8>,
    pub source_sha256: String,
}

/// Whether the slots come in strictly increasing order of PC file name.
pub open spec fn sorted_by_pc_name(s: Seq<XboxSlot>) -> bool {
    forall|i: int, j: int| 0 <= i < j < s.len() ==> chars_less(#[trigger] s[i].pc_name@, #[trigger] s[j].pc_name@)
}

/// Whether no two slots share a PC file name.
pub open spec fn pc_names_distinct(s: Seq<XboxSlot>) -> bool {
    forall|i: int, j: int| 0 <= i < j < s.len() ==> #[trigger] s[i].pc_name@ != #[trigger] s[j].pc_name@
}

/// Whether `b` holds the slots of `a`, each as often, in some order.
pub open spec fn same_slots(a: Seq<XboxSlot>, b: Seq<XboxSlot>) -> bool {
    a.to_multiset() == b.to_multiset()
}

proof fn lemma_insert_sorted(out: Seq<XboxSlot>, p: int, x: XboxSlot)
    requires
        0 <= p <= out.len(),
        sorted_by_pc_name(out),
        forall|q: int| 0 <= q < p ==> chars_less(#[trigger] out[q].pc_name@, x.pc_name@),
        p < out.len() ==> !chars_less(out[p].pc_name@, x.pc_name@) && out[p].pc_name@ != x.pc_name@,
    ensures
        sorted_by_pc_name(out.insert(p, x)),
        forall|q: int| 0 <= q < out.len() ==> #[trigger] out[q].pc_name@ != x.pc_name@,
{
    let n = out.insert(p, x);
    if p < out.len() {
        lemma_chars_less_total(out[p].pc_name@, x.pc_name@);
        assert forall|q: int| p < q < out.len() implies chars_less(x.pc_name@, #[trigger] out[q].pc_name@) by {
            lemma_chars_less_transitive(x.pc_name@, out[p].pc_name@, out[q].pc_name@);
        }
    }
    assert forall|q: int| 0 <= q < out.len() implies #[trigger] out[q].pc_name@ != x.pc_name@ by {
        if q < p {
            lemma_chars_less_irreflexive(x.pc_name@);
        } else if q > p {
            lemma_chars_less_irreflexive(x.pc_name@);
            assert(chars_less(x.pc_name@, out[q].pc_name@));
        }
    }
    assert forall|i: int, j: int| 0 <= i < j < n.len() implies chars_less(#[trigger] n[i].pc_name@, #[trigger] n[j].pc_name@) by {
        if j < p {
            assert(n[i] == out[i] && n[j] == out[j]);
        } else if j == p {
            assert(n[i] == out[i]);
        } else if i < p {
            assert(n[i] == out[i] && n[j] == out[j - 1]);
            lemma_chars_less_transitive(out[i].pc_name@, x.pc_name@, out[j - 1].pc_name@);
        } else if i == p {
            assert(n[j] == out[j - 1]);
        } else {
            assert(n[i] == out[i - 1] && n[j] == out[j - 1]);
        }
    }
}

/// Orders slots by PC file name, refusing slots that share a PC file name.
fn sort_slots(slots: Vec<XboxSlot>) -> (res: Result<Vec<XboxSlot>, ConvertError>)
    ensures
        pc_names_distinct(slots@) ==> (res matches Ok(out) && sorted_by_pc_name(out@) && same_slots(slots@, out@)),
        !pc_names_distinct(slots@) ==> res == Err::<Vec<XboxSlot>, ConvertError>(ConvertError::DuplicatePcName),
{
    broadcast use vstd::multiset::group_multiset_axioms;

    let ghost orig = slots@;
    let mut input = slots;
    let ghost len = orig.len() as int;
    let mut out: Vec<XboxSlot> = Vec::new();
    proof {
        out@.to_multiset_ensures();
        vstd::multiset::lemma_multiset_empty_len(out@.to_multiset());
    }
    assert(out@.to_multiset() =~= Multiset::<XboxSlot>::empty());
    assert(out@.to_multiset().add(orig.to_multiset()) =~= orig.to_multiset());
    let ghost mut src: Seq<int> = Seq::empty();
    let ghost mut pos: Seq<int> = Seq::new(orig.len(), |i: int| 0int);
    assert(orig.take(len) =~= orig);
    while input.len() > 0
        invariant
            orig == slots@,
            len == orig.len(),
            out@.to_multiset().add(input@.to_multiset()) == orig.to_multiset(),
            input@.len() <= len,
            input@ == orig.take(input@.len() as int),
            out@.len() + input@.len() == len,
            sorted_by_pc_name(out@),
            src.len() == out@.len(),
            pos.len() == len,
            forall|j: int| 0 <= j < out@.len() ==> input@.len() <= #[trigger] src[j] < len && out@[j] == orig[src[j]],
            forall|i: int| input@.len() <= i < len ==> 0 <= #[trigger] pos[i] < out@.len() && out@[pos[i]] == orig[i],
            forall|i: int, k: int| input@.len() <= i < k < len ==> #[trigger] orig[i].pc_name@ != #[trigger] orig[k].pc_name@,
        decreases input@.len(),
    {
        let ghost old_input = input@;
        let slot = input.pop().unwrap();
        let ghost n = input@.len() as int;
        assert(slot == orig[n]);
        assert(input@ =~= orig.take(n));
        assert(old_input =~= input@.push(slot));
        proof {
            vstd::seq_lib::to_multiset_build(input@, slot);
        }
        let mut p: usize = 0;
        while p < out.len() && str_less(out[p].pc_name.as_str(), slot.pc_name.as_str())
            invariant
                p <= out@.len(),
                forall|q: int| 0 <= q < p ==> chars_less(#[trigger] out@[q].pc_name@, slot.pc_name@),
            decreases out@.len() - p,
        {
            p = p + 1;
        }
        if p < out.len() && out[p].pc_name == slot.pc_name {
            let ghost i = src[p as int];
            assert(orig[n].pc_name@ == orig[i].pc_name@);
            assert(n < i);
            assert(!pc_names_distinct(orig));
            return Err(ConvertError::DuplicatePcName);
        }
        proof {
            lemma_insert_sorted(out@, p as int, slot);
        }
        let ghost before = out@;
        let ghost old_src = src;
        let ghost old_pos = pos;
        out.insert(p, slot);
        proof {
            vstd::seq_lib::to_multiset_insert(before, p as int, slot);
            assert(out@.to_multiset().add(input@.to_multiset()) =~= before.to_multiset().add(old_input.to_multiset()));
            src = old_src.insert(p as int, n);
            pos = Seq::new(
                len as nat,
                |i: int|
                    if i == n {
                        p as int
                    } else if old_pos[i] >= p {
                        old_pos[i] + 1
                    } else {
                        old_pos[i]
                    },
            );
            assert forall|j: int| 0 <= j < out@.len() implies n <= #[trigger] src[j] < len && out@[j] == orig[src[j]] by {
                if j < p {
                    assert(out@[j] == before[j] && src[j] == old_src[j]);
                } else if j > p {
                    assert(out@[j] == before[j - 1] && src[j] == old_src[j - 1]);
                }
            }
            assert forall|i: int| n <= i < len implies 0 <= #[trigger] pos[i] < out@.len() && out@[pos[i]] == orig[i] by {
                if i > n {
                    if old_pos[i] >= p {
                        assert(out@[old_pos[i] + 1] == before[old_pos[i]]);
                    } else {
                        assert(out@[old_pos[i]] == before[old_pos[i]]);
                    }
                }
            }
            assert forall|i: int, k: int| n <= i < k < len implies #[trigger] orig[i].pc_name@ != #[trigger] orig[k].pc_name@ by {
                if i == n {
                    assert(before[old_pos[k]] == orig[k]);
                    assert(before[old_pos[k]].pc_name@ != orig[n].pc_name@);
                }
            }
        }
    }
    proof {
        input@.to_multiset_ensures();
        vstd::multiset::lemma_multiset_empty_len(input@.to_multiset());
        assert(input@.to_multiset() =~= Multiset::<XboxSlot>::empty());
        assert(out@.to_multiset() =~= orig.to_multiset());
        assert(pc_names_distinct(orig));
    }
    Ok(out)
}

/// Size of an Xbox atom header.
pub const XBOX_HEADER_SIZE: usize = 0x118;

/// The Xbox atom header version this reader knows.
pub const XBOX_HEADER_VERSION: u32 = 5;

/// The distinct slot folders of the kept files, in order of first appearance.
pub open spec fn folder_list(st: Seq<(Seq<char>, SaveFile, Seq<u8>)>) -> Seq<Seq<char>>
    decreases st.len(),
{
    if st.len() == 0 {
        Seq::empty()
    } else {
        let earlier = folder_list(st.drop_last());
        if earlier.contains(st.last().0) {
            earlier
        } else {
            earlier.push(st.last().0)
        }
    }
}

/// The bytes of the first kept file of this folder and kind, if any.
pub open spec fn find_file(st: Seq<(Seq<char>, SaveFile, Seq<u8>)>, folder: Seq<char>, file: SaveFile) -> Option<Seq<u8>>
    decreases st.len(),
{
    if st.len() == 0 {
        None
    } else if st[0].0 == folder && st[0].1 == file {
        Some(st[0].2)
    } else {
        find_file(st.drop_first(), folder, file)
    }
}

/// Whether a slot folder with these files passes every check.
pub open spec fn slot_valid(folder: Seq<char>, data: Option<Seq<u8>>, header: Option<Seq<u8>>) -> bool {
    &&& data is Some
    &&& header is Some
    &&& header->0.len() == XBOX_HEADER_SIZE
    &&& u32_le_at(header->0, 0) == XBOX_HEADER_VERSION
    &&& u32_le_at(header->0, 4) == data->0.len()
    &&& data->0.len() != 0 && data->0.len() % 16 == 0
    &&& pc_name_spec(folder) is Some
    &&& utf16le_field_verdict(header->0.subrange(0x18, 0x118)) is Ok
}

/// Whether `e` is the error of the first check that a slot folder with
/// these files fails.
pub open spec fn slot_error(folder: Seq<char>, data: Option<Seq<u8>>, header: Option<Seq<u8>>, e: ConvertError) -> bool {
    match data {
        None => e matches ConvertError::MissingData { folder: f } && f@ == folder,
        Some(d) => match header {
            None => e matches ConvertError::MissingHeader { folder: f } && f@ == folder,
            Some(h) => if h.len() != XBOX_HEADER_SIZE {
                e matches ConvertError::HeaderSize { folder: f } && f@ == folder
            } else if u32_le_at(h, 0) != XBOX_HEADER_VERSION {
                e matches ConvertError::HeaderVersion { folder: f } && f@ == folder
            } else if u32_le_at(h, 4) != d.len() {
                e matches ConvertError::LengthMismatch { folder: f } && f@ == folder
            } else if d.len() == 0 || d.len() % 16 != 0 {
                e matches ConvertError::NotBlockAligned { folder: f } && f@ == folder
            } else if pc_name_spec(folder) is None {
                e matches ConvertError::SlotName { name: n } && n@ == folder
            } else {
                utf16le_field_verdict(h.subrange(0x18, 0x118)) == Err::<Seq<char>, ConvertError>(e)
            },
        },
    }
}

/// Whether `s` is the slot read from this folder's data and header.
pub open spec fn slot_built(s: XboxSlot, folder: Seq<char>, data: Seq<u8>, header: Seq<u8>) -> bool {
    &&& s.xbox_name@ == folder
    &&& pc_name_spec(folder) == Some(s.pc_name@)
    &&& utf16le_field_verdict(header.subrange(0x18, 0x118)) == Ok::<Seq<char>, ConvertError>(s.title@)
    &&& s.timestamp == u32_le_at(header, 0x10)
    &&& s.data@ == data
    &&& s.source_sha256@ == hex_lower(sha256_spec(data))
}

/// A slot read from a folder's files carries the slot's date as the header
/// stores it: the little-endian 32-bit word at offset 0x10, all four bytes.
pub proof fn lemma_slot_timestamp_is_header_word(s: XboxSlot, folder: Seq<char>, data: Seq<u8>, header: Seq<u8>)
    requires
        header.len() == XBOX_HEADER_SIZE,
        slot_built(s, folder, data, header),
    ensures
        s.timestamp as int == header[0x10] as int + 0x100 * header[0x11] as int + 0x1_0000 * header[0x12] as int
            + 0x100_0000 * header[0x13] as int,
{
}

/// Checks one slot folder's files and reads the slot from them.
fn build_slot(folder: &String, data: Option<&Vec<u8>>, header: Option<&Vec<u8>>) -> (res: Result<XboxSlot, ConvertError>)
    ensures
        ({
            let d = match data { Some(v) => Some(v@), None => None::<Seq<u8>> };
            let h = match header { Some(v) => Some(v@), None => None::<Seq<u8>> };
            &&& slot_valid(folder@, d, h) ==> (res matches Ok(s) && slot_built(s, folder@, d->0, h->0))
            &&& !slot_valid(folder@, d, h) ==> (res matches Err(e) && slot_error(folder@, d, h, e))
        }),
{
    let data = match data {
        Some(d) => d,
        None => {
            return Err(ConvertError::MissingData { folder: folder.clone() });
        },
    };
    let header = match header {
        Some(h) => h,
        None => {
            return Err(ConvertError::MissingHeader { folder: folder.clone() });
        },
    };
    if header.len() != XBOX_HEADER_SIZE {
        return Err(ConvertError::HeaderSize { folder: folder.clone() });
    }
    if read_u32_le(header.as_slice(), 0)? != XBOX_HEADER_VERSION {
        return Err(ConvertError::HeaderVersion { folder: folder.clone() });
    }
    if read_u32_le(header.as_slice(), 4)? as usize != data.len() {
        return Err(ConvertError::LengthMismatch { folder: folder.clone() });
    }
    if data.len() == 0 || data.len() % 16 != 0 {
        return Err(ConvertError::NotBlockAligned { folder: folder.clone() });
    }
    let xbox_name = folder.clone();
    let pc = pc_name(folder.as_str())?;
    let title = decode_utf16le_field(&header.as_slice()[0x18..0x118])?;
    let timestamp = read_u32_le(header.as_slice(), 0x10)?;
    let source_sha256 = sha256_hex(data.as_slice());
    let bytes = data.clone();
    assert(bytes@ =~= data@);
    Ok(XboxSlot { xbox_name, pc_name: pc, title, timestamp, data: bytes, source_sha256 })
}

/// Whether a file of this folder and kind is already kept.
pub open spec fn has_file(st: Seq<(Seq<char>, SaveFile, Seq<u8>)>, folder: Seq<char>, file: SaveFile) -> bool {
    exists|i: int| 0 <= i < st.len() && #[trigger] st[i].0 == folder && st[i].1 == file
}

/// Whether no folder is assigned a PC file name that another folder also gets.
pub open spec fn pc_names_unique(folders: Seq<Seq<char>>) -> bool {
    forall|i: int, j: int| 0 <= i < j < folders.len() ==> pc_name_spec(#[trigger] folders[i]) != pc_name_spec(#[trigger] folders[j])
}

/// The index of the first folder from `i` on whose files fail a check.
pub open spec fn first_bad_folder(st: Seq<(Seq<char>, SaveFile, Seq<u8>)>, folders: Seq<Seq<char>>, i: int) -> Option<int>
    decreases folders.len() - i,
{
    if i < 0 || i >= folders.len() {
        None
    } else if !slot_valid(folders[i], find_file(st, folders[i], SaveFile::Data), find_file(st, folders[i], SaveFile::Header)) {
        Some(i)
    } else {
        first_bad_folder(st, folders, i + 1)
    }
}

/// Whether some slot of `slots` is the one read from `folder`'s files.
pub open spec fn has_slot_for(slots: Seq<XboxSlot>, st: Seq<(Seq<char>, SaveFile, Seq<u8>)>, folder: Seq<char>) -> bool {
    exists|j: int| 0 <= j < slots.len() && slot_built(slots[j], folder, find_file(st, folder, SaveFile::Data)->0, find_file(st, folder, SaveFile::Header)->0)
}

/// Whether `s` is the slot read from the files of one of `folders`.
pub open spec fn slot_from_folders(s: XboxSlot, st: Seq<(Seq<char>, SaveFile, Seq<u8>)>, folders: Seq<Seq<char>>) -> bool {
    exists|i: int| 0 <= i < folders.len() && slot_built(s, folders[i], find_file(st, folders[i], SaveFile::Data)->0, find_file(st, folders[i], SaveFile::Header)->0)
}

/// Whether `slots` are exactly the slots read from `folders`, one each.
pub open spec fn slots_for_folders(slots: Seq<XboxSlot>, st: Seq<(Seq<char>, SaveFile, Seq<u8>)>, folders: Seq<Seq<char>>) -> bool {
    &&& slots.len() == folders.len()
    &&& forall|i: int| 0 <= i < folders.len() ==> has_slot_for(slots, st, #[trigger] folders[i])
    &&& forall|j: int| 0 <= j < slots.len() ==> slot_from_folders(#[trigger] slots[j], st, folders)
}

impl ArchiveScan {
    /// Keeps the bytes of a slot file, refusing a second copy of the same
    /// file of the same slot.
    pub fn store_member(&mut self, member: SlotMember, bytes: Vec<u8>) -> (res: Result<(), ConvertError>)
        ensures
            final(self).total() == old(self).total(),
            final(self).seen_names() == old(self).seen_names(),
            final(self).well_formed(),
            has_file(old(self).stored(), member.folder@, member.file) ==> (res matches Err(ConvertError::DuplicateSlotMember { folder: f, leaf: l }) && f@ == member.folder@ && l@ == save_file_name(member.file)) && final(self).stored() == old(self).stored(),
            !has_file(old(self).stored(), member.folder@, member.file) ==> res is Ok && final(self).stored() == old(self).stored().push((member.folder@, member.file, bytes@)),
    {
        proof {
            use_type_invariant(&*self);
        }
        let mut k: usize = 0;
        while k < self.members.len()
            invariant
                self.well_formed(),
                k <= self.members@.len(),
                forall|j: int| 0 <= j < k ==> !(self.stored()[j].0 == member.folder@ && self.stored()[j].1 == member.file),
            decreases self.members@.len() - k,
        {
            if self.members[k].folder == member.folder && self.members[k].file == member.file {
                assert(self.stored()[k as int].0 == member.folder@ && self.stored()[k as int].1 == member.file);
                let leaf = match member.file {
                    SaveFile::Data => {
                        let name = "Save Game Data";
                        proof {
                            reveal_strlit("Save Game Data");
                        }
                        assert(name@ =~= save_file_name(SaveFile::Data));
                        name.to_owned()
                    },
                    SaveFile::Header => {
                        let name = "Save Game Header";
                        proof {
                            reveal_strlit("Save Game Header");
                        }
                        assert(name@ =~= save_file_name(SaveFile::Header));
                        name.to_owned()
                    },
                };
                return Err(ConvertError::DuplicateSlotMember { folder: member.folder, leaf });
            }
            k = k + 1;
        }
        let ghost before = self.stored();
        let ghost entry = (member.folder@, member.file, bytes@);
        let mut members: Vec<StoredMember> = Vec::new();
        std::mem::swap(&mut members, &mut self.members);
        assert(Seq::new(members@.len(), |i: int| (members@[i].folder@, members@[i].file, members@[i].bytes@)) =~= before);
        members.push(StoredMember { folder: member.folder, file: member.file, bytes });
        assert(Seq::new(members@.len(), |i: int| (members@[i].folder@, members@[i].file, members@[i].bytes@)) =~= before.push(entry));
        self.members = members;
        Ok(())
    }
}

proof fn lemma_bad_prefix(st: Seq<(Seq<char>, SaveFile, Seq<u8>)>, folders: Seq<Seq<char>>, i: int)
    requires
        0 <= i <= folders.len(),
        forall|j: int| 0 <= j < i ==> slot_valid(#[trigger] folders[j], find_file(st, folders[j], SaveFile::Data), find_file(st, folders[j], SaveFile::Header)),
    ensures
        first_bad_folder(st, folders, 0) == first_bad_folder(st, folders, i),
    decreases i,
{
    if i > 0 {
        lemma_bad_prefix(st, folders, i - 1);
        assert(slot_valid(folders[i - 1], find_file(st, folders[i - 1], SaveFile::Data), find_file(st, folders[i - 1], SaveFile::Header)));
    }
}

proof fn lemma_sorted_slots_cover(u: Seq<XboxSlot>, out: Seq<XboxSlot>, st: Seq<(Seq<char>, SaveFile, Seq<u8>)>, folders: Seq<Seq<char>>)
    requires
        u.len() == folders.len(),
        forall|i: int| 0 <= i < u.len() ==> slot_built(#[trigger] u[i], folders[i], find_file(st, folders[i], SaveFile::Data)->0, find_file(st, folders[i], SaveFile::Header)->0),
        same_slots(u, out),
    ensures
        slots_for_folders(out, st, folders),
{
    u.to_multiset_ensures();
    out.to_multiset_ensures();
    assert forall|i: int| 0 <= i < folders.len() implies has_slot_for(out, st, #[trigger] folders[i]) by {
        assert(u.contains(u[i]));
        assert(u.to_multiset().count(u[i]) > 0);
        assert(out.to_multiset().count(u[i]) > 0);
        assert(out.contains(u[i]));
        let j = choose|j: int| 0 <= j < out.len() && out[j] == u[i];
        assert(slot_built(out[j], folders[i], find_file(st, folders[i], SaveFile::Data)->0, find_file(st, folders[i], SaveFile::Header)->0));
    }
    assert forall|j: int| 0 <= j < out.len() implies slot_from_folders(#[trigger] out[j], st, folders) by {
        assert(out.contains(out[j]));
        assert(out.to_multiset().count(out[j]) > 0);
        assert(u.to_multiset().count(out[j]) > 0);
        assert(u.contains(out[j]));
        let i = choose|i: int| 0 <= i < u.len() && u[i] == out[j];
        assert(slot_built(u[i], folders[i], find_file(st, folders[i], SaveFile::Data)->0, find_file(st, folders[i], SaveFile::Header)->0));
    }
    assert(out.len() == u.len()) by {
        assert(u.to_multiset().len() == out.to_multiset().len());
    }
}

impl ArchiveScan {
    /// The bytes of the first kept file of this folder and kind.
    fn find_member(&self, folder: &String, file: SaveFile) -> (res: Option<&Vec<u8>>)
        ensures
            match res {
                Some(v) => find_file(self.stored(), folder@, file) == Some(v@),
                None => find_file(self.stored(), folder@, file) is None,
            },
    {
        let ghost st = self.stored();
        let mut k: usize = 0;
        assert(st.skip(0) =~= st);
        while k < self.members.len()
            invariant
                st == self.stored(),
                k <= self.members@.len(),
                find_file(st, folder@, file) == find_file(st.skip(k as int), folder@, file),
            decreases self.members@.len() - k,
        {
            assert(st.skip(k as int)[0] == st[k as int]);
            if self.members[k].folder == *folder && self.members[k].file == file {
                return Some(&self.members[k].bytes);
            }
            assert(st.skip(k as int).drop_first() =~= st.skip(k + 1));
            k = k + 1;
        }
        assert(st.skip(k as int) =~= Seq::<(Seq<char>, SaveFile, Seq<u8>)>::empty());
        None
    }

    /// The distinct slot folders of the kept files, in order of first appearance.
    fn folders(&self) -> (res: Vec<String>)
        ensures
            res@.len() == folder_list(self.stored()).len(),
            forall|i: int| 0 <= i < res@.len() ==> #[trigger] res@[i]@ == folder_list(self.stored())[i],
    {
        let ghost st = self.stored();
        let mut folders: Vec<String> = Vec::new();
        let mut k: usize = 0;
        assert(st.take(0) =~= Seq::<(Seq<char>, SaveFile, Seq<u8>)>::empty());
        while k < self.members.len()
            invariant
                st == self.stored(),
                k <= self.members@.len(),
                folders@.len() == folder_list(st.take(k as int)).len(),
                forall|i: int| 0 <= i < folders@.len() ==> #[trigger] folders@[i]@ == folder_list(st.take(k as int))[i],
            decreases self.members@.len() - k,
        {
            let ghost fl = folder_list(st.take(k as int));
            assert(st.take(k + 1).drop_last() =~= st.take(k as int));
            assert(st.take(k + 1).last() == st[k as int]);
            let mut seen = false;
            let mut q: usize = 0;
            while q < folders.len()
                invariant
                    k < self.members@.len(),
                    q <= folders@.len(),
                    folders@.len() == fl.len(),
                    forall|i: int| 0 <= i < folders@.len() ==> #[trigger] folders@[i]@ == fl[i],
                    seen == (exists|i: int| 0 <= i < q && fl[i] == self.members@[k as int].folder@),
                decreases folders@.len() - q,
            {
                if folders[q] == self.members[k].folder {
                    seen = true;
                }
                q = q + 1;
            }
            assert(seen == fl.contains(st[k as int].0));
            if !seen {
                let name = self.members[k].folder.clone();
                folders.push(name);
            }
            k = k + 1;
        }
        assert(st.take(st.len() as int) =~= st);
        folders
    }

    /// Finishes the scan: checks every slot folder's data and header, reads
    /// each slot, and orders the slots by PC file name.
    pub fn into_slots(self) -> (res: Result<Vec<XboxSlot>, ConvertError>)
        ensures
            ({
                let st = self.stored();
                let fl = folder_list(st);
                &&& fl.len() == 0 ==> res == Err::<Vec<XboxSlot>, ConvertError>(ConvertError::NoSaveAtoms)
                &&& fl.len() > 0 && first_bad_folder(st, fl, 0) is Some ==> (res matches Err(e) && slot_error(
                    fl[first_bad_folder(st, fl, 0)->0],
                    find_file(st, fl[first_bad_folder(st, fl, 0)->0], SaveFile::Data),
                    find_file(st, fl[first_bad_folder(st, fl, 0)->0], SaveFile::Header),
                    e,
                ))
                &&& fl.len() > 0 && first_bad_folder(st, fl, 0) is None && !pc_names_unique(fl) ==> res == Err::<Vec<XboxSlot>, ConvertError>(ConvertError::DuplicatePcName)
                &&& fl.len() > 0 && first_bad_folder(st, fl, 0) is None && pc_names_unique(fl) ==> (res matches Ok(out) && sorted_by_pc_name(out@) && slots_for_folders(out@, st, fl))
            }),
    {
        let ghost st = self.stored();
        let ghost fl = folder_list(st);
        let folders = self.folders();
        if folders.len() == 0 {
            return Err(ConvertError::NoSaveAtoms);
        }
        let mut slots: Vec<XboxSlot> = Vec::new();
        let mut i: usize = 0;
        while i < folders.len()
            invariant
                st == self.stored(),
                fl == folder_list(st),
                folders@.len() == fl.len(),
                forall|j: int| 0 <= j < folders@.len() ==> #[trigger] folders@[j]@ == fl[j],
                i <= folders@.len(),
                slots@.len() == i,
                forall|j: int| 0 <= j < i ==> slot_valid(#[trigger] fl[j], find_file(st, fl[j], SaveFile::Data), find_file(st, fl[j], SaveFile::Header)),
                forall|j: int| 0 <= j < i ==> slot_built(#[trigger] slots@[j], fl[j], find_file(st, fl[j], SaveFile::Data)->0, find_file(st, fl[j], SaveFile::Header)->0),
            decreases folders@.len() - i,
        {
            proof {
                lemma_bad_prefix(st, fl, i as int);
            }
            let folder = &folders[i];
            assert(folder@ == fl[i as int]);
            let data = self.find_member(folder, SaveFile::Data);
            let header = self.find_member(folder, SaveFile::Header);
            let slot = build_slot(folder, data, header)?;
            slots.push(slot);
            i = i + 1;
        }
        proof {
            lemma_bad_prefix(st, fl, fl.len() as int);
            if pc_names_unique(fl) {
                assert forall|a: int, b: int| 0 <= a < b < slots@.len() implies #[trigger] slots@[a].pc_name@ != #[trigger] slots@[b].pc_name@ by {
                    assert(pc_name_spec(fl[a]) != pc_name_spec(fl[b]));
                }
            } else {
                let (a, b) = choose|a: int, b: int| 0 <= a < b < fl.len() && pc_name_spec(#[trigger] fl[a]) == pc_name_spec(#[trigger] fl[b]);
                assert(slot_built(slots@[a], fl[a], find_file(st, fl[a], SaveFile::Data)->0, find_file(st, fl[a], SaveFile::Header)->0));
                assert(slot_built(slots@[b], fl[b], find_file(st, fl[b], SaveFile::Data)->0, find_file(st, fl[b], SaveFile::Header)->0));
                assert(!pc_names_distinct(slots@));
            }
        }
        let ghost unsorted = slots@;
        let sorted = sort_slots(slots);
        match sorted {
            Ok(out) => {
                proof {
                    lemma_sorted_slots_cover(unsorted, out@, st, fl);
                }
                Ok(out)
            },
            Err(e) => Err(e),
        }
    }
}

} // verus!
