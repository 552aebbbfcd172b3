//! Localization string tables: the binary id-to-text files of a localized plugin.
use vstd::prelude::*;
use vstd::utf8::encode_utf8;
use crate::bytes::{u32_at, u32_le, read_u32, write_bytes, write_u32, copy_range};
use crate::error::EspError;
use crate::text::{utf8_text, utf8_lossy, push_str, string_from_chars, chars_of, contains_chars, seq_contains};

verus! {

/// The three kinds of string table.
#[allow(non_camel_case_types)]
#[derive(Debug, Clone, Copy, PartialEq, Eq, Hash, Structural)]
pub enum StringFileType {
    /// Dialog text, length-prefixed.
    DLSTRINGS,
    /// Interface text, length-prefixed.
    ILSTRINGS,
    /// General text, NUL-terminated.
    STRINGS,
}

/// What `str::to_uppercase` makes of a string.
pub uninterp spec fn upper_of(s: Seq<char>) -> Seq<char>;

/// Relies on `str::to_uppercase`: the Unicode upper-case mapping of every character, which on
/// ASCII text maps `a`..`z` to `A`..`Z` and keeps every other character.
#[verifier::external_body]
pub(crate) fn to_upper(s: &str) -> (r: String)
    ensures
        r@ == upper_of(s@),
        crate::text::all_ascii(s@) ==> crate::text::ascii_case_mapped(s@, r@, 'a', 'z', -32),
{
    s.to_uppercase()
}

/// The extension that names a kind.
pub open spec fn extension_of(t: StringFileType) -> Seq<char> {
    match t {
        StringFileType::DLSTRINGS => seq!['D', 'L', 'S', 'T', 'R', 'I', 'N', 'G', 'S'],
        StringFileType::ILSTRINGS => seq!['I', 'L', 'S', 'T', 'R', 'I', 'N', 'G', 'S'],
        StringFileType::STRINGS => seq!['S', 'T', 'R', 'I', 'N', 'G', 'S'],
    }
}

/// The kind whose extension is `upper` (already upper-cased).
pub open spec fn kind_of_extension(upper: Seq<char>) -> Option<StringFileType> {
    if upper == extension_of(StringFileType::DLSTRINGS) {
        Some(StringFileType::DLSTRINGS)
    } else if upper == extension_of(StringFileType::ILSTRINGS) {
        Some(StringFileType::ILSTRINGS)
    } else if upper == extension_of(StringFileType::STRINGS) {
        Some(StringFileType::STRINGS)
    } else {
        None
    }
}

/// Whether entries of a kind carry a 4-byte length prefix.
pub open spec fn prefixed(t: StringFileType) -> bool {
    t != StringFileType::STRINGS
}

impl StringFileType {
    /// The kind named by a file extension, compared after upper-casing.
    pub fn from_extension(extension: &str) -> (r: Option<StringFileType>)
        ensures
            r == kind_of_extension(upper_of(extension@)),
    {
        let u = to_upper(extension);
        let dl = "DLSTRINGS".to_owned();
        let il = "ILSTRINGS".to_owned();
        let st = "STRINGS".to_owned();
        proof {
            reveal_strlit("DLSTRINGS");
            reveal_strlit("ILSTRINGS");
            reveal_strlit("STRINGS");
            assert(dl@ =~= extension_of(StringFileType::DLSTRINGS));
            assert(il@ =~= extension_of(StringFileType::ILSTRINGS));
            assert(st@ =~= extension_of(StringFileType::STRINGS));
        }
        if u == dl {
            Some(StringFileType::DLSTRINGS)
        } else if u == il {
            Some(StringFileType::ILSTRINGS)
        } else if u == st {
            Some(StringFileType::STRINGS)
        } else {
            None
        }
    }

    /// The extension that names this kind.
    pub fn to_extension(&self) -> (r: &'static str)
        ensures
            r@ == extension_of(*self),
    {
        proof {
            reveal_strlit("DLSTRINGS");
            reveal_strlit("ILSTRINGS");
            reveal_strlit("STRINGS");
        }
        match self {
            StringFileType::DLSTRINGS => "DLSTRINGS",
            StringFileType::ILSTRINGS => "ILSTRINGS",
            StringFileType::STRINGS => "STRINGS",
        }
    }

    /// Whether entries of this kind carry a 4-byte length prefix.
    pub fn has_length_prefix(&self) -> (r: bool)
        ensures
            r == prefixed(*self),
    {
        match self {
            StringFileType::STRINGS => false,
            _ => true,
        }
    }
}

/// One entry of a string table.
#[derive(Debug, Clone)]
pub struct StringEntry {
    pub id: u32,
    /// Where its directory slot was in the file it was read from.
    pub directory_address: u64,
    /// Its offset in the data blob it was read from.
    pub relative_offset: u32,
    /// Its offset in the file it was read from.
    pub absolute_offset: u64,
    /// The length prefix it was read with (length-prefixed kinds), or its byte length.
    pub length: Option<u32>,
    /// The text.
    pub content: String,
    /// The bytes it was read from, or the UTF-8 bytes of its text.
    pub raw_data: Vec<u8>,
}

/// An entry as data: id, directory address, relative and absolute offsets, length, text, bytes.
pub type EntryModel = (u32, u64, u32, u64, Option<u32>, Seq<char>, Seq<u8>);

/// The bytes an entry of the given kind occupies in the blob: an optional length prefix, the
/// UTF-8 text and a NUL.
pub open spec fn entry_blob(t: StringFileType, content: Seq<char>) -> Seq<u8> {
    let b = encode_utf8(content);
    if prefixed(t) {
        u32_le(b.len() as u32) + b + seq![0u8]
    } else {
        b + seq![0u8]
    }
}

impl StringEntry {
    pub open spec fn model(&self) -> EntryModel {
        (self.id, self.directory_address, self.relative_offset, self.absolute_offset, self.length,
            self.content@, self.raw_data@)
    }

    /// A fresh entry: its bytes are the UTF-8 text and its length their count.
    pub fn new(id: u32, content: String) -> (r: StringEntry)
        ensures
            r.id == id,
            r.content@ == content@,
            r.raw_data@ == encode_utf8(content@),
            r.length == Some(encode_utf8(content@).len() as u32),
            r.directory_address == 0 && r.relative_offset == 0 && r.absolute_offset == 0,
    {
        let bytes = content.as_str().as_bytes();
        let raw_data = copy_range(bytes, 0, bytes.len());
        assert(raw_data@ =~= encode_utf8(content@));
        let length = Some(raw_data.len() as u32);
        StringEntry {
            id,
            directory_address: 0,
            relative_offset: 0,
            absolute_offset: 0,
            length,
            content,
            raw_data,
        }
    }

    /// The size the entry takes in a table of the given kind, from its current text.
    pub fn get_total_size(&self, file_type: &StringFileType) -> (r: u32)
        requires
            encode_utf8(self.content@).len() + 5 <= u32::MAX,
        ensures
            r == entry_blob(*file_type, self.content@).len(),
    {
        let n = self.content.as_str().len() as u32;
        if file_type.has_length_prefix() {
            4 + n + 1
        } else {
            n + 1
        }
    }
}

/// Ids strictly ascending.
pub open spec fn ids_ascending(s: Seq<StringEntry>) -> bool {
    forall|i: int, j: int| 0 <= i < j < s.len() ==> (#[trigger] s[i]).id < (#[trigger] s[j]).id
}

/// `e` put in place in an id-ordered sequence: replacing the entry with its id, or inserted
/// before the first larger id.
pub open spec fn sorted_insert(s: Seq<EntryModel>, e: EntryModel) -> Seq<EntryModel>
    decreases s.len(),
{
    if s.len() == 0 {
        seq![e]
    } else if e.0 < s[0].0 {
        seq![e] + s
    } else if e.0 == s[0].0 {
        seq![e] + s.drop_first()
    } else {
        seq![s[0]] + sorted_insert(s.drop_first(), e)
    }
}

pub open spec fn entry_models(s: Seq<StringEntry>) -> Seq<EntryModel> {
    s.map_values(|e: StringEntry| e.model())
}

proof fn lemma_sorted_insert_at(s: Seq<StringEntry>, e: StringEntry, pos: int)
    requires
        ids_ascending(s),
        0 <= pos <= s.len(),
        forall|k: int| 0 <= k < pos ==> (#[trigger] s[k]).id < e.id,
        pos < s.len() ==> s[pos].id >= e.id,
    ensures
        pos < s.len() && s[pos].id == e.id ==> sorted_insert(entry_models(s), e.model())
            == entry_models(s.update(pos, e)),
        !(pos < s.len() && s[pos].id == e.id) ==> sorted_insert(entry_models(s), e.model())
            == entry_models(s.insert(pos, e)),
    decreases s.len(),
{
    let m = entry_models(s);
    if s.len() == 0 {
        assert(entry_models(s.insert(pos, e)) =~= seq![e.model()]);
    } else if pos == 0 {
        if s[0].id == e.id {
            assert(entry_models(s.update(0, e)) =~= seq![e.model()] + m.drop_first());
        } else {
            assert(entry_models(s.insert(0, e)) =~= seq![e.model()] + m);
        }
    } else {
        let t = s.drop_first();
        assert(ids_ascending(t));
        lemma_sorted_insert_at(t, e, pos - 1);
        assert(entry_models(t) =~= m.drop_first());
        if pos < s.len() && s[pos].id == e.id {
            assert(entry_models(s.update(pos, e)) =~= seq![m[0]] + entry_models(t.update(pos - 1, e)));
        } else {
            assert(entry_models(s.insert(pos, e)) =~= seq![m[0]] + entry_models(t.insert(pos - 1, e)));
        }
    }
}

/// Puts `e` in place in an id-ordered vector (see `sorted_insert`).
fn insert_sorted(v: &mut Vec<StringEntry>, e: StringEntry)
    requires
        ids_ascending(old(v)@),
    ensures
        ids_ascending(final(v)@),
        entry_models(final(v)@) == sorted_insert(entry_models(old(v)@), e.model()),
{
    let mut pos: usize = 0;
    while pos < v.len() && v[pos].id < e.id
        invariant
            pos <= v@.len(),
            forall|k: int| 0 <= k < pos ==> (#[trigger] v@[k]).id < e.id,
        decreases v@.len() - pos,
    {
        pos = pos + 1;
    }
    proof {
        lemma_sorted_insert_at(v@, e, pos as int);
    }
    if pos < v.len() && v[pos].id == e.id {
        v.set(pos, e);
    } else {
        v.insert(pos, e);
    }
}

/// The first index in `[a, b)` holding a zero byte, or `b` if there is none.
pub open spec fn first_zero(d: Seq<u8>, a: int, b: int) -> int
    decreases b - a,
{
    if a >= b {
        b
    } else if d[a] == 0 {
        a
    } else {
        first_zero(d, a + 1, b)
    }
}

/// The text, bytes and length read for an entry at `off`: a length-prefixed kind takes the
/// prefixed bytes (text cut at a NUL inside them); the general kind reads up to a NUL.
pub open spec fn string_at(d: Seq<u8>, t: StringFileType, off: int) -> Option<(Seq<char>, Seq<u8>, Option<u32>)> {
    if prefixed(t) {
        if off + 4 > d.len() {
            None
        } else {
            let n = u32_at(d, off) as int;
            if off + 4 + n > d.len() {
                None
            } else {
                let z = first_zero(d, off + 4, off + 4 + n);
                Some((utf8_text(d.subrange(off + 4, z)), d.subrange(off, off + 4 + n), Some(n as u32)))
            }
        }
    } else {
        let z = first_zero(d, off, d.len() as int);
        if z >= d.len() {
            None
        } else {
            Some((utf8_text(d.subrange(off, z)), d.subrange(off, z + 1), None))
        }
    }
}

/// Directory slot `i` read: `None` if the file is cut short, `Some(None)` if its offset lies
/// past the end (the slot is skipped), else the entry.
pub open spec fn slot_at(d: Seq<u8>, t: StringFileType, count: int, i: int) -> Option<Option<EntryModel>> {
    let dir = 8 + 8 * i;
    if dir + 8 > d.len() {
        None
    } else {
        let id = u32_at(d, dir);
        let rel = u32_at(d, dir + 4);
        let abs = 8 + 8 * count + rel;
        if abs >= d.len() {
            Some(None)
        } else {
            match string_at(d, t, abs) {
                None => None,
                Some((content, raw, length)) => Some(Some((id, dir as u64, rel, abs as u64, length, content, raw))),
            }
        }
    }
}

/// The entries read from the first `n` slots, in id order, with the number of skipped slots.
pub open spec fn slots_read(d: Seq<u8>, t: StringFileType, count: int, n: int) -> Option<(Seq<EntryModel>, nat)>
    decreases n,
{
    if n <= 0 {
        Some((Seq::empty(), 0))
    } else {
        match slots_read(d, t, count, n - 1) {
            None => None,
            Some((s, k)) => match slot_at(d, t, count, n - 1) {
                None => None,
                Some(None) => Some((s, k + 1)),
                Some(Some(e)) => Some((sorted_insert(s, e), k)),
            },
        }
    }
}

/// A whole table read: an 8-byte header (entry count, data size), the directory, the blob.
pub open spec fn table_read(d: Seq<u8>, t: StringFileType) -> Option<(Seq<EntryModel>, nat)> {
    if d.len() < 8 {
        None
    } else {
        slots_read(d, t, u32_at(d, 0) as int, u32_at(d, 0) as int)
    }
}

proof fn lemma_slots_none_extends(d: Seq<u8>, t: StringFileType, count: int, n: int, m: int)
    requires
        0 <= n <= m,
        slots_read(d, t, count, n) is None,
    ensures
        slots_read(d, t, count, m) is None,
    decreases m - n,
{
    if n < m {
        lemma_slots_none_extends(d, t, count, n, m - 1);
    }
}

fn find_zero(d: &[u8], a: usize, b: usize) -> (r: usize)
    requires
        a <= b <= d@.len(),
    ensures
        r == first_zero(d@, a as int, b as int),
        a <= r <= b,
{
    let mut i: usize = a;
    while i < b && d[i] != 0
        invariant
            a <= i <= b,
            b <= d@.len(),
            first_zero(d@, a as int, b as int) == first_zero(d@, i as int, b as int),
        decreases b - i,
    {
        i = i + 1;
    }
    i
}

fn read_string_data(d: &[u8], t: StringFileType, off: usize) -> (r: Option<(String, Vec<u8>, Option<u32>)>)
    requires
        off < d@.len(),
    ensures
        match r {
            Some((c, raw, len)) => string_at(d@, t, off as int) == Some((c@, raw@, len)),
            None => string_at(d@, t, off as int) is None,
        },
{
    if t.has_length_prefix() {
        let n = match read_u32(d, off) {
            Some(n) => n,
            None => return None,
        };
        if d.len() - off - 4 < n as usize {
            return None;
        }
        let end = off + 4 + n as usize;
        let z = find_zero(d, off + 4, end);
        let text = utf8_lossy(vstd::slice::slice_subrange(d, off + 4, z));
        let raw = copy_range(d, off, end);
        Some((text, raw, Some(n)))
    } else {
        let z = find_zero(d, off, d.len());
        if z >= d.len() {
            return None;
        }
        let text = utf8_lossy(vstd::slice::slice_subrange(d, off, z));
        let raw = copy_range(d, off, z + 1);
        Some((text, raw, None))
    }
}

/// Reads a table; slots whose offset lies past the end are skipped and counted.
pub fn parse_table(data: &[u8], file_type: StringFileType) -> (r: Result<(Vec<StringEntry>, usize), EspError>)
    ensures
        match r {
            Ok((v, k)) => ids_ascending(v@) && table_read(data@, file_type) == Some((entry_models(v@), k as nat)),
            Err(_) => table_read(data@, file_type) is None,
        },
{
    if data.len() < 8 {
        return Err(EspError::InvalidFormat);
    }
    let count = read_u32(data, 0).unwrap();
    let dlen: usize = data.len();
    let len = dlen as u64;
    let mut entries: Vec<StringEntry> = Vec::new();
    let mut skipped: usize = 0;
    let mut i: u32 = 0;
    assert(entry_models(entries@) =~= Seq::<EntryModel>::empty());
    while i < count
        invariant
            i <= count,
            count == u32_at(data@, 0),
            len == data@.len(),
            dlen == data@.len(),
            skipped <= i,
            ids_ascending(entries@),
            slots_read(data@, file_type, count as int, i as int) == Some((entry_models(entries@), skipped as nat)),
        decreases count - i,
    {
        let dir: u64 = 8 + 8 * (i as u64);
        proof {
            let _ = slots_read(data@, file_type, count as int, i + 1);
        }
        if dir + 8 > len {
            proof {
                assert(slot_at(data@, file_type, count as int, i as int) is None);
                assert(slots_read(data@, file_type, count as int, i + 1) is None);
                lemma_slots_none_extends(data@, file_type, count as int, i + 1, count as int);
            }
            return Err(EspError::Truncated { offset: dir as usize, needed: 8 });
        }
        let id = read_u32(data, dir as usize).unwrap();
        let rel = read_u32(data, (dir + 4) as usize).unwrap();
        let abs: u64 = 8 + 8 * (count as u64) + rel as u64;
        assert(dir as int == 8 + 8 * (i as int));
        assert((dir as usize) as int == dir as int);
        assert(((dir + 4) as usize) as int == dir as int + 4);
        assert(id == u32_at(data@, 8 + 8 * i));
        assert(rel == u32_at(data@, 8 + 8 * i + 4));
        if abs >= len {
            assert(slot_at(data@, file_type, count as int, i as int) == Some(None::<EntryModel>));
            skipped = skipped + 1;
        } else {
            assert((abs as usize) as int == abs as int);
            match read_string_data(data, file_type, abs as usize) {
                Some((content, raw_data, length)) => {
                    let e = StringEntry {
                        id,
                        directory_address: dir,
                        relative_offset: rel,
                        absolute_offset: abs,
                        length,
                        content,
                        raw_data,
                    };
                    insert_sorted(&mut entries, e);
                },
                None => {
                    proof {
                        assert(slot_at(data@, file_type, count as int, i as int) is None);
                        assert(slots_read(data@, file_type, count as int, i + 1) is None);
                        lemma_slots_none_extends(data@, file_type, count as int, i + 1, count as int);
                    }
                    return Err(EspError::Truncated { offset: abs as usize, needed: 1 });
                },
            }
        }
        i = i + 1;
    }
    Ok((entries, skipped))
}

/// The blob of a table: each entry's bytes in order.
pub open spec fn blob_of(t: StringFileType, s: Seq<StringEntry>) -> Seq<u8>
    decreases s.len(),
{
    if s.len() == 0 {
        Seq::empty()
    } else {
        blob_of(t, s.drop_last()) + entry_blob(t, s.last().content@)
    }
}

/// The offset of entry `i` in the blob: the size of the entries before it.
pub open spec fn offset_of(t: StringFileType, s: Seq<StringEntry>, i: int) -> int {
    blob_of(t, s.subrange(0, i)).len() as int
}

/// The first `n` directory slots: each entry's id and blob offset.
pub open spec fn directory_of(t: StringFileType, s: Seq<StringEntry>, n: int) -> Seq<u8>
    decreases n,
{
    if n <= 0 {
        Seq::empty()
    } else {
        directory_of(t, s, n - 1) + u32_le(s[n - 1].id) + u32_le(offset_of(t, s, n - 1) as u32)
    }
}

/// A table as written: entry count and blob size, the directory, then the blob.
pub open spec fn table_bytes(t: StringFileType, s: Seq<StringEntry>) -> Seq<u8> {
    u32_le(s.len() as u32) + u32_le(blob_of(t, s).len() as u32) + directory_of(t, s, s.len() as int)
        + blob_of(t, s)
}

/// Whether a table's counts and offsets fit their 32-bit fields.
pub open spec fn table_fits(t: StringFileType, s: Seq<StringEntry>) -> bool {
    s.len() <= u32::MAX && blob_of(t, s).len() <= u32::MAX
}

proof fn lemma_blob_prefix_grows(t: StringFileType, s: Seq<StringEntry>, i: int, j: int)
    requires
        0 <= i <= j <= s.len(),
    ensures
        blob_of(t, s.subrange(0, i)).len() <= blob_of(t, s.subrange(0, j)).len(),
    decreases j - i,
{
    if i < j {
        lemma_blob_prefix_grows(t, s, i, j - 1);
        assert(s.subrange(0, j).drop_last() =~= s.subrange(0, j - 1));
    }
}

/// The position of the entry with this id.
pub open spec fn position_of(s: Seq<EntryModel>, id: u32) -> Option<int> {
    if exists|i: int| 0 <= i < s.len() && (#[trigger] s[i]).0 == id {
        Some(choose|i: int| 0 <= i < s.len() && (#[trigger] s[i]).0 == id)
    } else {
        None
    }
}

fn find_id(v: &Vec<StringEntry>, id: u32) -> (r: Option<usize>)
    requires
        ids_ascending(v@),
    ensures
        match r {
            Some(i) => position_of(entry_models(v@), id) == Some(i as int) && i < v@.len(),
            None => position_of(entry_models(v@), id) is None,
        },
{
    let mut i: usize = 0;
    while i < v.len()
        invariant
            i <= v@.len(),
            ids_ascending(v@),
            forall|k: int| 0 <= k < i ==> (#[trigger] v@[k]).id != id,
        decreases v@.len() - i,
    {
        if v[i].id == id {
            proof {
                let m = entry_models(v@);
                assert(m[i as int].0 == id);
                let k = choose|k: int| 0 <= k < m.len() && (#[trigger] m[k]).0 == id;
                assert(m[k].0 == v@[k].id);
                if k != i as int {
                    if k < i {
                    } else {
                        assert(v@[i as int].id < v@[k].id);
                    }
                }
            }
            return Some(i);
        }
        i = i + 1;
    }
    proof {
        let m = entry_models(v@);
        assert forall|k: int| 0 <= k < m.len() implies (#[trigger] m[k]).0 != id by {
            assert(m[k].0 == v@[k].id);
        }
    }
    None
}

/// A string table of one kind for one plugin and language.
#[derive(Debug, Clone)]
pub struct StringFile {
    /// Where the table came from.
    pub path: String,
    pub file_type: StringFileType,
    pub language: String,
    pub plugin_name: String,
    /// The entries, in ascending id order.
    pub entries: Vec<StringEntry>,
    /// How many directory slots were skipped when it was read.
    pub skipped: usize,
}

impl StringFile {
    /// The entries are in strictly ascending id order.
    pub open spec fn wf(&self) -> bool {
        ids_ascending(self.entries@)
    }

    /// A table holding the given entries, each put in place by id (a later one replaces an
    /// earlier one with the same id).
    pub fn with_entries(plugin_name: String, language: String, file_type: StringFileType, entries: Vec<StringEntry>) -> (r: StringFile)
        ensures
            r.wf(),
            r.plugin_name@ == plugin_name@ && r.language@ == language@ && r.file_type == file_type,
            r.skipped == 0,
            entry_models(r.entries@) == entries@.fold_left(Seq::<EntryModel>::empty(), |acc: Seq<EntryModel>, e: StringEntry| sorted_insert(acc, e.model())),
    {
        let mut v: Vec<StringEntry> = Vec::new();
        let mut rest = entries;
        let ghost all = rest@;
        let mut i: usize = 0;
        let n = rest.len();
        assert(entry_models(v@) =~= Seq::<EntryModel>::empty());
        while i < n
            invariant
                n == all.len(),
                i <= n,
                rest@ == all.subrange(i as int, n as int),
                ids_ascending(v@),
                entry_models(v@) == all.subrange(0, i as int).fold_left(Seq::<EntryModel>::empty(), |acc: Seq<EntryModel>, e: StringEntry| sorted_insert(acc, e.model())),
            decreases n - i,
        {
            let e = rest.remove(0);
            assert(rest@ =~= all.subrange(i + 1, n as int));
            proof {
                assert(all.subrange(0, i + 1).drop_last() =~= all.subrange(0, i as int));
            }
            insert_sorted(&mut v, e);
            i = i + 1;
        }
        assert(all.subrange(0, n as int) =~= all);
        let mut path_chars: Vec<char> = Vec::new();
        push_str(&mut path_chars, plugin_name.as_str());
        push_str(&mut path_chars, "_");
        push_str(&mut path_chars, language.as_str());
        push_str(&mut path_chars, ".");
        push_str(&mut path_chars, file_type.to_extension());
        let path = string_from_chars(path_chars.as_slice());
        StringFile { path, file_type, language, plugin_name, entries: v, skipped: 0 }
    }

    /// Reads a table of the given kind from bytes.
    pub fn from_bytes(data: &[u8], plugin_name: String, language: String, file_type: StringFileType) -> (r: Result<StringFile, EspError>)
        ensures
            match r {
                Ok(f) => f.wf() && table_read(data@, file_type) == Some((entry_models(f.entries@), f.skipped as nat))
                    && f.plugin_name@ == plugin_name@ && f.language@ == language@ && f.file_type == file_type,
                Err(_) => table_read(data@, file_type) is None,
            },
    {
        let (entries, skipped) = match parse_table(data, file_type) {
            Ok(x) => x,
            Err(e) => return Err(e),
        };
        let mut path_chars: Vec<char> = Vec::new();
        push_str(&mut path_chars, "<memory>:");
        push_str(&mut path_chars, plugin_name.as_str());
        push_str(&mut path_chars, "_");
        push_str(&mut path_chars, language.as_str());
        push_str(&mut path_chars, ".");
        push_str(&mut path_chars, file_type.to_extension());
        let path = string_from_chars(path_chars.as_slice());
        Ok(StringFile { path, file_type, language, plugin_name, entries, skipped })
    }

    /// The entry with this id.
    pub fn get_string(&self, id: u32) -> (r: Option<&StringEntry>)
        requires
            self.wf(),
        ensures
            match position_of(entry_models(self.entries@), id) {
                Some(i) => r == Some(&self.entries@[i]),
                None => r is None,
            },
    {
        match find_id(&self.entries, id) {
            Some(i) => Some(&self.entries[i]),
            None => None,
        }
    }

    /// All ids, ascending.
    pub fn get_string_ids(&self) -> (r: Vec<u32>)
        ensures
            r@ == self.entries@.map_values(|e: StringEntry| e.id),
    {
        let mut r: Vec<u32> = Vec::new();
        let mut i: usize = 0;
        while i < self.entries.len()
            invariant
                i <= self.entries@.len(),
                r@ == self.entries@.subrange(0, i as int).map_values(|e: StringEntry| e.id),
            decreases self.entries@.len() - i,
        {
            r.push(self.entries[i].id);
            i = i + 1;
            assert(r@ =~= self.entries@.subrange(0, i as int).map_values(|e: StringEntry| e.id));
        }
        assert(self.entries@.subrange(0, i as int) =~= self.entries@);
        r
    }

    pub fn count(&self) -> (r: usize)
        ensures
            r == self.entries@.len(),
    {
        self.entries.len()
    }

    pub fn is_empty(&self) -> (r: bool)
        ensures
            r == (self.entries@.len() == 0),
    {
        self.entries.len() == 0
    }

    /// The entries whose text contains `text`, in id order.
    pub fn find_strings_containing(&self, text: &str) -> (r: Vec<&StringEntry>)
        ensures
            r@.map_values(|e: &StringEntry| *e) == self.entries@.filter(|e: StringEntry| seq_contains(e.content@, text@)),
    {
        let p = chars_of(text);
        let mut r: Vec<&StringEntry> = Vec::new();
        let mut i: usize = 0;
        while i < self.entries.len()
            invariant
                i <= self.entries@.len(),
                p@ == text@,
                r@.map_values(|e: &StringEntry| *e) == self.entries@.subrange(0, i as int).filter(|e: StringEntry| seq_contains(e.content@, text@)),
            decreases self.entries@.len() - i,
        {
            proof {
                let f = |e: StringEntry| seq_contains(e.content@, text@);
                assert(self.entries@.subrange(0, i + 1).drop_last() =~= self.entries@.subrange(0, i as int));
                assert(self.entries@.subrange(0, i + 1).filter(f) == if f(self.entries@[i as int]) {
                    self.entries@.subrange(0, i as int).filter(f).push(self.entries@[i as int])
                } else {
                    self.entries@.subrange(0, i as int).filter(f)
                }) by {
                    reveal(Seq::filter);
                };
            }
            let c = chars_of(self.entries[i].content.as_str());
            let ghost prev = r@;
            if contains_chars(c.as_slice(), p.as_slice()) {
                r.push(&self.entries[i]);
                assert(r@.map_values(|e: &StringEntry| *e) =~= prev.map_values(|e: &StringEntry| *e).push(self.entries@[i as int]));
            }
            i = i + 1;
        }
        assert(self.entries@.subrange(0, i as int) =~= self.entries@);
        r
    }

    /// Replaces the text of the entry with this id, and its bytes and length with those of the
    /// new text; fails if there is no such entry.
    pub fn update_string(&mut self, id: u32, new_content: String) -> (r: Result<(), EspError>)
        requires
            old(self).wf(),
        ensures
            final(self).wf(),
            final(self).file_type == old(self).file_type,
            final(self).plugin_name == old(self).plugin_name,
            final(self).language == old(self).language,
            match position_of(entry_models(old(self).entries@), id) {
                Some(i) => r is Ok && entry_models(final(self).entries@) == entry_models(old(self).entries@).update(
                    i,
                    entry_updated(entry_models(old(self).entries@)[i], new_content@),
                ),
                None => r is Err && *final(self) == *old(self),
            },
            final(self).path == old(self).path && final(self).skipped == old(self).skipped,
    {
        match find_id(&self.entries, id) {
            Some(i) => {
                let bytes = new_content.as_str().as_bytes();
                let raw_data = copy_range(bytes, 0, bytes.len());
                assert(raw_data@ =~= encode_utf8(new_content@));
                let e = StringEntry {
                    id: self.entries[i].id,
                    directory_address: self.entries[i].directory_address,
                    relative_offset: self.entries[i].relative_offset,
                    absolute_offset: self.entries[i].absolute_offset,
                    length: Some(raw_data.len() as u32),
                    content: new_content,
                    raw_data,
                };
                let ghost before = self.entries@;
                self.entries.set(i, e);
                proof {
                    assert(entry_models(self.entries@) =~= entry_models(before).update(
                        i as int,
                        entry_updated(entry_models(before)[i as int], e.content@),
                    ));
                    assert forall|a: int, b: int| 0 <= a < b < self.entries@.len() implies (#[trigger] self.entries@[a]).id < (#[trigger] self.entries@[b]).id by {
                        assert(before[a].id < before[b].id);
                    }
                }
                Ok(())
            },
            None => Err(EspError::NotFound),
        }
    }

    /// Applies the updates in order; stops at the first id that has no entry.
    pub fn update_strings(&mut self, updates: Vec<(u32, String)>) -> (r: Result<(), EspError>)
        requires
            old(self).wf(),
        ensures
            final(self).wf(),
            final(self).file_type == old(self).file_type,
            final(self).plugin_name == old(self).plugin_name && final(self).language == old(self).language,
            final(self).path == old(self).path && final(self).skipped == old(self).skipped,
            r is Ok <==> updates_applied(entry_models(old(self).entries@), update_models(updates@)) is Some,
            r is Ok ==> Some(entry_models(final(self).entries@)) == updates_applied(entry_models(old(self).entries@), update_models(updates@)),
    {
        let mut i: usize = 0;
        let ghost start = entry_models(self.entries@);
        while i < updates.len()
            invariant
                i <= updates@.len(),
                self.wf(),
                self.file_type == old(self).file_type,
                self.plugin_name == old(self).plugin_name && self.language == old(self).language,
                self.path == old(self).path && self.skipped == old(self).skipped,
                start == entry_models(old(self).entries@),
                updates_applied(start, update_models(updates@.subrange(0, i as int))) == Some(entry_models(self.entries@)),
            decreases updates@.len() - i,
        {
            let id = updates[i].0;
            let text = updates[i].1.clone();
            proof {
                assert(update_models(updates@.subrange(0, i + 1)).drop_last() =~= update_models(updates@.subrange(0, i as int)));
            }
            match self.update_string(id, text) {
                Ok(()) => {},
                Err(e) => {
                    proof {
                        assert(updates_applied(start, update_models(updates@.subrange(0, i + 1))) is None);
                        assert(update_models(updates@).subrange(0, i + 1) =~= update_models(updates@.subrange(0, i + 1)));
                        lemma_updates_none_extends(start, update_models(updates@), i + 1);
                        assert(updates@.subrange(0, updates@.len() as int) =~= updates@);
                    }
                    return Err(e);
                },
            }
            i = i + 1;
        }
        assert(updates@.subrange(0, i as int) =~= updates@);
        Ok(())
    }

    /// Adds an entry; fails if the id is taken.
    pub fn add_string(&mut self, id: u32, content: String) -> (r: Result<(), EspError>)
        requires
            old(self).wf(),
        ensures
            final(self).wf(),
            final(self).file_type == old(self).file_type,
            match position_of(entry_models(old(self).entries@), id) {
                Some(_) => r is Err && *final(self) == *old(self),
                None => r is Ok && entry_models(final(self).entries@) == sorted_insert(
                    entry_models(old(self).entries@),
                    (id, 0u64, 0u32, 0u64, Some(encode_utf8(content@).len() as u32), content@, encode_utf8(content@)),
                ),
            },
            final(self).plugin_name == old(self).plugin_name && final(self).language == old(self).language,
            final(self).path == old(self).path && final(self).skipped == old(self).skipped,
    {
        match find_id(&self.entries, id) {
            Some(_) => Err(EspError::DuplicateId),
            None => {
                let e = StringEntry::new(id, content);
                insert_sorted(&mut self.entries, e);
                Ok(())
            },
        }
    }

    /// Removes and returns the entry with this id.
    pub fn remove_string(&mut self, id: u32) -> (r: Option<StringEntry>)
        requires
            old(self).wf(),
        ensures
            final(self).wf(),
            final(self).file_type == old(self).file_type,
            match position_of(entry_models(old(self).entries@), id) {
                Some(i) => r == Some(old(self).entries@[i]) && final(self).entries@ == old(self).entries@.remove(i),
                None => r is None && *final(self) == *old(self),
            },
            final(self).plugin_name == old(self).plugin_name && final(self).language == old(self).language,
            final(self).path == old(self).path && final(self).skipped == old(self).skipped,
    {
        match find_id(&self.entries, id) {
            Some(i) => {
                let ghost before = self.entries@;
                let e = self.entries.remove(i);
                proof {
                    assert forall|a: int, b: int| 0 <= a < b < self.entries@.len() implies (#[trigger] self.entries@[a]).id < (#[trigger] self.entries@[b]).id by {
                        if a < i && b < i {
                            assert(before[a].id < before[b].id);
                        } else if a < i {
                            assert(before[a].id < before[b + 1].id);
                        } else {
                            assert(before[a + 1].id < before[b + 1].id);
                        }
                    }
                }
                Some(e)
            },
            None => None,
        }
    }

    /// The table as written (see `table_bytes`): entries in id order, each sized from its
    /// current text, offsets accumulated; fails if a count or offset does not fit 32 bits.
    pub fn rebuild(&self) -> (r: Result<Vec<u8>, EspError>)
        ensures
            match r {
                Ok(b) => table_fits(self.file_type, self.entries@) && b@ == table_bytes(self.file_type, self.entries@),
                Err(_) => !table_fits(self.file_type, self.entries@),
            },
    {
        let t = self.file_type;
        let n = self.entries.len();
        let mut blob: Vec<u8> = Vec::new();
        let mut dir: Vec<u8> = Vec::new();
        let mut i: usize = 0;
        while i < n
            invariant
                n == self.entries@.len(),
                t == self.file_type,
                i <= n,
                blob@ == blob_of(t, self.entries@.subrange(0, i as int)),
                dir@ == directory_of(t, self.entries@, i as int),
                blob@.len() <= u32::MAX,
            decreases n - i,
        {
            let e = &self.entries[i];
            let offset = blob.len() as u32;
            let ghost before = blob@;
            let bytes = e.content.as_str().as_bytes();
            if t.has_length_prefix() {
                write_u32(&mut blob, bytes.len() as u32);
            }
            write_bytes(&mut blob, bytes);
            blob.push(0u8);
            proof {
                assert(self.entries@.subrange(0, i + 1).drop_last() =~= self.entries@.subrange(0, i as int));
                assert(blob@ =~= blob_of(t, self.entries@.subrange(0, i + 1)));
            }
            write_u32(&mut dir, e.id);
            write_u32(&mut dir, offset);
            assert(dir@ =~= directory_of(t, self.entries@, i + 1));
            i = i + 1;
            if blob.len() > 0xffff_ffffusize {
                proof {
                    lemma_blob_prefix_grows(t, self.entries@, i as int, n as int);
                    assert(self.entries@.subrange(0, n as int) =~= self.entries@);
                }
                return Err(EspError::SizeOverflow);
            }
        }
        assert(self.entries@.subrange(0, n as int) =~= self.entries@);
        if n > 0xffff_ffffusize {
            return Err(EspError::SizeOverflow);
        }
        let mut out: Vec<u8> = Vec::new();
        write_u32(&mut out, n as u32);
        write_u32(&mut out, blob.len() as u32);
        write_bytes(&mut out, dir.as_slice());
        write_bytes(&mut out, blob.as_slice());
        assert(out@ =~= table_bytes(t, self.entries@));
        Ok(out)
    }
}

/// An entry with new text, and the bytes and length of that text.
pub open spec fn entry_updated(e: EntryModel, c: Seq<char>) -> EntryModel {
    (e.0, e.1, e.2, e.3, Some(encode_utf8(c).len() as u32), c, encode_utf8(c))
}

pub open spec fn update_models(u: Seq<(u32, String)>) -> Seq<(u32, Seq<char>)> {
    u.map_values(|x: (u32, String)| (x.0, x.1@))
}

/// The entries after applying the updates in order; `None` once an id has no entry.
pub open spec fn updates_applied(s: Seq<EntryModel>, u: Seq<(u32, Seq<char>)>) -> Option<Seq<EntryModel>>
    decreases u.len(),
{
    if u.len() == 0 {
        Some(s)
    } else {
        match updates_applied(s, u.drop_last()) {
            None => None,
            Some(t) => match position_of(t, u.last().0) {
                Some(i) => Some(t.update(i, entry_updated(t[i], u.last().1))),
                None => None,
            },
        }
    }
}

proof fn lemma_updates_none_extends(s: Seq<EntryModel>, u: Seq<(u32, Seq<char>)>, n: int)
    requires
        0 <= n <= u.len(),
        updates_applied(s, u.subrange(0, n)) is None,
    ensures
        updates_applied(s, u) is None,
    decreases u.len() - n,
{
    if n < u.len() {
        assert(u.subrange(0, n + 1).drop_last() =~= u.subrange(0, n));
        lemma_updates_none_extends(s, u, n + 1);
    } else {
        assert(u.subrange(0, n) =~= u);
    }
}

} // verus!
