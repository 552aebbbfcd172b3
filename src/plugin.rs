//! The plugin container: header, masters, top-level groups, and the operations over all of them.
use vstd::prelude::*;
use crate::bytes::{u32_at, read_u32};
use crate::record::stored_payload;
use crate::error::EspError;
use crate::group::{Group, group_ok, grup, group_header_parsed, group_parsed, group_bytes, lemma_group_round_trip, MAX_GROUP_SIZE};
use crate::record::{record_bytes, lemma_record_round_trip};
use crate::record::{Record, record_parsed, record_parse_ok, record_end, LOCALIZED_FLAG};
use crate::raw_string::{RawString, decode_from, nul_position};
use crate::router::DefaultStringRouter;
use crate::string_file::StringFileType;
use crate::string_set::StringFileSet;
use crate::subrecord::Subrecord;

verus! {

/// The plugin header type of current game generations.
pub open spec fn tes4() -> Seq<u8> {
    seq![0x54u8, 0x45u8, 0x53u8, 0x34u8]
}

/// The plugin header type of the older generation.
pub open spec fn tes3() -> Seq<u8> {
    seq![0x54u8, 0x45u8, 0x53u8, 0x33u8]
}

/// The `MAST` subrecord type.
pub open spec fn mast() -> Seq<u8> {
    seq![0x4du8, 0x41u8, 0x53u8, 0x54u8]
}

/// The top-level group ranges from `p` on: each starts with the magic and a size in bounds;
/// scanning stops where fewer than 8 bytes remain.
pub open spec fn boundaries_from(d: Seq<u8>, p: int) -> Option<Seq<(int, int)>>
    decreases (if p <= d.len() { d.len() - p } else { 0 }),
{
    if p < 0 || p + 8 > d.len() {
        Some(Seq::empty())
    } else if d.subrange(p, p + 4) != grup() {
        None
    } else {
        let size = u32_at(d, p + 4) as int;
        if size < 24 || size > MAX_GROUP_SIZE {
            None
        } else {
            match boundaries_from(d, p + size) {
                Some(rest) => Some(seq![(p, size)] + rest),
                None => None,
            }
        }
    }
}

/// The master file names of a header: the text of each `MAST` subrecord, in order.
pub open spec fn masters_of(s: Seq<Subrecord>) -> Seq<Seq<char>>
    decreases s.len(),
{
    if s.len() == 0 {
        Seq::empty()
    } else {
        masters_of(s.drop_last()) + if s.last().record_type_bytes@ == mast() {
            seq![decode_from(s.last().data@.subrange(0, nul_position(s.last().data@)), 0).0]
        } else {
            Seq::empty()
        }
    }
}

/// The string-table kind that holds a localized field: dialogue info goes to the interface
/// table, descriptions and `CNAM` text to the dialog table, everything else to the general one.
pub open spec fn kind_for(record_type: Seq<char>, subrecord_type: Seq<char>) -> StringFileType {
    if record_type == seq!['I', 'N', 'F', 'O'] {
        StringFileType::ILSTRINGS
    } else if subrecord_type == seq!['D', 'E', 'S', 'C'] || subrecord_type == seq!['C', 'N', 'A', 'M'] {
        StringFileType::DLSTRINGS
    } else {
        StringFileType::STRINGS
    }
}

/// A loaded plugin.
#[derive(Debug)]
pub struct Plugin {
    /// The plugin's file name.
    pub path: String,
    pub header: Record,
    pub groups: Vec<Group>,
    /// Master file names; a FormID's top byte indexes this list.
    pub masters: Vec<String>,
    pub string_router: DefaultStringRouter,
    /// The string tables of a localized plugin, once loaded.
    pub string_files: Option<StringFileSet>,
}

pub open spec fn strings_of(v: Seq<String>) -> Seq<Seq<char>> {
    v.map_values(|s: String| s@)
}

/// The string-table kind that holds a localized field (see `kind_for`).
pub fn determine_string_file_type(record_type: &str, subrecord_type: &str) -> (r: StringFileType)
    ensures
        r == kind_for(record_type@, subrecord_type@),
{
    let rt = record_type.to_owned();
    let st = subrecord_type.to_owned();
    let info = "INFO".to_owned();
    let desc = "DESC".to_owned();
    let cnam = "CNAM".to_owned();
    proof {
        reveal_strlit("INFO");
        reveal_strlit("DESC");
        reveal_strlit("CNAM");
        assert(info@ =~= seq!['I', 'N', 'F', 'O']);
        assert(desc@ =~= seq!['D', 'E', 'S', 'C']);
        assert(cnam@ =~= seq!['C', 'N', 'A', 'M']);
    }
    if rt == info {
        StringFileType::ILSTRINGS
    } else if st == desc || st == cnam {
        StringFileType::DLSTRINGS
    } else {
        StringFileType::STRINGS
    }
}

fn tag_is(t: &[u8; 4], a: u8, b: u8, c: u8, d: u8) -> (r: bool)
    ensures
        r == (t@ == seq![a, b, c, d]),
{
    let r = t[0] == a && t[1] == b && t[2] == c && t[3] == d;
    if r {
        assert(t@ =~= seq![a, b, c, d]);
    }
    r
}

/// The master file names of a header (see `masters_of`).
pub fn extract_masters(header: &Record) -> (r: Vec<String>)
    ensures
        strings_of(r@) == masters_of(header.subrecords@),
{
    let mut r: Vec<String> = Vec::new();
    let mut i: usize = 0;
    while i < header.subrecords.len()
        invariant
            i <= header.subrecords@.len(),
            strings_of(r@) == masters_of(header.subrecords@.subrange(0, i as int)),
        decreases header.subrecords@.len() - i,
    {
        let s = &header.subrecords[i];
        let ghost prev = r@;
        proof {
            assert(header.subrecords@.subrange(0, i + 1).drop_last() =~= header.subrecords@.subrange(0, i as int));
        }
        if tag_is(&s.record_type_bytes, 0x4d, 0x41, 0x53, 0x54) {
            let name = RawString::parse_zstring(s.data.as_slice());
            r.push(name.content);
            assert(strings_of(r@) =~= strings_of(prev).push(name.content@));
        } else {
            assert(strings_of(r@) =~= strings_of(prev));
        }
        i = i + 1;
        assert(strings_of(r@) =~= masters_of(header.subrecords@.subrange(0, i as int)));
    }
    assert(header.subrecords@.subrange(0, i as int) =~= header.subrecords@);
    r
}

/// The top-level group ranges from `pos` on (see `boundaries_from`).
pub fn scan_group_boundaries(data: &[u8], pos: usize) -> (r: Result<Vec<(usize, u32)>, EspError>)
    ensures
        match r {
            Ok(v) => boundaries_from(data@, pos as int) == Some(v@.map_values(|x: (usize, u32)| (x.0 as int, x.1 as int))),
            Err(_) => boundaries_from(data@, pos as int) is None,
        },
{
    let mut v: Vec<(usize, u32)> = Vec::new();
    let mut p: usize = pos;
    let dlen: usize = data.len();
    while p <= dlen && dlen - p >= 8
        invariant
            dlen == data@.len(),
            pos <= p,
            boundaries_from(data@, pos as int) == match boundaries_from(data@, p as int) {
                Some(rest) => Some(v@.map_values(|x: (usize, u32)| (x.0 as int, x.1 as int)) + rest),
                None => None::<Seq<(int, int)>>,
            },
        decreases dlen - p,
    {
        let is_grup = data[p] == 0x47 && data[p + 1] == 0x52 && data[p + 2] == 0x55 && data[p + 3] == 0x50;
        proof {
            let w = data@.subrange(p as int, p + 4);
            if w == grup() {
                assert(w[0] == data@[p as int] && w[1] == data@[p + 1] && w[2] == data@[p + 2] && w[3] == data@[p + 3]);
            }
            if is_grup {
                assert(w =~= grup());
            }
        }
        if !is_grup {
            return Err(EspError::BadMagic { offset: p });
        }
        let size = read_u32(data, p + 4).unwrap();
        if size < 24 || size > MAX_GROUP_SIZE {
            return Err(EspError::SizeOutOfBounds { offset: p, size });
        }
        let ghost prev = v@;
        v.push((p, size));
        proof {
            let f = |x: (usize, u32)| (x.0 as int, x.1 as int);
            assert(v@.map_values(f) =~= prev.map_values(f).push((p as int, size as int)));
            let rest = boundaries_from(data@, p + size);
            if rest is Some {
                assert(prev.map_values(f) + (seq![(p as int, size as int)] + rest->0) =~= prev.map_values(f).push((p as int, size as int)) + rest->0);
            }
        }
        if dlen - p < size as usize {
            proof {
                assert(boundaries_from(data@, p + size) == Some(Seq::<(int, int)>::empty()));
                assert(v@.map_values(|x: (usize, u32)| (x.0 as int, x.1 as int)) + Seq::<(int, int)>::empty() =~= v@.map_values(|x: (usize, u32)| (x.0 as int, x.1 as int)));
            }
            return Ok(v);
        }
        p = p + size as usize;
    }
    proof {
        assert(v@.map_values(|x: (usize, u32)| (x.0 as int, x.1 as int)) + Seq::<(int, int)>::empty() =~= v@.map_values(|x: (usize, u32)| (x.0 as int, x.1 as int)));
    }
    Ok(v)
}

/// `g` is the group read from `d[start..start + size]`.
#[verifier::opaque]
pub open spec fn group_read_at(d: Seq<u8>, start: int, size: int, g: Group) -> bool {
    group_parsed(d.subrange(start, start + size), g)
}

/// Whether the top-level groups at the given ranges can all be read.
pub open spec fn groups_ok(d: Seq<u8>, b: Seq<(int, int)>) -> bool {
    forall|i: int| 0 <= i < b.len() ==> (#[trigger] b[i]).0 + b[i].1 <= d.len() && group_ok(d.subrange(b[i].0, b[i].0 + b[i].1))
}

/// Whether a plugin can be loaded from `d`: a header record of a recognized type, then
/// top-level groups that can all be read.
pub open spec fn load_ok(d: Seq<u8>) -> bool {
    &&& record_parse_ok(d, 0)
    &&& (d.subrange(0, 4) == tes4() || d.subrange(0, 4) == tes3())
    &&& boundaries_from(d, record_end(d, 0)) is Some
    &&& groups_ok(d, boundaries_from(d, record_end(d, 0))->0)
}

/// `p` is the plugin loaded from `d` under the file name `name`.
pub open spec fn plugin_loaded(d: Seq<u8>, name: Seq<char>, p: Plugin) -> bool {
    let b = boundaries_from(d, record_end(d, 0))->0;
    &&& load_ok(d)
    &&& p.path@ == name
    &&& record_parsed(d, 0, p.header, record_end(d, 0))
    &&& strings_of(p.masters@) == masters_of(p.header.subrecords@)
    &&& p.groups@.len() == b.len()
    &&& forall|i: int| 0 <= i < b.len() ==> group_read_at(d, b[i].0, b[i].1, #[trigger] p.groups@[i])
    &&& p.string_files is None
}

impl Plugin {
    /// Loads a plugin from its bytes: the header record (which must be of a recognized type),
    /// its master list, and every top-level group.
    pub fn load_from_bytes(path: String, data: &[u8], string_router: DefaultStringRouter) -> (r: Result<Plugin, EspError>)
        ensures
            match r {
                Ok(p) => plugin_loaded(data@, path@, p) && p.string_router == string_router,
                Err(_) => !load_ok(data@),
            },
    {
        let (header, next) = match Record::parse(data, 0) {
            Ok(x) => x,
            Err(e) => return Err(e),
        };
        let is4 = tag_is(&header.record_type_bytes, 0x54, 0x45, 0x53, 0x34);
        let is3 = tag_is(&header.record_type_bytes, 0x54, 0x45, 0x53, 0x33);
        assert(header.record_type_bytes@ == data@.subrange(0, 4));
        assert(seq![0x54u8, 0x45u8, 0x53u8, 0x34u8] == tes4());
        assert(seq![0x54u8, 0x45u8, 0x53u8, 0x33u8] == tes3());
        if !is4 && !is3 {
            return Err(EspError::InvalidFormat);
        }
        let masters = extract_masters(&header);
        let ranges = match scan_group_boundaries(data, next) {
            Ok(v) => v,
            Err(e) => return Err(e),
        };
        let ghost b = boundaries_from(data@, next as int)->0;
        let mut groups: Vec<Group> = Vec::new();
        let mut i: usize = 0;
        while i < ranges.len()
            invariant
                i <= ranges@.len(),
                next as int == record_end(data@, 0),
                record_parsed(data@, 0, header, next as int),
                data@.subrange(0, 4) == tes4() || data@.subrange(0, 4) == tes3(),
                strings_of(masters@) == masters_of(header.subrecords@),
                boundaries_from(data@, next as int) == Some(b),
                b == ranges@.map_values(|x: (usize, u32)| (x.0 as int, x.1 as int)),
                groups@.len() == i,
                forall|k: int| 0 <= k < i ==> (#[trigger] b[k]).0 + b[k].1 <= data@.len() && group_ok(data@.subrange(b[k].0, b[k].0 + b[k].1))
                    && group_read_at(data@, b[k].0, b[k].1, groups@[k]),
            decreases ranges@.len() - i,
        {
            let (start, size) = ranges[i];
            assert(b[i as int] == (start as int, size as int));
            if start > data.len() || data.len() - start < size as usize {
                proof {
                    assert(!groups_ok(data@, b));
                }
                return Err(EspError::Truncated { offset: start, needed: size as usize });
            }
            let slice = vstd::slice::slice_subrange(data, start, start + size as usize);
            match Group::parse(slice, 0) {
                Ok((g, _)) => {
                    assert(slice@.subrange(0, slice@.len() as int) =~= slice@);
                    assert(group_read_at(data@, start as int, size as int, g)) by {
                        reveal(group_read_at);
                    }
                    groups.push(g);
                },
                Err(e) => {
                    proof {
                        assert(slice@.subrange(0, slice@.len() as int) =~= slice@);
                        assert(!groups_ok(data@, b));
                    }
                    return Err(e);
                },
            }
            i = i + 1;
        }
        Ok(Plugin { path, header, groups, masters, string_router, string_files: None })
    }

    /// The plugin's file name.
    pub fn get_name(&self) -> (r: &str)
        ensures
            r@ == self.path@,
    {
        self.path.as_str()
    }

    /// Whether the header marks the plugin as localized.
    pub fn is_localized(&self) -> (r: bool)
        ensures
            r == (self.header.flags & LOCALIZED_FLAG != 0),
    {
        self.header.flags & LOCALIZED_FLAG != 0
    }

    /// The router that decides which fields carry text.
    pub fn string_router(&self) -> (r: &DefaultStringRouter)
        ensures
            r == &self.string_router,
    {
        &self.string_router
    }

    /// Attaches the string tables of a localized plugin.
    pub fn set_string_files(&mut self, string_files: StringFileSet)
        ensures
            final(self).string_files == Some(string_files),
            final(self).header == old(self).header,
            final(self).groups == old(self).groups,
            final(self).masters == old(self).masters,
            final(self).path == old(self).path,
            final(self).string_router == old(self).string_router,
    {
        self.string_files = Some(string_files);
    }
}

/// The bytes of the first `n` top-level groups as written.
pub open spec fn groups_bytes(gs: Seq<Group>, n: int) -> Option<Seq<u8>>
    decreases n,
{
    if n <= 0 || n > gs.len() {
        Some(Seq::empty())
    } else {
        match (groups_bytes(gs, n - 1), group_bytes(gs[n - 1])) {
            (Some(a), Some(b)) => Some(a + b),
            _ => None,
        }
    }
}

/// The bytes a plugin is written as: its header record, then each top-level group.
pub open spec fn plugin_bytes(p: Plugin) -> Option<Seq<u8>> {
    match (record_bytes(p.header), groups_bytes(p.groups@, p.groups@.len() as int)) {
        (Some(h), Some(g)) => Some(h + g),
        _ => None,
    }
}

proof fn lemma_groups_none_extends(gs: Seq<Group>, n: int, m: int)
    requires
        0 <= n <= m <= gs.len(),
        groups_bytes(gs, n) is None,
    ensures
        groups_bytes(gs, m) is None,
    decreases m - n,
{
    if n < m {
        lemma_groups_none_extends(gs, n, m - 1);
    }
}

impl Plugin {
    /// The plugin as written (see `plugin_bytes`): untouched records byte for byte as read,
    /// modified ones re-serialized, every size recomputed.
    pub fn write_to_buffer(&self) -> (r: Result<Vec<u8>, EspError>)
        ensures
            match r {
                Ok(b) => plugin_bytes(*self) == Some(b@),
                Err(_) => plugin_bytes(*self) is None,
            },
    {
        let mut out: Vec<u8> = Vec::new();
        match self.header.write(&mut out) {
            Ok(()) => {},
            Err(e) => return Err(e),
        }
        let ghost h = out@;
        let mut i: usize = 0;
        while i < self.groups.len()
            invariant
                i <= self.groups@.len(),
                record_bytes(self.header) == Some(h),
                groups_bytes(self.groups@, i as int) is Some,
                out@ == h + groups_bytes(self.groups@, i as int)->0,
            decreases self.groups@.len() - i,
        {
            let ghost before = out@;
            match self.groups[i].write(&mut out) {
                Ok(()) => {},
                Err(e) => {
                    proof {
                        lemma_groups_none_extends(self.groups@, i + 1, self.groups@.len() as int);
                    }
                    return Err(e);
                },
            }
            assert(out@ =~= h + groups_bytes(self.groups@, i + 1)->0);
            i = i + 1;
        }
        Ok(out)
    }
}

/// The end of the last of the first `n` ranges, or `start` when there are none.
pub open spec fn ranges_end(b: Seq<(int, int)>, n: int, start: int) -> int {
    if n <= 0 { start } else { b[n - 1].0 + b[n - 1].1 }
}

proof fn lemma_boundaries_chain(d: Seq<u8>, p: int)
    requires
        boundaries_from(d, p) is Some,
    ensures
        ({
            let b = boundaries_from(d, p)->0;
            &&& b.len() > 0 ==> b[0].0 == p
            &&& forall|i: int| 0 <= i < b.len() ==> (#[trigger] b[i]).1 == u32_at(d, b[i].0 + 4) as int && b[i].0 + 8 <= d.len()
            &&& forall|i: int| 0 <= i < b.len() ==> (#[trigger] b[i]).0 >= 0 && b[i].1 >= 24
            &&& forall|i: int| 0 < i < b.len() ==> (#[trigger] b[i]).0 == b[i - 1].0 + b[i - 1].1
            &&& b.len() == 0 ==> p < 0 || p + 8 > d.len()
            &&& b.len() > 0 ==> ranges_end(b, b.len() as int, p) < 0 || ranges_end(b, b.len() as int, p) + 8 > d.len()
        }),
    decreases (if p <= d.len() { d.len() - p } else { 0 }),
{
    if p < 0 || p + 8 > d.len() {
    } else {
        let size = u32_at(d, p + 4) as int;
        lemma_boundaries_chain(d, p + size);
        let rest = boundaries_from(d, p + size)->0;
        let b = boundaries_from(d, p)->0;
        assert(b == seq![(p, size)] + rest);
        assert forall|i: int| 0 < i < b.len() implies (#[trigger] b[i]).0 == b[i - 1].0 + b[i - 1].1 by {
            assert(b[i] == rest[i - 1]);
            if i == 1 {
                assert(rest[0].0 == p + size);
            } else {
                assert(b[i - 1] == rest[i - 2]);
                assert(rest[i - 1].0 == rest[i - 2].0 + rest[i - 2].1);
            }
        }
        assert forall|i: int| 0 <= i < b.len() implies (#[trigger] b[i]).1 == u32_at(d, b[i].0 + 4) as int && b[i].0 + 8 <= d.len() by {
            if i > 0 {
                assert(b[i] == rest[i - 1]);
            }
        }
        assert forall|i: int| 0 <= i < b.len() implies (#[trigger] b[i]).0 >= 0 && b[i].1 >= 24 by {
            if i > 0 {
                assert(b[i] == rest[i - 1]);
            }
        }
        if rest.len() > 0 {
            assert(b[b.len() - 1] == rest[rest.len() - 1]);
        }
    }
}

#[verifier::rlimit(100)]
proof fn lemma_groups_bytes_prefix(d: Seq<u8>, p: Plugin, b: Seq<(int, int)>, start: int, n: int)
    requires
        0 <= n <= b.len(),
        b.len() == p.groups@.len(),
        b.len() > 0 ==> b[0].0 == start,
        0 <= start <= d.len(),
        forall|i: int| 0 < i < b.len() ==> (#[trigger] b[i]).0 == b[i - 1].0 + b[i - 1].1,
        forall|i: int| 0 <= i < b.len() ==> (#[trigger] b[i]).1 == u32_at(d, b[i].0 + 4) as int && b[i].0 + 8 <= d.len(),
        forall|i: int| 0 <= i < b.len() ==> (#[trigger] b[i]).0 + b[i].1 <= d.len(),
        forall|i: int| 0 <= i < b.len() ==> (#[trigger] b[i]).0 >= 0 && b[i].1 >= 24,
        forall|i: int| 0 <= i < b.len() ==> group_read_at(d, b[i].0, b[i].1, #[trigger] p.groups@[i]),
    ensures
        groups_bytes(p.groups@, n) == Some(d.subrange(start, ranges_end(b, n, start))),
        start <= ranges_end(b, n, start),
    decreases n,
{
    if n == 0 {
        assert(d.subrange(start, start) =~= Seq::<u8>::empty());
    } else {
        lemma_groups_bytes_prefix(d, p, b, start, n - 1);
        let (s, size) = b[n - 1];
        let di = d.subrange(s, s + size);
        assert(group_read_at(d, s, size, p.groups@[n - 1]));
        assert(group_parsed(di, p.groups@[n - 1])) by {
            reveal(group_read_at);
        }
        lemma_group_round_trip(di, p.groups@[n - 1]);
        assert(u32_at(di, 4) == u32_at(d, s + 4));
        assert(di.subrange(0, size) =~= di);
        if n >= 2 {
            assert(b[n - 1].0 == b[n - 2].0 + b[n - 2].1);
        }
        assert(ranges_end(b, n - 1, start) == s);
        assert(d.subrange(start, s) + di =~= d.subrange(start, s + size));
    }
}

/// A plugin loaded from bytes and written back unmodified reproduces those bytes exactly,
/// when its top-level groups run to the end of the data.
#[verifier::rlimit(100)]
pub proof fn lemma_plugin_round_trip(d: Seq<u8>, name: Seq<char>, p: Plugin)
    requires
        plugin_loaded(d, name, p),
        ({
            let b = boundaries_from(d, record_end(d, 0))->0;
            ranges_end(b, b.len() as int, record_end(d, 0)) == d.len()
        }),
    ensures
        plugin_bytes(p) == Some(d),
{
    let next = record_end(d, 0);
    let b = boundaries_from(d, next)->0;
    lemma_record_round_trip(d, 0, p.header, next);
    lemma_boundaries_chain(d, next);
    assert forall|i: int| 0 <= i < b.len() implies (#[trigger] b[i]).0 + b[i].1 <= d.len() by {
        assert(groups_ok(d, b));
    }
    lemma_groups_bytes_prefix(d, p, b, next, b.len() as int);
    assert(d.subrange(0, next) + d.subrange(next, d.len() as int) =~= d);
}

} // verus!
