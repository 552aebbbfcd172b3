//! Extraction: walking a plugin to collect its translation units.
use vstd::prelude::*;
use crate::bytes::{u32_at, read_u32};
use crate::extracted::{ExtractedString, UnitModel, form_id_text, format_form_id, opt_text};
use crate::group::{Group, GroupChild};
use crate::plugin::{Plugin, kind_for, determine_string_file_type, strings_of};
use crate::extracted::unit_key;
use crate::translate::field_key;
use crate::raw_string::{RawString, decode_from, nul_position};
use crate::record::{Record, editor_id_of};
use crate::router::strings_view;
use crate::string_file::{StringFileType, extension_of};
use crate::subrecord::Subrecord;
use crate::text::{dec_digits, push_str, push_decimal, string_from_chars};
use crate::validate::{text_ok, is_valid_string};

verus! {

/// Whether a subrecord's type is one of the routed types.
pub open spec fn routed(ts: Seq<Seq<char>>, s: Subrecord) -> bool {
    ts.contains(s.record_type@)
}

/// How many of the first `j` subrecords are routed: the index the next routed one receives.
pub open spec fn rank(ts: Seq<Seq<char>>, subs: Seq<Subrecord>, j: int) -> int
    decreases j,
{
    if j <= 0 {
        0
    } else {
        rank(ts, subs, j - 1) + if routed(ts, subs[j - 1]) { 1int } else { 0int }
    }
}

/// The text shown for a localized id that no table resolves: `StringID_<id>`, followed by
/// `_<kind>` when the tables are loaded.
pub open spec fn placeholder(id: u32, kind: Option<StringFileType>) -> Seq<char> {
    seq!['S', 't', 'r', 'i', 'n', 'g', 'I', 'D', '_'] + dec_digits(id as nat) + match kind {
        Some(k) => seq!['_'] + extension_of(k),
        None => Seq::empty(),
    }
}

/// The text of a localized field with string id `id`.
pub open spec fn localized_text(p: Plugin, record_type: Seq<char>, subrecord_type: Seq<char>, id: u32) -> Seq<char> {
    let k = kind_for(record_type, subrecord_type);
    match p.string_files {
        Some(set) => match set.entry_spec(k, id) {
            Some(e) => e.content@,
            None => placeholder(id, Some(k)),
        },
        None => placeholder(id, None),
    }
}

/// The text a routed subrecord yields, if any: for a localized plugin the text of its non-zero
/// string id; otherwise its decoded text up to the first NUL, when plausible.
#[verifier::opaque]
pub open spec fn field_text(p: Plugin, r: Record, s: Subrecord) -> Option<Seq<char>> {
    if p.header.flags & 0x80 != 0 {
        if s.data@.len() < 4 || u32_at(s.data@, 0) == 0 {
            None
        } else {
            Some(localized_text(p, r.record_type@, s.record_type@, u32_at(s.data@, 0)))
        }
    } else {
        let t = decode_from(s.data@.subrange(0, nul_position(s.data@)), 0).0;
        if text_ok(t) { Some(t) } else { None }
    }
}

/// The unit of a routed subrecord with the given index.
pub open spec fn unit_for(p: Plugin, r: Record, s: Subrecord, index: int) -> Option<UnitModel> {
    match field_text(p, r, s) {
        Some(t) => Some((editor_id_of(r.subrecords@), form_id_text(r.form_id, strings_of(p.masters@), p.path@), t, r.record_type@, s.record_type@, index as i32)),
        None => None,
    }
}

/// The units of the first `n` subrecords of a record.
pub open spec fn units_upto(p: Plugin, r: Record, ts: Seq<Seq<char>>, n: int) -> Seq<UnitModel>
    decreases n,
{
    if n <= 0 {
        Seq::empty()
    } else {
        units_upto(p, r, ts, n - 1) + if routed(ts, r.subrecords@[n - 1]) {
            match unit_for(p, r, r.subrecords@[n - 1], rank(ts, r.subrecords@, n - 1)) {
                Some(u) => seq![u],
                None => Seq::empty(),
            }
        } else {
            Seq::empty()
        }
    }
}

/// The units of a record, in subrecord order.
#[verifier::opaque]
pub open spec fn record_units(p: Plugin, r: Record) -> Seq<UnitModel> {
    match p.string_router.types_of(r.record_type@) {
        Some(ts) => units_upto(p, r, ts, r.subrecords@.len() as int),
        None => Seq::empty(),
    }
}

/// The units of the first `n` children of a group.
pub open spec fn children_units(p: Plugin, g: Group, n: int) -> Seq<UnitModel>
    decreases g, n,
{
    if n <= 0 || n > g.children@.len() {
        Seq::empty()
    } else {
        children_units(p, g, n - 1) + match g.children@[n - 1] {
            GroupChild::Group(sub) => group_units(p, *sub),
            GroupChild::Record(r) => record_units(p, r),
        }
    }
}

/// The units of a group, in file order.
pub open spec fn group_units(p: Plugin, g: Group) -> Seq<UnitModel>
    decreases g, g.children@.len() + 1,
{
    children_units(p, g, g.children@.len() as int)
}

/// The units of the first `n` top-level groups.
pub open spec fn plugin_units_upto(p: Plugin, n: int) -> Seq<UnitModel>
    decreases n,
{
    if n <= 0 || n > p.groups@.len() {
        Seq::empty()
    } else {
        plugin_units_upto(p, n - 1) + group_units(p, p.groups@[n - 1])
    }
}

/// The units of a plugin, in file order.
pub open spec fn plugin_units(p: Plugin) -> Seq<UnitModel> {
    plugin_units_upto(p, p.groups@.len() as int)
}

pub open spec fn unit_models(v: Seq<ExtractedString>) -> Seq<UnitModel> {
    v.map_values(|e: ExtractedString| e.model())
}

/// Within a record, the routed subrecords receive the indices 0, 1, 2, ... in file order,
/// whatever their types: a later routed subrecord's index is one more than the number of routed
/// subrecords before it, so routed subrecords `j1 < j2` get indices `rank(j1) < rank(j2)`, and
/// the last index is one less than the number of routed subrecords.
pub proof fn lemma_rank_increases(ts: Seq<Seq<char>>, subs: Seq<Subrecord>, j1: int, j2: int)
    requires
        0 <= j1 < j2 <= subs.len(),
        routed(ts, subs[j1]),
    ensures
        rank(ts, subs, j1) < rank(ts, subs, j2),
        rank(ts, subs, j2) <= j2,
    decreases j2 - j1,
{
    lemma_rank_bounded(ts, subs, j2);
    if j2 == j1 + 1 {
    } else {
        lemma_rank_increases(ts, subs, j1, j2 - 1);
    }
}

proof fn lemma_rank_bounded(ts: Seq<Seq<char>>, subs: Seq<Subrecord>, j: int)
    requires
        0 <= j,
    ensures
        0 <= rank(ts, subs, j) <= j,
    decreases j,
{
    if j > 0 {
        lemma_rank_bounded(ts, subs, j - 1);
    }
}

fn append_units(out: &mut Vec<ExtractedString>, part: Vec<ExtractedString>)
    ensures
        unit_models(final(out)@) == unit_models(old(out)@) + unit_models(part@),
{
    let mut part = part;
    let ghost added = part@;
    out.append(&mut part);
    assert(unit_models(out@) =~= unit_models(old(out)@) + unit_models(added));
}

fn placeholder_text(id: u32, kind: Option<StringFileType>) -> (r: String)
    ensures
        r@ == placeholder(id, kind),
{
    let mut v: Vec<char> = Vec::new();
    push_str(&mut v, "StringID_");
    proof {
        reveal_strlit("StringID_");
        reveal_strlit("_");
    }
    push_decimal(&mut v, id as u64);
    match kind {
        Some(k) => {
            push_str(&mut v, "_");
            push_str(&mut v, k.to_extension());
        },
        None => {},
    }
    assert(v@ =~= placeholder(id, kind));
    string_from_chars(v.as_slice())
}

impl Plugin {
    /// The string tables, when present, are well formed.
    pub open spec fn wf(&self) -> bool {
        self.string_files matches Some(s) ==> s.wf()
    }

    /// The text a routed subrecord of `record` yields, if any (see `field_text`); in a localized
    /// plugin a string id of 0 yields nothing.
    pub fn subrecord_text(&self, record: &Record, s: &Subrecord) -> (r: Option<String>)
        requires
            self.wf(),
        ensures
            opt_text(r) == field_text(*self, *record, *s),
            self.header.flags & 0x80 != 0 && s.data@.len() >= 4 && u32_at(s.data@, 0) == 0 ==> r is None,
    {
        reveal(field_text);
        if self.is_localized() {
            let id = match read_u32(s.data.as_slice(), 0) {
                Some(id) => id,
                None => return None,
            };
            if id == 0 {
                return None;
            }
            let k = determine_string_file_type(record.record_type.as_str(), s.record_type.as_str());
            match &self.string_files {
                Some(set) => match set.get_string_by_type(k, id) {
                    Some(e) => Some(e.content.clone()),
                    None => Some(placeholder_text(id, Some(k))),
                },
                None => Some(placeholder_text(id, None)),
            }
        } else {
            let raw = RawString::parse_zstring(s.data.as_slice());
            if is_valid_string(raw.content.as_str()) {
                Some(raw.content)
            } else {
                None
            }
        }
    }

    /// The units of one record: each routed subrecord, in order, takes the next index,
    /// whether or not it yields a unit.
    pub fn extract_record_strings(&self, record: &Record) -> (r: Vec<ExtractedString>)
        requires
            self.wf(),
        ensures
            unit_models(r@) == record_units(*self, *record),
    {
        reveal(record_units);
        let mut out: Vec<ExtractedString> = Vec::new();
        let types = match self.string_router.get_string_subrecord_types(record.record_type.as_str()) {
            Some(ts) => ts,
            None => {
                assert(unit_models(out@) =~= Seq::<UnitModel>::empty());
                return out;
            },
        };
        let ghost ts = strings_view(types@);
        assert(self.string_router.types_of(record.record_type@) == Some(ts));
        let editor_id = record.get_editor_id();
        let form_id = format_form_id(record.form_id, &self.masters, self.path.as_str());
        assert(self.masters@.map_values(|m: String| m@) == strings_of(self.masters@));
        let mut index: usize = 0;
        let mut i: usize = 0;
        assert(unit_models(out@) =~= Seq::<UnitModel>::empty());
        while i < record.subrecords.len()
            invariant
                self.wf(),
                i <= record.subrecords@.len(),
                index as int == rank(ts, record.subrecords@, i as int),
                index <= i,
                ts == strings_view(types@),
                opt_text(editor_id) == editor_id_of(record.subrecords@),
                form_id@ == form_id_text(record.form_id, strings_of(self.masters@), self.path@),
                unit_models(out@) == units_upto(*self, *record, ts, i as int),
            decreases record.subrecords@.len() - i,
        {
            let s = &record.subrecords[i];
            let is_routed = s.is_string_type(types.as_slice());
            proof {
                if is_routed {
                    let k = choose|k: int| 0 <= k < types@.len() && (#[trigger] types@[k])@ == s.record_type@;
                    assert(ts[k] == s.record_type@);
                } else {
                    if ts.contains(s.record_type@) {
                        let k = choose|k: int| 0 <= k < ts.len() && ts[k] == s.record_type@;
                        assert(types@[k]@ == s.record_type@);
                    }
                }
            }
            if is_routed {
                let ghost prev = out@;
                match self.subrecord_text(record, s) {
                    Some(text) => {
                        let u = ExtractedString::new(
                            editor_id.clone(),
                            form_id.clone(),
                            record.record_type.clone(),
                            s.record_type.clone(),
                            text,
                            index as i32,
                        );
                        out.push(u);
                        assert(unit_models(out@) =~= unit_models(prev).push(u.model()));
                    },
                    None => {},
                }
                index = index + 1;
            }
            i = i + 1;
        }
        out
    }

    /// The units of a group and everything nested in it, in file order.
    pub fn extract_group_strings(&self, group: &Group) -> (r: Vec<ExtractedString>)
        requires
            self.wf(),
        ensures
            unit_models(r@) == group_units(*self, *group),
        decreases group,
    {
        let mut out: Vec<ExtractedString> = Vec::new();
        let mut i: usize = 0;
        assert(unit_models(out@) =~= Seq::<UnitModel>::empty());
        while i < group.children.len()
            invariant
                self.wf(),
                i <= group.children@.len(),
                unit_models(out@) == children_units(*self, *group, i as int),
            decreases group.children@.len() - i,
        {
            let part = match &group.children[i] {
                GroupChild::Group(sub) => self.extract_group_strings(sub),
                GroupChild::Record(rec) => self.extract_record_strings(rec),
            };
            proof {
                let c = match group.children@[i as int] {
                    GroupChild::Group(sub) => group_units(*self, *sub),
                    GroupChild::Record(r) => record_units(*self, r),
                };
                assert(unit_models(part@) == c);
                assert(children_units(*self, *group, i + 1) == children_units(*self, *group, i as int) + c);
            }
            append_units(&mut out, part);
            i = i + 1;
        }
        out
    }

    /// Every translation unit of the plugin, in file order.
    pub fn extract_strings(&self) -> (r: Vec<ExtractedString>)
        requires
            self.wf(),
        ensures
            unit_models(r@) == plugin_units(*self),
    {
        let mut out: Vec<ExtractedString> = Vec::new();
        let mut i: usize = 0;
        assert(unit_models(out@) =~= Seq::<UnitModel>::empty());
        while i < self.groups.len()
            invariant
                self.wf(),
                i <= self.groups@.len(),
                unit_models(out@) == plugin_units_upto(*self, i as int),
            decreases self.groups@.len() - i,
        {
            let part = self.extract_group_strings(&self.groups[i]);
            append_units(&mut out, part);
            i = i + 1;
        }
        out
    }
}

/// In a localized plugin, a field whose string id is 0 yields no translation unit.
pub proof fn lemma_zero_id_yields_nothing(p: Plugin, r: Record, s: Subrecord, index: int)
    requires
        p.header.flags & 0x80 != 0,
        s.data@.len() >= 4,
        u32_at(s.data@, 0) == 0,
    ensures
        unit_for(p, r, s, index) is None,
{
    reveal(field_text);
}

/// Extraction numbers the routed subrecords of a record in file order: the unit made from
/// subrecord `j` has index `rank(j)`, the number of routed subrecords before it, whatever their
/// types and whether they yielded units; so the units come in file order with strictly
/// increasing indices (and each carries the key translation looks up for its subrecord, see
/// `lemma_unit_key`).
#[verifier::rlimit(60)]
pub proof fn lemma_unit_indices(p: Plugin, r: Record, ts: Seq<Seq<char>>, n: int)
    requires
        0 <= n <= r.subrecords@.len(),
        r.subrecords@.len() <= i32::MAX,
    ensures
        ({
            let us = units_upto(p, r, ts, n);
            &&& forall|k: int| 0 <= k < us.len() ==> exists|j: int| 0 <= j < n && routed(ts, r.subrecords@[j])
                && (#[trigger] us[k]).4 == r.subrecords@[j].record_type@
                && us[k].5 as int == rank(ts, r.subrecords@, j)
                && unit_for(p, r, r.subrecords@[j], rank(ts, r.subrecords@, j)) == Some(us[k])
            &&& forall|a: int, b: int| 0 <= a < b < us.len() ==> (#[trigger] us[a]).5 < (#[trigger] us[b]).5
            &&& forall|k: int| 0 <= k < us.len() ==> ((#[trigger] us[k]).5 as int) < rank(ts, r.subrecords@, n)
        }),
    decreases n,
{
    if n > 0 {
        lemma_unit_indices(p, r, ts, n - 1);
        lemma_rank_bounded(ts, r.subrecords@, n - 1);
        let prev = units_upto(p, r, ts, n - 1);
        let us = units_upto(p, r, ts, n);
        let s = r.subrecords@[n - 1];
        let i = rank(ts, r.subrecords@, n - 1);
        if routed(ts, s) && unit_for(p, r, s, i) is Some {
            let u = unit_for(p, r, s, i)->0;
            assert(us == prev.push(u));
            assert(u.5 as int == i);
            assert forall|k: int| 0 <= k < us.len() implies exists|j: int| 0 <= j < n && routed(ts, r.subrecords@[j])
                && (#[trigger] us[k]).4 == r.subrecords@[j].record_type@
                && us[k].5 as int == rank(ts, r.subrecords@, j)
                && unit_for(p, r, r.subrecords@[j], rank(ts, r.subrecords@, j)) == Some(us[k]) by {
                if k == prev.len() {
                    assert(us[k] == u);
                } else {
                    assert(us[k] == prev[k]);
                }
            }
            assert forall|a: int, b: int| 0 <= a < b < us.len() implies (#[trigger] us[a]).5 < (#[trigger] us[b]).5 by {
                assert(us[a] == prev[a]);
                if b < prev.len() {
                    assert(us[b] == prev[b]);
                }
            }
            assert forall|k: int| 0 <= k < us.len() implies ((#[trigger] us[k]).5 as int) < rank(ts, r.subrecords@, n) by {
                if k < prev.len() {
                    assert(us[k] == prev[k]);
                }
            }
        } else {
            assert(us =~= prev);
            assert(rank(ts, r.subrecords@, n - 1) <= rank(ts, r.subrecords@, n));
            assert forall|a: int, b: int| 0 <= a < b < us.len() implies (#[trigger] us[a]).5 < (#[trigger] us[b]).5 by {
                assert(us[a] == prev[a]);
                assert(us[b] == prev[b]);
            }
            assert forall|k: int| 0 <= k < us.len() implies ((#[trigger] us[k]).5 as int) < rank(ts, r.subrecords@, n) by {
                assert(us[k] == prev[k]);
            }
            assert forall|k: int| 0 <= k < us.len() implies exists|j: int| 0 <= j < n && routed(ts, r.subrecords@[j])
                && (#[trigger] us[k]).4 == r.subrecords@[j].record_type@
                && us[k].5 as int == rank(ts, r.subrecords@, j)
                && unit_for(p, r, r.subrecords@[j], rank(ts, r.subrecords@, j)) == Some(us[k]) by {
                assert(us[k] == prev[k]);
            }
        }
    }
}

/// The unit made from routed subrecord `j` carries the key that translation builds for that
/// subrecord, so a translation of that unit is written back into that same subrecord.
pub proof fn lemma_unit_key(p: Plugin, r: Record, ts: Seq<Seq<char>>, j: int)
    requires
        0 <= j < r.subrecords@.len(),
        unit_for(p, r, r.subrecords@[j], rank(ts, r.subrecords@, j)) is Some,
    ensures
        unit_key(unit_for(p, r, r.subrecords@[j], rank(ts, r.subrecords@, j))->0) == field_key(strings_of(p.masters@), p.path@, ts, r, j),
{
}

} // verus!
