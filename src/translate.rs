//! Applying translations: replaying the extraction walk to write new text back.
use vstd::prelude::*;
use vstd::utf8::encode_utf8;
use crate::bytes::copy_range;
use crate::extract::{routed, rank};
use crate::extracted::{ExtractedString, KeyIndex, key_index_contents, unique_key_of, unit_key, form_id_text, format_form_id, make_unique_key, opt_text};
use crate::group::{Group, GroupChild, group_bytes, children_bytes};
use crate::plugin::{plugin_bytes, groups_bytes};
use crate::record::record_bytes;
use crate::plugin::{Plugin, strings_of};
use crate::record::{Record, editor_id_of};
use crate::router::{DefaultStringRouter, strings_view};
use crate::subrecord::Subrecord;

verus! {

/// The position of the last translation with this key among the first `n`.
pub open spec fn last_index(ts: Seq<ExtractedString>, key: Seq<char>, n: int) -> Option<int>
    decreases n,
{
    if n <= 0 {
        None
    } else if unit_key(ts[n - 1].model()) == key {
        Some(n - 1)
    } else {
        last_index(ts, key, n - 1)
    }
}

/// The text of the last translation with this key.
pub open spec fn translation_text(ts: Seq<ExtractedString>, key: Seq<char>) -> Option<Seq<char>> {
    match last_index(ts, key, ts.len() as int) {
        Some(i) => Some(ts[i].text@),
        None => None,
    }
}

/// The key of subrecord `j` of a record whose routed types are `types`.
pub open spec fn field_key(masters: Seq<Seq<char>>, name: Seq<char>, types: Seq<Seq<char>>, r: Record, j: int) -> Seq<char> {
    unique_key_of(editor_id_of(r.subrecords@), form_id_text(r.form_id, masters, name), r.record_type@, r.subrecords@[j].record_type@, rank(types, r.subrecords@, j) as i32)
}

/// The new text of subrecord `j`: that of the last translation with its key, when the
/// subrecord is routed and that text is not empty.
pub open spec fn new_text_at(masters: Seq<Seq<char>>, name: Seq<char>, types: Seq<Seq<char>>, r: Record, ts: Seq<ExtractedString>, j: int) -> Option<Seq<char>> {
    if routed(types, r.subrecords@[j]) {
        match translation_text(ts, field_key(masters, name, types, r, j)) {
            Some(t) => if t.len() > 0 { Some(t) } else { None },
            None => None,
        }
    } else {
        None
    }
}

/// The payload written for a translated text: its UTF-8 bytes and a NUL.
pub open spec fn text_payload(t: Seq<char>) -> Seq<u8> {
    encode_utf8(t) + seq![0u8]
}

/// `new` is `old` with every subrecord that has a new text replaced by it (same type, payload
/// the text's bytes and a NUL, size the payload length), marked modified if any was.
#[verifier::opaque]
pub open spec fn record_translated(masters: Seq<Seq<char>>, name: Seq<char>, router: DefaultStringRouter, ts: Seq<ExtractedString>, old: Record, new: Record) -> bool {
    match router.types_of(old.record_type@) {
        None => new == old,
        Some(types) => {
            &&& new == (Record { subrecords: new.subrecords, is_modified: new.is_modified, ..old })
            &&& new.subrecords@.len() == old.subrecords@.len()
            &&& new.is_modified == (old.is_modified || exists|j: int| 0 <= j < old.subrecords@.len() && #[trigger] new_text_at(masters, name, types, old, ts, j) is Some)
            &&& forall|j: int| 0 <= j < old.subrecords@.len() ==> match #[trigger] new_text_at(masters, name, types, old, ts, j) {
                Some(t) => new.subrecords@[j].record_type_bytes == old.subrecords@[j].record_type_bytes
                    && new.subrecords@[j].record_type == old.subrecords@[j].record_type
                    && new.subrecords@[j].data@ == text_payload(t)
                    && new.subrecords@[j].size == text_payload(t).len() as u16,
                None => new.subrecords@[j] == old.subrecords@[j],
            }
        },
    }
}

/// How many of the first `n` subrecords get new text.
pub open spec fn applied_upto(masters: Seq<Seq<char>>, name: Seq<char>, types: Seq<Seq<char>>, r: Record, ts: Seq<ExtractedString>, n: int) -> nat
    decreases n,
{
    if n <= 0 {
        0
    } else {
        applied_upto(masters, name, types, r, ts, n - 1) + if new_text_at(masters, name, types, r, ts, n - 1) is Some { 1nat } else { 0nat }
    }
}

/// How many subrecords of a record get new text (none for a type that is not routed).
pub open spec fn record_applied(masters: Seq<Seq<char>>, name: Seq<char>, router: DefaultStringRouter, ts: Seq<ExtractedString>, r: Record) -> nat {
    match router.types_of(r.record_type@) {
        Some(types) => applied_upto(masters, name, types, r, ts, r.subrecords@.len() as int),
        None => 0,
    }
}

/// A count cut off at `usize::MAX`.
pub open spec fn saturated(x: nat) -> usize {
    if x > usize::MAX { usize::MAX } else { x as usize }
}

/// How many subrecords of the first `n` children get new text, at any depth.
pub open spec fn children_applied(masters: Seq<Seq<char>>, name: Seq<char>, router: DefaultStringRouter, ts: Seq<ExtractedString>, g: Group, n: int) -> nat
    decreases g, n,
{
    if n <= 0 || n > g.children@.len() {
        0
    } else {
        children_applied(masters, name, router, ts, g, n - 1) + match g.children@[n - 1] {
            GroupChild::Group(sub) => children_applied(masters, name, router, ts, *sub, sub.children@.len() as int),
            GroupChild::Record(r) => record_applied(masters, name, router, ts, r),
        }
    }
}

/// How many subrecords of the first `n` top-level groups get new text.
pub open spec fn groups_applied(masters: Seq<Seq<char>>, name: Seq<char>, router: DefaultStringRouter, ts: Seq<ExtractedString>, gs: Seq<Group>, n: int) -> nat
    decreases n,
{
    if n <= 0 || n > gs.len() {
        0
    } else {
        groups_applied(masters, name, router, ts, gs, n - 1) + children_applied(masters, name, router, ts, gs[n - 1], gs[n - 1].children@.len() as int)
    }
}

/// A translation index over `ts`: each key maps to the last translation that has it.
pub open spec fn indexes(k: KeyIndex, ts: Seq<ExtractedString>) -> bool {
    forall|key: Seq<char>| #[trigger] key_index_contents(k).contains_key(key) == (last_index(ts, key, ts.len() as int) is Some)
        && (key_index_contents(k).contains_key(key) ==> key_index_contents(k)[key] as int == last_index(ts, key, ts.len() as int)->0)
}

/// Indexes translations by their unique keys (a later one wins).
pub fn build_translation_index(ts: &Vec<ExtractedString>) -> (r: KeyIndex)
    ensures
        indexes(r, ts@),
{
    let mut k = KeyIndex::new();
    let mut i: usize = 0;
    while i < ts.len()
        invariant
            i <= ts@.len(),
            forall|key: Seq<char>| #[trigger] key_index_contents(k).contains_key(key) == (last_index(ts@, key, i as int) is Some)
                && (key_index_contents(k).contains_key(key) ==> key_index_contents(k)[key] as int == last_index(ts@, key, i as int)->0),
        decreases ts@.len() - i,
    {
        let key = ts[i].get_unique_key();
        k.insert(key, i);
        i = i + 1;
    }
    k
}

fn lookup_text(k: &KeyIndex, ts: &Vec<ExtractedString>, key: &String) -> (r: Option<usize>)
    requires
        indexes(*k, ts@),
    ensures
        match r {
            Some(i) => i < ts@.len() && last_index(ts@, key@, ts@.len() as int) == Some(i as int),
            None => last_index(ts@, key@, ts@.len() as int) is None,
        },
{
    let r = k.get(key);
    proof {
        if r is Some {
            lemma_last_index_bounds(ts@, key@, ts@.len() as int);
        }
    }
    r
}

proof fn lemma_last_index_bounds(ts: Seq<ExtractedString>, key: Seq<char>, n: int)
    requires
        0 <= n <= ts.len(),
    ensures
        last_index(ts, key, n) matches Some(i) ==> 0 <= i < n,
    decreases n,
{
    if n > 0 {
        lemma_last_index_bounds(ts, key, n - 1);
    }
}

/// Writes the translations whose keys match routed subrecords of the record; returns how many
/// subrecords were given new text.
pub fn apply_translations_to_record(
    record: &mut Record,
    index: &KeyIndex,
    translations: &Vec<ExtractedString>,
    router: &DefaultStringRouter,
    masters: &Vec<String>,
    plugin_name: &str,
) -> (r: usize)
    requires
        indexes(*index, translations@),
    ensures
        record_translated(strings_of(masters@), plugin_name@, *router, translations@, *old(record), *final(record)),
        r == record_applied(strings_of(masters@), plugin_name@, *router, translations@, *old(record)),
{
    reveal(record_translated);
    let types = match router.get_string_subrecord_types(record.record_type.as_str()) {
        Some(ts) => ts,
        None => return 0,
    };
    let ghost ts = strings_view(types@);
    let ghost ms = strings_of(masters@);
    let ghost old_rec = *record;
    assert(router.types_of(record.record_type@) == Some(ts));
    let editor_id = record.get_editor_id();
    let form_id = format_form_id(record.form_id, masters, plugin_name);
    assert(masters@.map_values(|m: String| m@) == ms);
    let mut applied: usize = 0;
    let mut counter: usize = 0;
    let mut modified = record.is_modified;
    let mut j: usize = 0;
    let n = record.subrecords.len();
    while j < n
        invariant
            n == old_rec.subrecords@.len(),
            j <= n,
            applied <= j,
            applied as nat == applied_upto(ms, plugin_name@, ts, old_rec, translations@, j as int),
            ms == strings_of(masters@),
            counter <= j,
            counter as int == rank(ts, old_rec.subrecords@, j as int),
            ts == strings_view(types@),
            router.types_of(old_rec.record_type@) == Some(ts),
            opt_text(editor_id) == editor_id_of(old_rec.subrecords@),
            form_id@ == form_id_text(old_rec.form_id, ms, plugin_name@),
            *record == (Record { subrecords: record.subrecords, ..old_rec }),
            record.subrecords@.len() == n,
            indexes(*index, translations@),
            forall|k: int| j <= k < n ==> record.subrecords@[k] == old_rec.subrecords@[k],
            forall|k: int| 0 <= k < j ==> match #[trigger] new_text_at(ms, plugin_name@, ts, old_rec, translations@, k) {
                Some(t) => record.subrecords@[k].record_type_bytes == old_rec.subrecords@[k].record_type_bytes
                    && record.subrecords@[k].record_type == old_rec.subrecords@[k].record_type
                    && record.subrecords@[k].data@ == text_payload(t)
                    && record.subrecords@[k].size == text_payload(t).len() as u16,
                None => record.subrecords@[k] == old_rec.subrecords@[k],
            },
            modified == (old_rec.is_modified || exists|k: int| 0 <= k < j && #[trigger] new_text_at(ms, plugin_name@, ts, old_rec, translations@, k) is Some),
        decreases n - j,
    {
        let is_routed = record.subrecords[j].is_string_type(types.as_slice());
        proof {
            let s = record.subrecords@[j as int];
            if is_routed {
                let k = choose|k: int| 0 <= k < types@.len() && (#[trigger] types@[k])@ == s.record_type@;
                assert(ts[k] == s.record_type@);
            } else if ts.contains(s.record_type@) {
                let k = choose|k: int| 0 <= k < ts.len() && ts[k] == s.record_type@;
                assert(types@[k]@ == s.record_type@);
            }
        }
        if is_routed {
            let key = make_unique_key(&editor_id, form_id.as_str(), record.record_type.as_str(), record.subrecords[j].record_type.as_str(), counter as i32);
            assert(key@ == crate::translate::field_key(ms, plugin_name@, ts, old_rec, j as int));
            match lookup_text(index, translations, &key) {
                Some(t) => {
                    let text = translations[t].text.as_str();
                    if !text.is_empty() {
                        let bytes = text.as_bytes();
                        let mut data = copy_range(bytes, 0, bytes.len());
                        data.push(0u8);
                        assert(data@ =~= text_payload(translations@[t as int].text@));
                        let size = data.len() as u16;
                        let s = Subrecord {
                            record_type_bytes: record.subrecords[j].record_type_bytes,
                            record_type: record.subrecords[j].record_type.clone(),
                            size,
                            data,
                        };
                        record.subrecords.set(j, s);
                        applied = applied + 1;
                        modified = true;
                        assert(new_text_at(ms, plugin_name@, ts, old_rec, translations@, j as int) is Some);
                    } else {
                        assert(translations@[t as int].text@.len() == 0);
                        assert(new_text_at(ms, plugin_name@, ts, old_rec, translations@, j as int) is None);
                    }
                },
                None => {
                    assert(new_text_at(ms, plugin_name@, ts, old_rec, translations@, j as int) is None);
                },
            }
            counter = counter + 1;
        } else {
            assert(new_text_at(ms, plugin_name@, ts, old_rec, translations@, j as int) is None);
        }
        j = j + 1;
    }
    record.is_modified = modified;
    applied
}

/// `new` is `old` with every record translated (see `record_translated`) and nothing else
/// changed, for the first `n` children.
pub open spec fn children_translated(masters: Seq<Seq<char>>, name: Seq<char>, router: DefaultStringRouter, ts: Seq<ExtractedString>, old: Group, new: Group, n: int) -> bool
    decreases old, n,
{
    if n <= 0 || n > old.children@.len() {
        true
    } else {
        &&& children_translated(masters, name, router, ts, old, new, n - 1)
        &&& match (old.children@[n - 1], new.children@[n - 1]) {
            (GroupChild::Group(a), GroupChild::Group(b)) => group_translated(masters, name, router, ts, *a, *b),
            (GroupChild::Record(a), GroupChild::Record(b)) => record_translated(masters, name, router, ts, a, b),
            _ => false,
        }
    }
}

/// `new` is `old` with every record translated and nothing else changed.
pub open spec fn group_translated(masters: Seq<Seq<char>>, name: Seq<char>, router: DefaultStringRouter, ts: Seq<ExtractedString>, old: Group, new: Group) -> bool
    decreases old, old.children@.len() + 1,
{
    &&& new.size == old.size
    &&& new.label == old.label
    &&& new.group_type == old.group_type
    &&& new.timestamp == old.timestamp
    &&& new.version_control_info == old.version_control_info
    &&& new.unknown == old.unknown
    &&& new.children@.len() == old.children@.len()
    &&& children_translated(masters, name, router, ts, old, new, old.children@.len() as int)
}

/// Writes the translations into every record of the group; returns how many subrecords were
/// given new text (saturating).
pub fn apply_translations_to_group(
    group: &mut Group,
    index: &KeyIndex,
    translations: &Vec<ExtractedString>,
    router: &DefaultStringRouter,
    masters: &Vec<String>,
    plugin_name: &str,
) -> (r: usize)
    requires
        indexes(*index, translations@),
    ensures
        group_translated(strings_of(masters@), plugin_name@, *router, translations@, *old(group), *final(group)),
        r == saturated(children_applied(strings_of(masters@), plugin_name@, *router, translations@, *old(group), old(group).children@.len() as int)),
    decreases *old(group),
{
    let ghost orig = *group;
    let ghost ms = strings_of(masters@);
    assert(orig == *old(group));
    let mut pending: Vec<GroupChild> = Vec::new();
    std::mem::swap(&mut pending, &mut group.children);
    let n = pending.len();
    let mut rev: Vec<GroupChild> = Vec::new();
    while pending.len() > 0
        invariant
            pending@.len() + rev@.len() == n,
            n == orig.children@.len(),
            forall|k: int| 0 <= k < pending@.len() ==> pending@[k] == orig.children@[k],
            forall|k: int| 0 <= k < rev@.len() ==> rev@[k] == orig.children@[n - 1 - k],
        decreases pending@.len(),
    {
        let c = pending.pop().unwrap();
        rev.push(c);
    }
    let mut total: usize = 0;
    while rev.len() > 0
        invariant
            rev@.len() + group.children@.len() == n,
            n == orig.children@.len(),
            orig == *old(group),
            ms == strings_of(masters@),
            total == saturated(children_applied(ms, plugin_name@, *router, translations@, orig, group.children@.len() as int)),
            indexes(*index, translations@),
            forall|k: int| 0 <= k < rev@.len() ==> rev@[k] == orig.children@[n - 1 - k],
            group.size == orig.size && group.label == orig.label && group.group_type == orig.group_type
                && group.timestamp == orig.timestamp && group.version_control_info == orig.version_control_info
                && group.unknown == orig.unknown,
            children_translated(ms, plugin_name@, *router, translations@, orig, *group, group.children@.len() as int),
        decreases rev@.len(),
    {
        let i = group.children.len();
        let c = rev.pop().unwrap();
        assert(c == orig.children@[i as int]);
        let ghost before = *group;
        let done = match c {
            GroupChild::Group(b) => {
                let mut g = *b;
                assert(decreases_to!(orig => g)) by {
                    assert(decreases_to!(orig => orig.children));
                    assert(decreases_to!(orig.children => orig.children@[i as int]));
                };
                let ghost g0 = g;
                let k = apply_translations_to_group(&mut g, index, translations, router, masters, plugin_name);
                total = total.saturating_add(k);
                let res = GroupChild::Group(Box::new(g));
                assert(match (orig.children@[i as int], res) {
                    (GroupChild::Group(a), GroupChild::Group(b)) => group_translated(ms, plugin_name@, *router, translations@, *a, *b),
                    (GroupChild::Record(a), GroupChild::Record(b)) => record_translated(ms, plugin_name@, *router, translations@, a, b),
                    _ => false,
                });
                res
            },
            GroupChild::Record(rec) => {
                let mut rec = rec;
                let k = apply_translations_to_record(&mut rec, index, translations, router, masters, plugin_name);
                total = total.saturating_add(k);
                let res = GroupChild::Record(rec);
                assert(match (orig.children@[i as int], res) {
                    (GroupChild::Group(a), GroupChild::Group(b)) => group_translated(ms, plugin_name@, *router, translations@, *a, *b),
                    (GroupChild::Record(a), GroupChild::Record(b)) => record_translated(ms, plugin_name@, *router, translations@, a, b),
                    _ => false,
                });
                res
            },
        };
        let ghost done_view = done;
        group.children.push(done);
        proof {
            lemma_children_translated_prefix(ms, plugin_name@, *router, translations@, orig, *group, before, i as int);
            assert(group.children@[i as int] == done_view);
            assert(children_translated(ms, plugin_name@, *router, translations@, orig, *group, i + 1));
        }
    }
    total
}

proof fn lemma_children_translated_prefix(masters: Seq<Seq<char>>, name: Seq<char>, router: DefaultStringRouter, ts: Seq<ExtractedString>, old: Group, a: Group, b: Group, m: int)
    requires
        0 <= m,
        m <= a.children@.len(),
        m <= b.children@.len(),
        forall|k: int| 0 <= k < m ==> a.children@[k] == b.children@[k],
    ensures
        children_translated(masters, name, router, ts, old, a, m) == children_translated(masters, name, router, ts, old, b, m),
    decreases m,
{
    if m > 0 {
        lemma_children_translated_prefix(masters, name, router, ts, old, a, b, m - 1);
    }
}

/// `new` is `old` with every record of every top-level group translated and nothing else changed.
pub open spec fn plugin_translated(ts: Seq<ExtractedString>, old: Plugin, new: Plugin) -> bool {
    &&& new.header == old.header
    &&& new.masters == old.masters
    &&& new.path == old.path
    &&& new.string_router == old.string_router
    &&& new.string_files == old.string_files
    &&& new.groups@.len() == old.groups@.len()
    &&& forall|i: int| 0 <= i < old.groups@.len() ==> group_translated(strings_of(old.masters@), old.path@, old.string_router, ts, #[trigger] old.groups@[i], new.groups@[i])
}

impl Plugin {
    /// Writes each translation into the subrecord whose key it carries (replaying the
    /// extraction walk); translations whose keys match nothing are skipped. Returns how many
    /// subrecords were given new text (saturating).
    pub fn apply_translation_map(&mut self, translations: &Vec<ExtractedString>) -> (r: usize)
        ensures
            plugin_translated(translations@, *old(self), *final(self)),
            r == saturated(groups_applied(strings_of(old(self).masters@), old(self).path@, old(self).string_router, translations@, old(self).groups@, old(self).groups@.len() as int)),
    {
        let index = build_translation_index(translations);
        let mut pending: Vec<Group> = Vec::new();
        std::mem::swap(&mut pending, &mut self.groups);
        let ghost orig = pending@;
        let n = pending.len();
        let mut rev: Vec<Group> = Vec::new();
        while pending.len() > 0
            invariant
                pending@.len() + rev@.len() == n,
                n == orig.len(),
                forall|k: int| 0 <= k < pending@.len() ==> pending@[k] == orig[k],
                forall|k: int| 0 <= k < rev@.len() ==> rev@[k] == orig[n - 1 - k],
            decreases pending@.len(),
        {
            let g = pending.pop().unwrap();
            rev.push(g);
        }
        let mut total: usize = 0;
        while rev.len() > 0
            invariant
                rev@.len() + self.groups@.len() == n,
                n == orig.len(),
                orig == old(self).groups@,
                total == saturated(groups_applied(strings_of(old(self).masters@), old(self).path@, old(self).string_router, translations@, orig, self.groups@.len() as int)),
                indexes(index, translations@),
                self.header == old(self).header && self.masters == old(self).masters && self.path == old(self).path
                    && self.string_router == old(self).string_router && self.string_files == old(self).string_files,
                forall|k: int| 0 <= k < rev@.len() ==> rev@[k] == orig[n - 1 - k],
                forall|k: int| 0 <= k < self.groups@.len() ==> group_translated(strings_of(old(self).masters@), old(self).path@, old(self).string_router, translations@, #[trigger] orig[k], self.groups@[k]),
            decreases rev@.len(),
        {
            let mut g = rev.pop().unwrap();
            let k = apply_translations_to_group(&mut g, &index, translations, &self.string_router, &self.masters, self.path.as_str());
            total = total.saturating_add(k);
            self.groups.push(g);
        }
        total
    }
}

proof fn lemma_no_match_no_index(ts: Seq<ExtractedString>, key: Seq<char>, n: int)
    requires
        0 <= n <= ts.len(),
        forall|i: int| 0 <= i < n ==> unit_key(#[trigger] ts[i].model()) != key,
    ensures
        last_index(ts, key, n) is None,
    decreases n,
{
    if n > 0 {
        lemma_no_match_no_index(ts, key, n - 1);
    }
}

/// Translations whose keys match no routed field of a record leave it unchanged: applying them
/// neither alters a subrecord nor marks the record modified.
pub proof fn lemma_unknown_keys_change_nothing(masters: Seq<Seq<char>>, name: Seq<char>, router: DefaultStringRouter, ts: Seq<ExtractedString>, old: Record, new: Record)
    requires
        record_translated(masters, name, router, ts, old, new),
        forall|types: Seq<Seq<char>>, i: int, j: int| router.types_of(old.record_type@) == Some(types) && 0 <= i < ts.len() && 0 <= j < old.subrecords@.len()
            ==> unit_key(#[trigger] ts[i].model()) != #[trigger] field_key(masters, name, types, old, j),
    ensures
        new.subrecords@ == old.subrecords@,
        new == (Record { subrecords: new.subrecords, ..old }),
{
    reveal(record_translated);
    match router.types_of(old.record_type@) {
        None => {},
        Some(types) => {
            assert forall|j: int| 0 <= j < old.subrecords@.len() implies #[trigger] new_text_at(masters, name, types, old, ts, j) is None by {
                let key = field_key(masters, name, types, old, j);
                assert forall|i: int| 0 <= i < ts.len() implies unit_key(#[trigger] ts[i].model()) != key by {}
                lemma_no_match_no_index(ts, key, ts.len() as int);
            }
            assert forall|j: int| 0 <= j < old.subrecords@.len() implies new.subrecords@[j] == old.subrecords@[j] by {
                assert(new_text_at(masters, name, types, old, ts, j) is None);
            }
            assert(new.subrecords@ =~= old.subrecords@);
        },
    }
}

/// No translation carries the key of a routed field of the record.
pub open spec fn keys_unknown_in_record(masters: Seq<Seq<char>>, name: Seq<char>, router: DefaultStringRouter, ts: Seq<ExtractedString>, r: Record) -> bool {
    forall|types: Seq<Seq<char>>, i: int, j: int| router.types_of(r.record_type@) == Some(types) && 0 <= i < ts.len() && 0 <= j < r.subrecords@.len()
        ==> unit_key(#[trigger] ts[i].model()) != #[trigger] field_key(masters, name, types, r, j)
}

/// No translation carries the key of a routed field of the first `n` children, at any depth.
pub open spec fn keys_unknown_in_children(masters: Seq<Seq<char>>, name: Seq<char>, router: DefaultStringRouter, ts: Seq<ExtractedString>, g: Group, n: int) -> bool
    decreases g, n,
{
    if n <= 0 || n > g.children@.len() {
        true
    } else {
        &&& keys_unknown_in_children(masters, name, router, ts, g, n - 1)
        &&& match g.children@[n - 1] {
            GroupChild::Group(sub) => keys_unknown_in_children(masters, name, router, ts, *sub, sub.children@.len() as int),
            GroupChild::Record(r) => keys_unknown_in_record(masters, name, router, ts, r),
        }
    }
}

proof fn lemma_unknown_keys_group(masters: Seq<Seq<char>>, name: Seq<char>, router: DefaultStringRouter, ts: Seq<ExtractedString>, old: Group, new: Group, n: int)
    requires
        0 <= n <= old.children@.len(),
        new.children@.len() == old.children@.len(),
        children_translated(masters, name, router, ts, old, new, n),
        keys_unknown_in_children(masters, name, router, ts, old, n),
    ensures
        children_bytes(new, n) == children_bytes(old, n),
    decreases old, n,
{
    if n > 0 {
        lemma_unknown_keys_group(masters, name, router, ts, old, new, n - 1);
        match (old.children@[n - 1], new.children@[n - 1]) {
            (GroupChild::Group(a), GroupChild::Group(b)) => {
                assert(decreases_to!(old => old.children));
                assert(group_translated(masters, name, router, ts, *a, *b));
                lemma_unknown_keys_group(masters, name, router, ts, *a, *b, a.children@.len() as int);
                assert(group_bytes(*b) == group_bytes(*a));
            },
            (GroupChild::Record(a), GroupChild::Record(b)) => {
                lemma_unknown_keys_change_nothing(masters, name, router, ts, a, b);
                assert(record_bytes(b) == record_bytes(a));
            },
            _ => {},
        }
    }
}

proof fn lemma_unknown_keys_groups(ts: Seq<ExtractedString>, old: Plugin, new: Plugin, n: int)
    requires
        0 <= n <= old.groups@.len(),
        plugin_translated(ts, old, new),
        forall|i: int| 0 <= i < old.groups@.len() ==> keys_unknown_in_children(strings_of(old.masters@), old.path@, old.string_router, ts, #[trigger] old.groups@[i], old.groups@[i].children@.len() as int),
    ensures
        groups_bytes(new.groups@, n) == groups_bytes(old.groups@, n),
    decreases n,
{
    if n > 0 {
        lemma_unknown_keys_groups(ts, old, new, n - 1);
        let a = old.groups@[n - 1];
        let b = new.groups@[n - 1];
        assert(group_translated(strings_of(old.masters@), old.path@, old.string_router, ts, a, b));
        lemma_unknown_keys_group(strings_of(old.masters@), old.path@, old.string_router, ts, a, b, a.children@.len() as int);
        assert(group_bytes(b) == group_bytes(a));
    }
}

/// Translations whose keys match no routed field anywhere in a plugin change nothing: the
/// plugin is written exactly as before (and applying them cannot fail).
pub proof fn lemma_unknown_keys_keep_plugin(ts: Seq<ExtractedString>, old: Plugin, new: Plugin)
    requires
        plugin_translated(ts, old, new),
        forall|i: int| 0 <= i < old.groups@.len() ==> keys_unknown_in_children(strings_of(old.masters@), old.path@, old.string_router, ts, #[trigger] old.groups@[i], old.groups@[i].children@.len() as int),
    ensures
        plugin_bytes(new) == plugin_bytes(old),
{
    lemma_unknown_keys_groups(ts, old, new, old.groups@.len() as int);
}

} // verus!
