//! Applying translations to the string tables of a localized plugin.
use vstd::prelude::*;
use crate::bytes::{u32_at, read_u32};
use crate::error::EspError;
use crate::extract::{routed, rank};
use crate::extracted::{ExtractedString, KeyIndex, key_index_contents, unit_key, format_form_id, make_unique_key, opt_text, form_id_text};
use crate::group::{Group, GroupChild};
use crate::plugin::{Plugin, kind_for, determine_string_file_type, strings_of};
use crate::record::{Record, editor_id_of};
use crate::router::{DefaultStringRouter, strings_view};
use crate::string_file::{StringFileType, EntryModel, entry_models, position_of, entry_updated};
use crate::string_set::{StringFileSet, set_model, set_updates, set_updates_count, lemma_set_update_step};
use crate::translate::{field_key, plugin_translated, saturated, groups_applied};

verus! {

/// Where a localized field's text lives: its key, the table kind and the string id.
pub type IdEntry = (Seq<char>, StringFileType, u32);

/// The id entries of the first `n` subrecords of a record: each routed subrecord of at least
/// four bytes, with the key extraction gives it.
pub open spec fn record_ids_upto(masters: Seq<Seq<char>>, name: Seq<char>, types: Seq<Seq<char>>, r: Record, n: int) -> Seq<IdEntry>
    decreases n,
{
    if n <= 0 || n > r.subrecords@.len() {
        Seq::empty()
    } else {
        record_ids_upto(masters, name, types, r, n - 1) + if routed(types, r.subrecords@[n - 1]) && r.subrecords@[n - 1].data@.len() >= 4 {
            seq![(field_key(masters, name, types, r, n - 1), kind_for(r.record_type@, r.subrecords@[n - 1].record_type@), u32_at(r.subrecords@[n - 1].data@, 0))]
        } else {
            Seq::empty()
        }
    }
}

/// The id entries of a record.
#[verifier::opaque]
pub open spec fn record_ids(masters: Seq<Seq<char>>, name: Seq<char>, router: DefaultStringRouter, r: Record) -> Seq<IdEntry> {
    match router.types_of(r.record_type@) {
        Some(types) => record_ids_upto(masters, name, types, r, r.subrecords@.len() as int),
        None => Seq::empty(),
    }
}

/// The id entries of the first `n` children of a group.
pub open spec fn children_ids(masters: Seq<Seq<char>>, name: Seq<char>, router: DefaultStringRouter, g: Group, n: int) -> Seq<IdEntry>
    decreases g, n,
{
    if n <= 0 || n > g.children@.len() {
        Seq::empty()
    } else {
        children_ids(masters, name, router, g, n - 1) + match g.children@[n - 1] {
            GroupChild::Group(sub) => group_ids(masters, name, router, *sub),
            GroupChild::Record(r) => record_ids(masters, name, router, r),
        }
    }
}

/// The id entries of a group, in file order.
pub open spec fn group_ids(masters: Seq<Seq<char>>, name: Seq<char>, router: DefaultStringRouter, g: Group) -> Seq<IdEntry>
    decreases g, g.children@.len() + 1,
{
    children_ids(masters, name, router, g, g.children@.len() as int)
}

/// The id entries of the first `n` top-level groups.
pub open spec fn plugin_ids_upto(p: Plugin, n: int) -> Seq<IdEntry>
    decreases n,
{
    if n <= 0 || n > p.groups@.len() {
        Seq::empty()
    } else {
        plugin_ids_upto(p, n - 1) + group_ids(strings_of(p.masters@), p.path@, p.string_router, p.groups@[n - 1])
    }
}

pub open spec fn id_entry_view(e: (String, StringFileType, u32)) -> IdEntry {
    (e.0@, e.1, e.2)
}

pub open spec fn id_entries_view(v: Seq<(String, StringFileType, u32)>) -> Seq<IdEntry> {
    v.map_values(|e: (String, StringFileType, u32)| id_entry_view(e))
}

fn append_ids(out: &mut Vec<(String, StringFileType, u32)>, part: Vec<(String, StringFileType, u32)>)
    ensures
        id_entries_view(final(out)@) == id_entries_view(old(out)@) + id_entries_view(part@),
{
    let mut part = part;
    let ghost added = part@;
    out.append(&mut part);
    assert(id_entries_view(out@) =~= id_entries_view(old(out)@) + id_entries_view(added));
}

/// Where each localized field of a record lives (key, table kind, string id), in order.
pub fn record_id_map(record: &Record, router: &DefaultStringRouter, masters: &Vec<String>, plugin_name: &str) -> (r: Vec<(String, StringFileType, u32)>)
    ensures
        id_entries_view(r@) == record_ids(strings_of(masters@), plugin_name@, *router, *record),
{
    reveal(record_ids);
    let mut out: Vec<(String, StringFileType, u32)> = Vec::new();
    let types = match router.get_string_subrecord_types(record.record_type.as_str()) {
        Some(ts) => ts,
        None => {
            assert(id_entries_view(out@) =~= Seq::<IdEntry>::empty());
            return out;
        },
    };
    let ghost ts = strings_view(types@);
    let ghost ms = strings_of(masters@);
    assert(router.types_of(record.record_type@) == Some(ts));
    let editor_id = record.get_editor_id();
    let form_id = format_form_id(record.form_id, masters, plugin_name);
    assert(masters@.map_values(|m: String| m@) == ms);
    let mut counter: usize = 0;
    let mut j: usize = 0;
    assert(id_entries_view(out@) =~= Seq::<IdEntry>::empty());
    while j < record.subrecords.len()
        invariant
            j <= record.subrecords@.len(),
            counter <= j,
            counter as int == rank(ts, record.subrecords@, j as int),
            ts == strings_view(types@),
            ms == strings_of(masters@),
            opt_text(editor_id) == editor_id_of(record.subrecords@),
            form_id@ == form_id_text(record.form_id, ms, plugin_name@),
            id_entries_view(out@) == record_ids_upto(ms, plugin_name@, ts, *record, j as int),
        decreases record.subrecords@.len() - j,
    {
        let s = &record.subrecords[j];
        let is_routed = s.is_string_type(types.as_slice());
        proof {
            if is_routed {
                let k = choose|k: int| 0 <= k < types@.len() && (#[trigger] types@[k])@ == s.record_type@;
                assert(ts[k] == s.record_type@);
            } else if ts.contains(s.record_type@) {
                let k = choose|k: int| 0 <= k < ts.len() && ts[k] == s.record_type@;
                assert(types@[k]@ == s.record_type@);
            }
        }
        if is_routed {
            match read_u32(s.data.as_slice(), 0) {
                Some(id) => {
                    let key = make_unique_key(&editor_id, form_id.as_str(), record.record_type.as_str(), s.record_type.as_str(), counter as i32);
                    let kind = determine_string_file_type(record.record_type.as_str(), s.record_type.as_str());
                    let ghost prev = out@;
                    out.push((key, kind, id));
                    assert(id_entries_view(out@) =~= id_entries_view(prev).push((key@, kind, id)));
                },
                None => {},
            }
            counter = counter + 1;
        }
        j = j + 1;
    }
    out
}

fn group_id_map(group: &Group, router: &DefaultStringRouter, masters: &Vec<String>, plugin_name: &str) -> (r: Vec<(String, StringFileType, u32)>)
    ensures
        id_entries_view(r@) == group_ids(strings_of(masters@), plugin_name@, *router, *group),
    decreases group,
{
    let mut out: Vec<(String, StringFileType, u32)> = Vec::new();
    let mut i: usize = 0;
    assert(id_entries_view(out@) =~= Seq::<IdEntry>::empty());
    while i < group.children.len()
        invariant
            i <= group.children@.len(),
            id_entries_view(out@) == children_ids(strings_of(masters@), plugin_name@, *router, *group, i as int),
        decreases group.children@.len() - i,
    {
        let part = match &group.children[i] {
            GroupChild::Group(sub) => group_id_map(sub, router, masters, plugin_name),
            GroupChild::Record(rec) => record_id_map(rec, router, masters, plugin_name),
        };
        proof {
            let c = match group.children@[i as int] {
                GroupChild::Group(sub) => group_ids(strings_of(masters@), plugin_name@, *router, *sub),
                GroupChild::Record(r) => record_ids(strings_of(masters@), plugin_name@, *router, r),
            };
            assert(id_entries_view(part@) == c);
            assert(children_ids(strings_of(masters@), plugin_name@, *router, *group, i + 1) == children_ids(strings_of(masters@), plugin_name@, *router, *group, i as int) + c);
        }
        append_ids(&mut out, part);
        i = i + 1;
    }
    out
}

/// The last id entry with this key.
pub open spec fn last_id_entry(es: Seq<IdEntry>, key: Seq<char>) -> Option<int>
    decreases es.len(),
{
    if es.len() == 0 {
        None
    } else if es.last().0 == key {
        Some(es.len() - 1)
    } else {
        last_id_entry(es.drop_last(), key)
    }
}

/// The table updates a list of translations resolves to: for each translation in order whose
/// key has an id entry (the last with that key), its kind, id and text.
pub open spec fn resolved_updates(es: Seq<IdEntry>, ts: Seq<ExtractedString>) -> Seq<(StringFileType, u32, Seq<char>)>
    decreases ts.len(),
{
    if ts.len() == 0 {
        Seq::empty()
    } else {
        resolved_updates(es, ts.drop_last()) + match last_id_entry(es, unit_key(ts.last().model())) {
            Some(i) => seq![(es[i].1, es[i].2, ts.last().text@)],
            None => Seq::empty(),
        }
    }
}

impl Plugin {
    /// Where each localized field's text lives (key, table kind, string id), in file order.
    pub fn build_string_id_map(&self) -> (r: Vec<(String, StringFileType, u32)>)
        ensures
            id_entries_view(r@) == plugin_ids_upto(*self, self.groups@.len() as int),
    {
        let mut out: Vec<(String, StringFileType, u32)> = Vec::new();
        let mut i: usize = 0;
        assert(id_entries_view(out@) =~= Seq::<IdEntry>::empty());
        while i < self.groups.len()
            invariant
                i <= self.groups@.len(),
                id_entries_view(out@) == plugin_ids_upto(*self, i as int),
            decreases self.groups@.len() - i,
        {
            let part = group_id_map(&self.groups[i], &self.string_router, &self.masters, self.path.as_str());
            append_ids(&mut out, part);
            i = i + 1;
        }
        out
    }
}

fn index_id_entries(entries: &Vec<(String, StringFileType, u32)>) -> (r: KeyIndex)
    ensures
        forall|key: Seq<char>| #[trigger] key_index_contents(r).contains_key(key) == (last_id_entry(id_entries_view(entries@), key) is Some)
            && (key_index_contents(r).contains_key(key) ==> key_index_contents(r)[key] as int == last_id_entry(id_entries_view(entries@), key)->0),
{
    let mut k = KeyIndex::new();
    let mut i: usize = 0;
    let ghost es = id_entries_view(entries@);
    while i < entries.len()
        invariant
            i <= entries@.len(),
            es == id_entries_view(entries@),
            forall|key: Seq<char>| #[trigger] key_index_contents(k).contains_key(key) == (last_id_entry(es.subrange(0, i as int), key) is Some)
                && (key_index_contents(k).contains_key(key) ==> key_index_contents(k)[key] as int == last_id_entry(es.subrange(0, i as int), key)->0),
        decreases entries@.len() - i,
    {
        let key = entries[i].0.clone();
        proof {
            assert(es.subrange(0, i + 1).drop_last() =~= es.subrange(0, i as int));
            assert(es.subrange(0, i + 1).last() == es[i as int]);
        }
        k.insert(key, i);
        i = i + 1;
    }
    assert(es.subrange(0, i as int) =~= es);
    k
}

proof fn lemma_last_id_entry_bounds(es: Seq<IdEntry>, key: Seq<char>)
    ensures
        last_id_entry(es, key) matches Some(i) ==> 0 <= i < es.len() && es[i].0 == key,
    decreases es.len(),
{
    if es.len() > 0 && es.last().0 != key {
        lemma_last_id_entry_bounds(es.drop_last(), key);
    }
}

impl Plugin {
    /// Writes each translation into the string-table entry its key resolves to (through the
    /// string-id map rebuilt from the plugin); keys that resolve to nothing, and entries that do
    /// not exist, are skipped. Fails, changing nothing, when no tables are loaded. Returns how
    /// many entries were updated.
    pub fn apply_translations_to_string_files(&mut self, translations: &Vec<ExtractedString>) -> (r: Result<usize, EspError>)
        requires
            old(self).wf(),
        ensures
            old(self).string_files is None ==> r is Err && *final(self) == *old(self),
            old(self).string_files is Some ==> r is Ok && final(self).wf() && final(self).string_files is Some
                && set_model(final(self).string_files->0) == set_updates(
                    set_model(old(self).string_files->0),
                    resolved_updates(plugin_ids_upto(*old(self), old(self).groups@.len() as int), translations@),
                )
                && r->Ok_0 == saturated(set_updates_count(
                    set_model(old(self).string_files->0),
                    resolved_updates(plugin_ids_upto(*old(self), old(self).groups@.len() as int), translations@),
                )),
            final(self).groups == old(self).groups && final(self).header == old(self).header
                && final(self).masters == old(self).masters && final(self).path == old(self).path
                && final(self).string_router == old(self).string_router,
    {
        if self.string_files.is_none() {
            return Err(EspError::NotFound);
        }
        let entries = self.build_string_id_map();
        let ghost es = id_entries_view(entries@);
        let index = index_id_entries(&entries);
        let mut taken: Option<StringFileSet> = None;
        std::mem::swap(&mut taken, &mut self.string_files);
        let mut set = taken.unwrap();
        let ghost m0 = set_model(set);
        let mut applied: usize = 0;
        let mut i: usize = 0;
        while i < translations.len()
            invariant
                i <= translations@.len(),
                set.wf(),
                es == id_entries_view(entries@),
                forall|key: Seq<char>| #[trigger] key_index_contents(index).contains_key(key) == (last_id_entry(es, key) is Some)
                    && (key_index_contents(index).contains_key(key) ==> key_index_contents(index)[key] as int == last_id_entry(es, key)->0),
                set_model(set) == set_updates(m0, resolved_updates(es, translations@.subrange(0, i as int))),
                applied == saturated(set_updates_count(m0, resolved_updates(es, translations@.subrange(0, i as int)))),
            decreases translations@.len() - i,
        {
            let key = translations[i].get_unique_key();
            proof {
                assert(translations@.subrange(0, i + 1).drop_last() =~= translations@.subrange(0, i as int));
                lemma_last_id_entry_bounds(es, key@);
            }
            match index.get(&key) {
                Some(k) => {
                    let kind = entries[k].1;
                    let id = entries[k].2;
                    let text = translations[i].text.clone();
                    let ghost before = set;
                    let ghost found = set.file_spec(kind) is Some && position_of(entry_models(set.file_spec(kind)->0.entries@), id) is Some;
                    let res = set.update_string(kind, id, text);
                    proof {
                        let u = resolved_updates(es, translations@.subrange(0, i + 1));
                        assert(u.drop_last() == resolved_updates(es, translations@.subrange(0, i as int)));
                        assert(u.last() == (kind, id, translations@[i as int].text@));
                        lemma_set_update_step(before, set, kind, id, translations@[i as int].text@);
                    }
                    assert(res is Ok <==> found);
                    if res.is_ok() {
                        applied = applied.saturating_add(1);
                    }
                },
                None => {
                    proof {
                        assert(resolved_updates(es, translations@.subrange(0, i + 1)) == resolved_updates(es, translations@.subrange(0, i as int)));
                    }
                },
            }
            i = i + 1;
        }
        assert(translations@.subrange(0, i as int) =~= translations@);
        self.string_files = Some(set);
        Ok(applied)
    }
}


impl Plugin {
    /// Applies translations to the string tables of a localized plugin, or to the plugin's own
    /// subrecords otherwise; returns how many fields were updated.
    pub fn apply_translations_unified(&mut self, translations: &Vec<ExtractedString>) -> (r: Result<usize, EspError>)
        requires
            old(self).wf(),
        ensures
            old(self).header.flags & 0x80 != 0 ==> (old(self).string_files is None ==> r is Err && *final(self) == *old(self))
                && (old(self).string_files is Some ==> r is Ok && final(self).string_files is Some && set_model(final(self).string_files->0) == set_updates(
                    set_model(old(self).string_files->0),
                    resolved_updates(plugin_ids_upto(*old(self), old(self).groups@.len() as int), translations@),
                ) && r->Ok_0 == saturated(set_updates_count(
                    set_model(old(self).string_files->0),
                    resolved_updates(plugin_ids_upto(*old(self), old(self).groups@.len() as int), translations@),
                )) && final(self).groups == old(self).groups),
            old(self).header.flags & 0x80 == 0 ==> r is Ok && plugin_translated(translations@, *old(self), *final(self))
                && r->Ok_0 == saturated(groups_applied(strings_of(old(self).masters@), old(self).path@, old(self).string_router, translations@, old(self).groups@, old(self).groups@.len() as int)),
    {
        if self.is_localized() {
            self.apply_translations_to_string_files(translations)
        } else {
            Ok(self.apply_translation_map(translations))
        }
    }
}

} // verus!
