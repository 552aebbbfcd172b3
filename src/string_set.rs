//! The string tables of one plugin and language, one per kind.
use vstd::prelude::*;
use crate::error::EspError;
use crate::string_file::{
    StringFile, StringFileType, StringEntry, EntryModel, entry_models, position_of, entry_updated,
    updates_applied, update_models, table_read,
};

verus! {

/// The position of the table of kind `t`.
pub open spec fn kind_position(files: Seq<(StringFileType, StringFile)>, t: StringFileType) -> Option<int> {
    if exists|i: int| 0 <= i < files.len() && (#[trigger] files[i]).0 == t {
        Some(choose|i: int| 0 <= i < files.len() && (#[trigger] files[i]).0 == t)
    } else {
        None
    }
}

/// The string tables of one plugin and language.
#[derive(Debug, Clone)]
pub struct StringFileSet {
    /// The tables, each under its kind; a kind appears at most once.
    pub files: Vec<(StringFileType, StringFile)>,
    pub plugin_name: String,
    pub language: String,
}

/// The lookup order of `get_string`.
pub open spec fn lookup_order() -> Seq<StringFileType> {
    seq![StringFileType::STRINGS, StringFileType::ILSTRINGS, StringFileType::DLSTRINGS]
}

impl StringFileSet {
    /// Kinds are unique and every table is well formed.
    pub open spec fn wf(&self) -> bool {
        &&& forall|i: int, j: int| 0 <= i < j < self.files@.len() ==> (#[trigger] self.files@[i]).0 != (#[trigger] self.files@[j]).0
        &&& forall|i: int| 0 <= i < self.files@.len() ==> (#[trigger] self.files@[i]).1.wf()
    }

    /// The table of kind `t`.
    pub open spec fn file_spec(&self, t: StringFileType) -> Option<StringFile> {
        match kind_position(self.files@, t) {
            Some(i) => Some(self.files@[i].1),
            None => None,
        }
    }

    /// An empty set.
    pub fn new(plugin_name: String, language: String) -> (r: StringFileSet)
        ensures
            r.wf(),
            r.files@.len() == 0,
            r.plugin_name@ == plugin_name@,
            r.language@ == language@,
    {
        StringFileSet { files: Vec::new(), plugin_name, language }
    }

    fn position(&self, t: StringFileType) -> (r: Option<usize>)
        requires
            self.wf(),
        ensures
            match r {
                Some(i) => kind_position(self.files@, t) == Some(i as int) && i < self.files@.len(),
                None => kind_position(self.files@, t) is None,
            },
    {
        let mut i: usize = 0;
        while i < self.files.len()
            invariant
                i <= self.files@.len(),
                self.wf(),
                forall|k: int| 0 <= k < i ==> (#[trigger] self.files@[k]).0 != t,
            decreases self.files@.len() - i,
        {
            if self.files[i].0 == t {
                proof {
                    let k = choose|k: int| 0 <= k < self.files@.len() && (#[trigger] self.files@[k]).0 == t;
                    if k != i as int {
                        if k > i {
                            assert(self.files@[i as int].0 != self.files@[k].0);
                        }
                    }
                }
                return Some(i);
            }
            i = i + 1;
        }
        None
    }

    /// Reads a table of each given kind from bytes (a later kind replaces an earlier one).
    pub fn from_memory(files_data: Vec<(StringFileType, Vec<u8>)>, plugin_name: String, language: String) -> (r: Result<StringFileSet, EspError>)
        ensures
            match r {
                Ok(s) => s.wf() && s.plugin_name@ == plugin_name@ && s.language@ == language@
                    && forall|t: StringFileType| #[trigger] read_file_for(files_data@, t, files_data@.len() as int, s),
                Err(_) => exists|i: int| 0 <= i < files_data@.len() && table_read(files_data@[i].1@, files_data@[i].0) is None,
            },
    {
        let mut set = StringFileSet::new(plugin_name.clone(), language.clone());
        let mut i: usize = 0;
        while i < files_data.len()
            invariant
                i <= files_data@.len(),
                set.wf(),
                set.plugin_name@ == plugin_name@,
                set.language@ == language@,
                forall|t: StringFileType| #[trigger] read_file_for(files_data@, t, i as int, set),
            decreases files_data@.len() - i,
        {
            let t = files_data[i].0;
            match StringFile::from_bytes(files_data[i].1.as_slice(), plugin_name.clone(), language.clone(), t) {
                Ok(f) => {
                    let ghost before = set;
                    set.add_file(t, f);
                    proof {
                        assert forall|u: StringFileType| #[trigger] read_file_for(files_data@, u, i + 1, set) by {
                            if u != t {
                                assert(read_file_for(files_data@, u, i as int, before));
                                assert(set.file_spec(u) == before.file_spec(u));
                                assert(last_data_for(files_data@, u, i + 1) == last_data_for(files_data@, u, i as int));
                            }
                        }
                    }
                },
                Err(e) => return Err(e),
            }
            i = i + 1;
        }
        Ok(set)
    }

    /// The table of kind `file_type`.
    pub fn get_file(&self, file_type: &StringFileType) -> (r: Option<&StringFile>)
        requires
            self.wf(),
        ensures
            match self.file_spec(*file_type) {
                Some(f) => r == Some(&f),
                None => r is None,
            },
    {
        match self.position(*file_type) {
            Some(i) => Some(&self.files[i].1),
            None => None,
        }
    }

    /// The table of kind `file_type`, to change in place (the caller keeps its entries in id
    /// order).
    pub fn get_file_mut(&mut self, file_type: &StringFileType) -> (r: Option<&mut StringFile>)
        requires
            old(self).wf(),
        ensures
            match kind_position(old(self).files@, *file_type) {
                Some(i) => r matches Some(f) && *f == old(self).files@[i].1
                    && final(self).files@ == old(self).files@.update(i, (*file_type, *final(f)))
                    && final(self).plugin_name == old(self).plugin_name && final(self).language == old(self).language,
                None => r is None && *final(self) == *old(self),
            },
    {
        match self.position(*file_type) {
            Some(i) => {
                proof {
                    assert(self.files@[i as int].0 == *file_type);
                }
                Some(&mut self.files[i].1)
            },
            None => None,
        }
    }

    /// Puts a table under kind `file_type`, replacing any table of that kind.
    pub fn add_file(&mut self, file_type: StringFileType, string_file: StringFile)
        requires
            old(self).wf(),
            string_file.wf(),
        ensures
            final(self).wf(),
            final(self).plugin_name == old(self).plugin_name,
            final(self).language == old(self).language,
            final(self).file_spec(file_type) == Some(string_file),
            forall|t: StringFileType| t != file_type ==> (#[trigger] final(self).file_spec(t)) == old(self).file_spec(t),
    {
        let ghost before = self.files@;
        match self.position(file_type) {
            Some(i) => {
                self.files.set(i, (file_type, string_file));
                proof {
                    assert forall|t: StringFileType| t != file_type implies (#[trigger] self.file_spec(t)) == old(self).file_spec(t) by {
                        if kind_position(before, t) is Some {
                            let k = kind_position(before, t)->0;
                            assert(self.files@[k].0 == t);
                        }
                        if kind_position(self.files@, t) is Some {
                            let k = kind_position(self.files@, t)->0;
                            assert(before[k].0 == t);
                        }
                    }
                    assert(self.files@[i as int].0 == file_type);
                }
            },
            None => {
                self.files.push((file_type, string_file));
                proof {
                    let n = before.len() as int;
                    assert(self.files@[n].0 == file_type);
                    assert forall|t: StringFileType| t != file_type implies (#[trigger] self.file_spec(t)) == old(self).file_spec(t) by {
                        if kind_position(before, t) is Some {
                            let k = kind_position(before, t)->0;
                            assert(self.files@[k].0 == t);
                        }
                        if kind_position(self.files@, t) is Some {
                            let k = kind_position(self.files@, t)->0;
                            assert(k != n);
                            assert(before[k].0 == t);
                        }
                    }
                }
            },
        }
    }

    /// The entry with this id in the table of kind `file_type`.
    pub fn get_string_by_type(&self, file_type: StringFileType, id: u32) -> (r: Option<&StringEntry>)
        requires
            self.wf(),
        ensures
            match self.file_spec(file_type) {
                Some(f) => match position_of(entry_models(f.entries@), id) {
                    Some(k) => r == Some(&f.entries@[k]),
                    None => r is None,
                },
                None => r is None,
            },
    {
        match self.position(file_type) {
            Some(i) => self.files[i].1.get_string(id),
            None => None,
        }
    }

    /// The entry with this id, looked up in the general, interface and dialog tables in turn.
    pub fn get_string(&self, id: u32) -> (r: Option<&StringEntry>)
        requires
            self.wf(),
        ensures
            r is Some <==> exists|k: int| 0 <= k < 3 && #[trigger] self.has_id(lookup_order()[k], id),
            r is Some ==> exists|k: int| 0 <= k < 3 && #[trigger] self.has_id(lookup_order()[k], id)
                && r->0.id == id && (forall|j: int| 0 <= j < k ==> !#[trigger] self.has_id(lookup_order()[j], id))
                && Some(*r->0) == self.entry_spec(lookup_order()[k], id),
    {
        let a = self.get_string_by_type(StringFileType::STRINGS, id);
        if a.is_some() {
            assert(self.has_id(lookup_order()[0], id));
            return a;
        }
        let b = self.get_string_by_type(StringFileType::ILSTRINGS, id);
        if b.is_some() {
            assert(self.has_id(lookup_order()[1], id));
            assert(!self.has_id(lookup_order()[0], id));
            return b;
        }
        let c = self.get_string_by_type(StringFileType::DLSTRINGS, id);
        assert(!self.has_id(lookup_order()[0], id));
        assert(!self.has_id(lookup_order()[1], id));
        if c.is_some() {
            assert(self.has_id(lookup_order()[2], id));
        } else {
            assert(!self.has_id(lookup_order()[2], id));
        }
        c
    }

    /// Whether the table of kind `t` holds an entry with this id.
    pub open spec fn has_id(&self, t: StringFileType, id: u32) -> bool {
        self.entry_spec(t, id) is Some
    }

    /// The entry with this id in the table of kind `t`.
    pub open spec fn entry_spec(&self, t: StringFileType, id: u32) -> Option<StringEntry> {
        match self.file_spec(t) {
            Some(f) => match position_of(entry_models(f.entries@), id) {
                Some(k) => Some(f.entries@[k]),
                None => None,
            },
            None => None,
        }
    }

    /// The number of entries over all tables (saturating at `usize::MAX`).
    pub fn total_count(&self) -> (r: usize)
        ensures
            r as int == if total_entries(self.files@, self.files@.len() as int) > usize::MAX {
                usize::MAX as int
            } else {
                total_entries(self.files@, self.files@.len() as int)
            },
    {
        let mut total: usize = 0;
        let mut i: usize = 0;
        while i < self.files.len()
            invariant
                i <= self.files@.len(),
                total as int == if total_entries(self.files@, i as int) > usize::MAX {
                    usize::MAX as int
                } else {
                    total_entries(self.files@, i as int)
                },
            decreases self.files@.len() - i,
        {
            total = total.saturating_add(self.files[i].1.count());
            i = i + 1;
        }
        total
    }

    /// Replaces the text of entry `id` in the table of kind `file_type`; fails if there is no
    /// such table or entry.
    pub fn update_string(&mut self, file_type: StringFileType, id: u32, new_content: String) -> (r: Result<(), EspError>)
        requires
            old(self).wf(),
        ensures
            final(self).wf(),
            final(self).plugin_name == old(self).plugin_name,
            final(self).language == old(self).language,
            forall|t: StringFileType| t != file_type ==> (#[trigger] final(self).file_spec(t)) == old(self).file_spec(t),
            match old(self).file_spec(file_type) {
                Some(f) => match position_of(entry_models(f.entries@), id) {
                    Some(k) => r is Ok && final(self).file_spec(file_type) is Some && entry_models(final(self).file_spec(file_type)->0.entries@)
                        == entry_models(f.entries@).update(k, entry_updated(entry_models(f.entries@)[k], new_content@)),
                    None => r is Err && final(self).file_spec(file_type) is Some && final(self).file_spec(file_type)->0.entries@ == f.entries@,
                },
                None => r is Err && final(self).file_spec(file_type) is None,
            },
    {
        match self.position(file_type) {
            Some(i) => {
                let ghost before = self.files@;
                let (k, mut f) = self.files.remove(i);
                let r = f.update_string(id, new_content);
                self.files.insert(i, (k, f));
                proof {
                    assert(self.files@ =~= before.update(i as int, (k, f)));
                    assert forall|a: int, b: int| 0 <= a < b < self.files@.len() implies (#[trigger] self.files@[a]).0 != (#[trigger] self.files@[b]).0 by {
                        assert(before[a].0 != before[b].0);
                    }
                    assert forall|t: StringFileType| t != file_type implies (#[trigger] self.file_spec(t)) == old(self).file_spec(t) by {
                        if kind_position(before, t) is Some {
                            let q = kind_position(before, t)->0;
                            assert(self.files@[q].0 == t);
                        }
                        if kind_position(self.files@, t) is Some {
                            let q = kind_position(self.files@, t)->0;
                            assert(before[q].0 == t);
                        }
                    }
                    assert(self.files@[i as int].0 == file_type);
                }
                r
            },
            None => Err(EspError::NotFound),
        }
    }

    /// Applies the updates in order to the table of kind `file_type`; fails if there is no such
    /// table or an id has no entry (stopping there).
    pub fn update_strings(&mut self, file_type: StringFileType, updates: Vec<(u32, String)>) -> (r: Result<(), EspError>)
        requires
            old(self).wf(),
        ensures
            final(self).wf(),
            forall|t: StringFileType| t != file_type ==> (#[trigger] final(self).file_spec(t)) == old(self).file_spec(t),
            old(self).file_spec(file_type) is None ==> r is Err,
            old(self).file_spec(file_type) is Some ==> (r is Ok <==> updates_applied(entry_models(old(self).file_spec(file_type)->0.entries@), update_models(updates@)) is Some),
            r is Ok ==> final(self).file_spec(file_type) is Some && Some(entry_models(final(self).file_spec(file_type)->0.entries@))
                == updates_applied(entry_models(old(self).file_spec(file_type)->0.entries@), update_models(updates@)),
    {
        match self.position(file_type) {
            Some(i) => {
                let ghost before = self.files@;
                let (k, mut f) = self.files.remove(i);
                let r = f.update_strings(updates);
                self.files.insert(i, (k, f));
                proof {
                    assert(self.files@ =~= before.update(i as int, (k, f)));
                    assert forall|a: int, b: int| 0 <= a < b < self.files@.len() implies (#[trigger] self.files@[a]).0 != (#[trigger] self.files@[b]).0 by {
                        assert(before[a].0 != before[b].0);
                    }
                    assert forall|t: StringFileType| t != file_type implies (#[trigger] self.file_spec(t)) == old(self).file_spec(t) by {
                        if kind_position(before, t) is Some {
                            let q = kind_position(before, t)->0;
                            assert(self.files@[q].0 == t);
                        }
                        if kind_position(self.files@, t) is Some {
                            let q = kind_position(self.files@, t)->0;
                            assert(before[q].0 == t);
                        }
                    }
                    assert(self.files@[i as int].0 == file_type);
                }
                r
            },
            None => Err(EspError::NotFound),
        }
    }

    /// Applies `((kind, id), text)` updates in order; stops with an error at the first one whose
    /// table or entry is missing.
    pub fn apply_translations(&mut self, translations: &Vec<((StringFileType, u32), String)>) -> (r: Result<(), EspError>)
        requires
            old(self).wf(),
        ensures
            final(self).wf(),
            final(self).plugin_name == old(self).plugin_name,
            final(self).language == old(self).language,
            r is Ok <==> set_updates_strict(set_model(*old(self)), keyed_updates(translations@)) is Some,
            r is Ok ==> Some(set_model(*final(self))) == set_updates_strict(set_model(*old(self)), keyed_updates(translations@)),
    {
        let ghost m0 = set_model(*self);
        let ghost ku = keyed_updates(translations@);
        let mut i: usize = 0;
        assert(ku.subrange(0, 0) =~= Seq::<(StringFileType, u32, Seq<char>)>::empty());
        while i < translations.len()
            invariant
                i <= translations@.len(),
                self.wf(),
                self.plugin_name == old(self).plugin_name,
                self.language == old(self).language,
                m0 == set_model(*old(self)),
                ku == keyed_updates(translations@),
                set_updates_strict(m0, ku.subrange(0, i as int)) == Some(set_model(*self)),
            decreases translations@.len() - i,
        {
            let kind = translations[i].0.0;
            let id = translations[i].0.1;
            let text = translations[i].1.clone();
            let ghost before = *self;
            let res = self.update_string(kind, id, text);
            proof {
                assert(ku.subrange(0, i + 1).drop_last() =~= ku.subrange(0, i as int));
                assert(ku.subrange(0, i + 1).last() == (kind, id, translations@[i as int].1@));
                lemma_set_update_step(before, *self, kind, id, translations@[i as int].1@);
            }
            match res {
                Ok(()) => {},
                Err(e) => {
                    proof {
                        lemma_strict_none_extends(m0, ku, i + 1);
                    }
                    return Err(e);
                },
            }
            i = i + 1;
        }
        assert(ku.subrange(0, i as int) =~= ku);
        Ok(())
    }

    /// Every id of every table, ascending, each once.
    pub fn get_all_string_ids(&self) -> (r: Vec<u32>)
        ensures
            forall|a: int, b: int| 0 <= a < b < r@.len() ==> r@[a] < r@[b],
            forall|id: u32| r@.contains(id) <==> exists|i: int, k: int| 0 <= i < self.files@.len() && 0 <= k < self.files@[i].1.entries@.len() && (#[trigger] self.files@[i].1.entries@[k]).id == id,
    {
        let mut r: Vec<u32> = Vec::new();
        let mut i: usize = 0;
        while i < self.files.len()
            invariant
                i <= self.files@.len(),
                forall|a: int, b: int| 0 <= a < b < r@.len() ==> r@[a] < r@[b],
                forall|id: u32| r@.contains(id) <==> exists|fi: int, k: int| 0 <= fi < i && 0 <= k < self.files@[fi].1.entries@.len() && (#[trigger] self.files@[fi].1.entries@[k]).id == id,
            decreases self.files@.len() - i,
        {
            let entries = &self.files[i].1.entries;
            let mut k: usize = 0;
            while k < entries.len()
                invariant
                    i < self.files@.len(),
                    entries == &self.files@[i as int].1.entries,
                    k <= entries@.len(),
                    forall|a: int, b: int| 0 <= a < b < r@.len() ==> r@[a] < r@[b],
                    forall|id: u32| r@.contains(id) <==> (exists|fi: int, q: int| 0 <= fi < i && 0 <= q < self.files@[fi].1.entries@.len() && (#[trigger] self.files@[fi].1.entries@[q]).id == id)
                        || (exists|q: int| 0 <= q < k && (#[trigger] entries@[q]).id == id),
                decreases entries@.len() - k,
            {
                let id = entries[k].id;
                insert_id(&mut r, id);
                proof {
                    assert forall|x: u32| r@.contains(x) <==> (exists|fi: int, q: int| 0 <= fi < i && 0 <= q < self.files@[fi].1.entries@.len() && (#[trigger] self.files@[fi].1.entries@[q]).id == x)
                        || (exists|q: int| 0 <= q < k + 1 && (#[trigger] entries@[q]).id == x) by {
                        if x == id {
                            assert(entries@[k as int].id == x);
                        } else if exists|q: int| 0 <= q < k + 1 && (#[trigger] entries@[q]).id == x {
                            let q = choose|q: int| 0 <= q < k + 1 && (#[trigger] entries@[q]).id == x;
                            assert(q < k);
                        }
                    }
                }
                k = k + 1;
            }
            proof {
                assert forall|x: u32| r@.contains(x) <==> exists|fi: int, q: int| 0 <= fi < i + 1 && 0 <= q < self.files@[fi].1.entries@.len() && (#[trigger] self.files@[fi].1.entries@[q]).id == x by {
                    if exists|q: int| 0 <= q < k && (#[trigger] entries@[q]).id == x {
                        let q = choose|q: int| 0 <= q < k && (#[trigger] entries@[q]).id == x;
                        assert(self.files@[i as int].1.entries@[q].id == x);
                    }
                    if exists|fi: int, q: int| 0 <= fi < i + 1 && 0 <= q < self.files@[fi].1.entries@.len() && (#[trigger] self.files@[fi].1.entries@[q]).id == x {
                        let (fi, q) = choose|fi: int, q: int| 0 <= fi < i + 1 && 0 <= q < self.files@[fi].1.entries@.len() && (#[trigger] self.files@[fi].1.entries@[q]).id == x;
                        if fi == i {
                            assert(entries@[q].id == x);
                        }
                    }
                }
            }
            i = i + 1;
        }
        r
    }
}

fn insert_id(v: &mut Vec<u32>, id: u32)
    requires
        forall|a: int, b: int| 0 <= a < b < old(v)@.len() ==> old(v)@[a] < old(v)@[b],
    ensures
        forall|a: int, b: int| 0 <= a < b < final(v)@.len() ==> final(v)@[a] < final(v)@[b],
        forall|x: u32| final(v)@.contains(x) <==> (old(v)@.contains(x) || x == id),
{
    let mut pos: usize = 0;
    while pos < v.len() && v[pos] < id
        invariant
            pos <= v@.len(),
            v@ == old(v)@,
            forall|q: int| 0 <= q < pos ==> v@[q] < id,
        decreases v@.len() - pos,
    {
        pos = pos + 1;
    }
    if pos < v.len() && v[pos] == id {
        assert(v@[pos as int] == id);
        return;
    }
    let ghost before = v@;
    assert(before == old(v)@);
    v.insert(pos, id);
    proof {
        assert forall|x: u32| #[trigger] v@.contains(x) implies (before.contains(x) || x == id) by {
            let q = choose|q: int| 0 <= q < v@.len() && v@[q] == x;
            if q < pos {
                assert(before[q] == x);
                assert(before.contains(x));
            } else if q > pos {
                assert(before[q - 1] == x);
                assert(before.contains(x));
            }
        }
        assert forall|x: u32| (before.contains(x) || x == id) implies #[trigger] v@.contains(x) by {
            if x == id {
                assert(v@[pos as int] == x);
            } else {
                let q = choose|q: int| 0 <= q < before.len() && before[q] == x;
                if q < pos {
                    assert(v@[q] == x);
                } else {
                    assert(v@[q + 1] == x);
                }
            }
        }
    }
}

/// The number of entries in the first `n` tables.
pub open spec fn total_entries(files: Seq<(StringFileType, StringFile)>, n: int) -> int
    decreases n,
{
    if n <= 0 {
        0
    } else {
        total_entries(files, n - 1) + files[n - 1].1.entries@.len()
    }
}
/// The tables of a set as data: each kind present, with its entries.
pub open spec fn set_model(s: StringFileSet) -> Map<StringFileType, Seq<EntryModel>> {
    Map::new(|t: StringFileType| s.file_spec(t) is Some, |t: StringFileType| entry_models(s.file_spec(t)->0.entries@))
}

/// The tables after the updates in order; an update whose kind or id is missing is skipped.
pub open spec fn set_updates(m: Map<StringFileType, Seq<EntryModel>>, u: Seq<(StringFileType, u32, Seq<char>)>) -> Map<StringFileType, Seq<EntryModel>>
    decreases u.len(),
{
    if u.len() == 0 {
        m
    } else {
        let prev = set_updates(m, u.drop_last());
        let (k, id, text) = u.last();
        if prev.contains_key(k) {
            match position_of(prev[k], id) {
                Some(i) => prev.insert(k, prev[k].update(i, entry_updated(prev[k][i], text))),
                None => prev,
            }
        } else {
            prev
        }
    }
}

/// How many of the updates found their kind and id (see `set_updates`).
pub open spec fn set_updates_count(m: Map<StringFileType, Seq<EntryModel>>, u: Seq<(StringFileType, u32, Seq<char>)>) -> nat
    decreases u.len(),
{
    if u.len() == 0 {
        0
    } else {
        let prev = set_updates(m, u.drop_last());
        let (k, id, _) = u.last();
        set_updates_count(m, u.drop_last()) + if prev.contains_key(k) && position_of(prev[k], id) is Some { 1nat } else { 0nat }
    }
}

/// The tables after the updates in order, or `None` once one names a missing kind or id.
pub open spec fn set_updates_strict(m: Map<StringFileType, Seq<EntryModel>>, u: Seq<(StringFileType, u32, Seq<char>)>) -> Option<Map<StringFileType, Seq<EntryModel>>>
    decreases u.len(),
{
    if u.len() == 0 {
        Some(m)
    } else {
        match set_updates_strict(m, u.drop_last()) {
            None => None,
            Some(prev) => {
                let (k, id, text) = u.last();
                if prev.contains_key(k) {
                    match position_of(prev[k], id) {
                        Some(i) => Some(prev.insert(k, prev[k].update(i, entry_updated(prev[k][i], text)))),
                        None => None,
                    }
                } else {
                    None
                }
            },
        }
    }
}

/// Keyed updates `((kind, id), text)` as data.
pub open spec fn keyed_updates(u: Seq<((StringFileType, u32), String)>) -> Seq<(StringFileType, u32, Seq<char>)> {
    u.map_values(|x: ((StringFileType, u32), String)| (x.0.0, x.0.1, x.1@))
}

proof fn lemma_strict_none_extends(m: Map<StringFileType, Seq<EntryModel>>, u: Seq<(StringFileType, u32, Seq<char>)>, n: int)
    requires
        0 <= n <= u.len(),
        set_updates_strict(m, u.subrange(0, n)) is None,
    ensures
        set_updates_strict(m, u) is None,
    decreases u.len() - n,
{
    if n < u.len() {
        assert(u.subrange(0, n + 1).drop_last() =~= u.subrange(0, n));
        lemma_strict_none_extends(m, u, n + 1);
    } else {
        assert(u.subrange(0, n) =~= u);
    }
}

/// One `update_string` call, seen on the tables as data.
pub proof fn lemma_set_update_step(old: StringFileSet, new: StringFileSet, kind: StringFileType, id: u32, text: Seq<char>)
    requires
        old.wf(),
        forall|t: StringFileType| t != kind ==> (#[trigger] new.file_spec(t)) == old.file_spec(t),
        match old.file_spec(kind) {
            Some(f) => match position_of(entry_models(f.entries@), id) {
                Some(k) => new.file_spec(kind) is Some && entry_models(new.file_spec(kind)->0.entries@)
                    == entry_models(f.entries@).update(k, entry_updated(entry_models(f.entries@)[k], text)),
                None => new.file_spec(kind) is Some && new.file_spec(kind)->0.entries@ == f.entries@,
            },
            None => new.file_spec(kind) is None,
        },
    ensures
        set_model(new) == ({
            let prev = set_model(old);
            if prev.contains_key(kind) {
                match position_of(prev[kind], id) {
                    Some(i) => prev.insert(kind, prev[kind].update(i, entry_updated(prev[kind][i], text))),
                    None => prev,
                }
            } else {
                prev
            }
        }),
{
    let prev = set_model(old);
    let expected = if prev.contains_key(kind) {
        match position_of(prev[kind], id) {
            Some(i) => prev.insert(kind, prev[kind].update(i, entry_updated(prev[kind][i], text))),
            None => prev,
        }
    } else {
        prev
    };
    assert forall|t: StringFileType| #[trigger] set_model(new).contains_key(t) == expected.contains_key(t) by {}
    assert forall|t: StringFileType| set_model(new).contains_key(t) implies #[trigger] set_model(new)[t] == expected[t] by {}
    assert(set_model(new) =~= expected);
}

/// The last of the first `n` byte buffers given for kind `t`.
pub open spec fn last_data_for(fd: Seq<(StringFileType, Vec<u8>)>, t: StringFileType, n: int) -> Option<int>
    decreases n,
{
    if n <= 0 {
        None
    } else if fd[n - 1].0 == t {
        Some(n - 1)
    } else {
        last_data_for(fd, t, n - 1)
    }
}

/// After reading the first `n` buffers, the table of kind `t` in `s` is absent if no buffer was
/// given for `t`, and otherwise is the table read from the last buffer given for `t`.
pub open spec fn read_file_for(fd: Seq<(StringFileType, Vec<u8>)>, t: StringFileType, n: int, s: StringFileSet) -> bool {
    match last_data_for(fd, t, n) {
        None => s.file_spec(t) is None,
        Some(i) => s.file_spec(t) matches Some(f) && f.wf() && f.file_type == t
            && table_read(fd[i].1@, t) == Some((entry_models(f.entries@), f.skipped as nat)),
    }
}

} // verus!
