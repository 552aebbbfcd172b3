//! Translation units and their unique keys.
use vstd::prelude::*;
use crate::text::{dec_int, hex_digits, push_str, push_hex, push_signed_decimal, string_from_chars};

verus! {

/// One translatable string found in a plugin.
#[derive(Debug, Clone)]
pub struct ExtractedString {
    /// The editor id of the record it was found in.
    pub editor_id: Option<String>,
    /// The record's FormID as `XXXXXXXX|master file`.
    pub form_id: String,
    /// The text as found (when extracting) or as to be written (when applying).
    pub text: String,
    pub record_type: String,
    pub subrecord_type: String,
    /// Its position among the routed subrecords of its record, from 0.
    pub index: i32,
}

/// A translation unit as data: editor id, FormID text, text, record type, subrecord type, index.
pub type UnitModel = (Option<Seq<char>>, Seq<char>, Seq<char>, Seq<char>, Seq<char>, i32);

/// `record_type subrecord_type`.
pub open spec fn string_type_of(record_type: Seq<char>, subrecord_type: Seq<char>) -> Seq<char> {
    record_type + seq![' '] + subrecord_type
}

/// `editor_id|form_id|record_type subrecord_type|index`, the editor id empty when absent.
pub open spec fn unique_key_of(editor_id: Option<Seq<char>>, form_id: Seq<char>, record_type: Seq<char>, subrecord_type: Seq<char>, index: i32) -> Seq<char> {
    (match editor_id {
        Some(e) => e,
        None => Seq::empty(),
    }) + seq!['|'] + form_id + seq!['|'] + string_type_of(record_type, subrecord_type) + seq!['|']
        + dec_int(index as int)
}

/// The key of a unit.
pub open spec fn unit_key(u: UnitModel) -> Seq<char> {
    unique_key_of(u.0, u.1, u.3, u.4, u.5)
}

/// `XXXXXXXX|file`: the FormID in eight upper-case hex digits and the file that owns it (the
/// master its top byte indexes, or the plugin itself past the end of the master list).
pub open spec fn form_id_text(form_id: u32, masters: Seq<Seq<char>>, plugin_name: Seq<char>) -> Seq<char> {
    let i = (form_id >> 24u32) as int;
    hex_digits(form_id as nat, 8) + seq!['|'] + if i < masters.len() {
        masters[i]
    } else {
        plugin_name
    }
}

pub open spec fn opt_text(o: Option<String>) -> Option<Seq<char>> {
    match o {
        Some(s) => Some(s@),
        None => None,
    }
}

/// Formats a FormID with the file that owns it (see `form_id_text`).
pub fn format_form_id(form_id: u32, masters: &Vec<String>, plugin_name: &str) -> (r: String)
    ensures
        r@ == form_id_text(form_id, masters@.map_values(|m: String| m@), plugin_name@),
{
    let mut v: Vec<char> = Vec::new();
    push_hex(&mut v, form_id as u64, 8);
    push_str(&mut v, "|");
    proof { reveal_strlit("|"); }
    let i = (form_id >> 24u32) as usize;
    if i < masters.len() {
        push_str(&mut v, masters[i].as_str());
    } else {
        push_str(&mut v, plugin_name);
    }
    assert(v@ =~= form_id_text(form_id, masters@.map_values(|m: String| m@), plugin_name@));
    string_from_chars(v.as_slice())
}

/// Builds a unique key (see `unique_key_of`).
pub fn make_unique_key(editor_id: &Option<String>, form_id: &str, record_type: &str, subrecord_type: &str, index: i32) -> (r: String)
    ensures
        r@ == unique_key_of(opt_text(*editor_id), form_id@, record_type@, subrecord_type@, index),
{
    let mut v: Vec<char> = Vec::new();
    match editor_id {
        Some(e) => push_str(&mut v, e.as_str()),
        None => {},
    }
    proof {
        reveal_strlit("|");
        reveal_strlit(" ");
    }
    push_str(&mut v, "|");
    push_str(&mut v, form_id);
    push_str(&mut v, "|");
    push_str(&mut v, record_type);
    push_str(&mut v, " ");
    push_str(&mut v, subrecord_type);
    push_str(&mut v, "|");
    push_signed_decimal(&mut v, index as i64);
    assert(v@ =~= unique_key_of(opt_text(*editor_id), form_id@, record_type@, subrecord_type@, index));
    string_from_chars(v.as_slice())
}

impl ExtractedString {
    pub open spec fn model(&self) -> UnitModel {
        (opt_text(self.editor_id), self.form_id@, self.text@, self.record_type@, self.subrecord_type@, self.index)
    }

    pub fn new(
        editor_id: Option<String>,
        form_id: String,
        record_type: String,
        subrecord_type: String,
        text: String,
        index: i32,
    ) -> (r: ExtractedString)
        ensures
            r.model() == (opt_text(editor_id), form_id@, text@, record_type@, subrecord_type@, index),
    {
        ExtractedString { editor_id, form_id, text, record_type, subrecord_type, index }
    }

    /// The text to write back.
    pub fn get_text_to_apply(&self) -> (r: &str)
        ensures
            r@ == self.text@,
    {
        self.text.as_str()
    }

    /// `record_type subrecord_type`.
    pub fn get_string_type(&self) -> (r: String)
        ensures
            r@ == string_type_of(self.record_type@, self.subrecord_type@),
    {
        let mut v: Vec<char> = Vec::new();
        push_str(&mut v, self.record_type.as_str());
        push_str(&mut v, " ");
        proof { reveal_strlit(" "); }
        push_str(&mut v, self.subrecord_type.as_str());
        assert(v@ =~= string_type_of(self.record_type@, self.subrecord_type@));
        string_from_chars(v.as_slice())
    }

    /// The key that identifies the unit: `editor_id|form_id|record_type subrecord_type|index`.
    pub fn get_unique_key(&self) -> (r: String)
        ensures
            r@ == unit_key(self.model()),
    {
        make_unique_key(&self.editor_id, self.form_id.as_str(), self.record_type.as_str(), self.subrecord_type.as_str(), self.index)
    }
}

/// A map from text keys to numbers.
pub struct KeyIndex {
    map: vstd::hash_map::StringHashMap<usize>,
}

/// What a key index holds: each key with the number stored under it.
pub closed spec fn key_index_contents(k: KeyIndex) -> Map<Seq<char>, usize> {
    k.map@
}

impl KeyIndex {
    /// An empty index.
    pub fn new() -> (r: KeyIndex)
        ensures
            forall|k: Seq<char>| !#[trigger] key_index_contents(r).contains_key(k),
    {
        KeyIndex { map: vstd::hash_map::StringHashMap::new() }
    }

    /// The key now maps to `v`, replacing any earlier number.
    pub fn insert(&mut self, key: String, v: usize)
        ensures
            key_index_contents(*final(self)) == key_index_contents(*old(self)).insert(key@, v),
    {
        self.map.insert(key, v);
    }

    /// The number stored under the key.
    pub fn get(&self, key: &String) -> (r: Option<usize>)
        ensures
            key_index_contents(*self).contains_key(key@) ==> r == Some(key_index_contents(*self)[key@]),
            !key_index_contents(*self).contains_key(key@) ==> r is None,
    {
        match self.map.get(key.as_str()) {
            Some(v) => Some(*v),
            None => None,
        }
    }
}

} // verus!
