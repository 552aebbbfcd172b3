//! String-table file names: `PluginName_Language.KIND`, and the spellings tried when looking
//! one up.
use vstd::prelude::*;
use crate::files::{lower_of, to_lower};
use crate::string_file::{StringFileType, extension_of, kind_of_extension, upper_of, to_upper};
use crate::text::{chars_of, push_str, string_from_chars};

verus! {

/// `name_language.ext`.
pub open spec fn table_file_name(name: Seq<char>, language: Seq<char>, ext: Seq<char>) -> Seq<char> {
    name + seq!['_'] + language + seq!['.'] + ext
}

/// The file names tried for a table: the plugin name as given, lower-cased and upper-cased,
/// each with the kind's extension as written and lower-cased.
pub open spec fn filename_variants(plugin: Seq<char>, language: Seq<char>, t: StringFileType) -> Seq<Seq<char>> {
    let e = extension_of(t);
    seq![
        table_file_name(plugin, language, e),
        table_file_name(plugin, language, lower_of(e)),
        table_file_name(lower_of(plugin), language, e),
        table_file_name(lower_of(plugin), language, lower_of(e)),
        table_file_name(upper_of(plugin), language, e),
        table_file_name(upper_of(plugin), language, lower_of(e)),
    ]
}

fn file_name(name: &str, language: &str, ext: &str) -> (r: String)
    ensures
        r@ == table_file_name(name@, language@, ext@),
{
    let mut v: Vec<char> = Vec::new();
    push_str(&mut v, name);
    push_str(&mut v, "_");
    push_str(&mut v, language);
    push_str(&mut v, ".");
    push_str(&mut v, ext);
    proof {
        reveal_strlit("_");
        reveal_strlit(".");
    }
    assert(v@ =~= table_file_name(name@, language@, ext@));
    string_from_chars(v.as_slice())
}

/// The file name a table of kind `file_type` is written under: `plugin_language.KIND`.
pub fn table_file_name_for(plugin_name: &str, language: &str, file_type: StringFileType) -> (r: String)
    ensures
        r@ == table_file_name(plugin_name@, language@, extension_of(file_type)),
{
    file_name(plugin_name, language, file_type.to_extension())
}

/// The file names tried for a table, in order (see `filename_variants`).
pub fn build_filename_variants(plugin_name: &str, language: &str, file_type: StringFileType) -> (r: Vec<String>)
    ensures
        r@.map_values(|s: String| s@) == filename_variants(plugin_name@, language@, file_type),
{
    let ext = file_type.to_extension();
    let ext_lower = to_lower(ext);
    let lower = to_lower(plugin_name);
    let upper = to_upper(plugin_name);
    let mut r: Vec<String> = Vec::new();
    r.push(file_name(plugin_name, language, ext));
    r.push(file_name(plugin_name, language, ext_lower.as_str()));
    r.push(file_name(lower.as_str(), language, ext));
    r.push(file_name(lower.as_str(), language, ext_lower.as_str()));
    r.push(file_name(upper.as_str(), language, ext));
    r.push(file_name(upper.as_str(), language, ext_lower.as_str()));
    assert(r@.map_values(|s: String| s@) =~= filename_variants(plugin_name@, language@, file_type));
    r
}

/// The position of the last `c` in `s`.
pub open spec fn last_position(s: Seq<char>, c: char) -> Option<int> {
    if exists|i: int| 0 <= i < s.len() && s[i] == c {
        Some(choose|i: int| 0 <= i < s.len() && s[i] == c && forall|j: int| i < j < s.len() ==> s[j] != c)
    } else {
        None
    }
}

fn find_last(s: &Vec<char>, c: char) -> (r: Option<usize>)
    ensures
        match r {
            Some(i) => last_position(s@, c) == Some(i as int) && i < s@.len(),
            None => last_position(s@, c) is None,
        },
{
    let mut i: usize = s.len();
    while i > 0 && s[i - 1] != c
        invariant
            i <= s@.len(),
            forall|j: int| i <= j < s@.len() ==> s@[j] != c,
        decreases i,
    {
        i = i - 1;
    }
    if i == 0 {
        return None;
    }
    let p = i - 1;
    proof {
        let k = choose|k: int| 0 <= k < s@.len() && s@[k] == c && forall|j: int| k < j < s@.len() ==> s@[j] != c;
        assert(k == p as int) by {
            if k < p {
                assert(s@[p as int] == c);
            }
        }
    }
    Some(p)
}

fn sub_chars(s: &Vec<char>, a: usize, b: usize) -> (r: String)
    requires
        a <= b <= s@.len(),
    ensures
        r@ == s@.subrange(a as int, b as int),
{
    let mut v: Vec<char> = Vec::new();
    let mut i: usize = a;
    while i < b
        invariant
            a <= i <= b <= s@.len(),
            v@ == s@.subrange(a as int, i as int),
        decreases b - i,
    {
        v.push(s[i]);
        i = i + 1;
        assert(v@ =~= s@.subrange(a as int, i as int));
    }
    string_from_chars(v.as_slice())
}

/// What a table's file name says: the plugin name and language on either side of the last `_`
/// of the part before the last `.` (which may not be the first character), and the kind named
/// by the extension after it.
pub open spec fn parsed_file_name(name: Seq<char>) -> Option<(Seq<char>, Seq<char>, StringFileType)> {
    match last_position(name, '.') {
        Some(d) if d > 0 => {
            let stem = name.subrange(0, d);
            match kind_of_extension(upper_of(name.subrange(d + 1, name.len() as int))) {
                Some(k) => match last_position(stem, '_') {
                    Some(u) => Some((stem.subrange(0, u), stem.subrange(u + 1, stem.len() as int), k)),
                    None => None,
                },
                None => None,
            }
        },
        _ => None,
    }
}

/// Splits a table's file name into plugin name, language and kind (see `parsed_file_name`).
pub fn parse_filename(file_name: &str) -> (r: Option<(String, String, StringFileType)>)
    ensures
        match r {
            Some((p, l, k)) => parsed_file_name(file_name@) == Some((p@, l@, k)),
            None => parsed_file_name(file_name@) is None,
        },
{
    let cs = chars_of(file_name);
    let d = match find_last(&cs, '.') {
        Some(d) => d,
        None => return None,
    };
    if d == 0 {
        return None;
    }
    let n = cs.len();
    assert(d < n);
    let ext = sub_chars(&cs, d + 1, n);
    let kind = match StringFileType::from_extension(ext.as_str()) {
        Some(k) => k,
        None => return None,
    };
    let stem = sub_chars(&cs, 0, d);
    let stem_chars = chars_of(stem.as_str());
    let u = match find_last(&stem_chars, '_') {
        Some(u) => u,
        None => return None,
    };
    let plugin = sub_chars(&stem_chars, 0, u);
    let language = sub_chars(&stem_chars, u + 1, stem_chars.len());
    Some((plugin, language, kind))
}

} // verus!
