//! File names: the supported plugin extensions and what a name says about its plugin.
use vstd::prelude::*;
use crate::plugin::Plugin;
use crate::record::LIGHT_MASTER_FLAG;
use crate::text::{chars_of, string_from_chars};

verus! {

/// The version of this library.
pub const VERSION: &'static str = "0.6.0";

/// What `str::to_lowercase` makes of a string.
pub uninterp spec fn lower_of(s: Seq<char>) -> Seq<char>;

/// Relies on `str::to_lowercase`: the Unicode lower-case mapping of every character, which on
/// ASCII text maps `A`..`Z` to `a`..`z` and keeps every other character.
#[verifier::external_body]
pub(crate) fn to_lower(s: &str) -> (r: String)
    ensures
        r@ == lower_of(s@),
        crate::text::all_ascii(s@) ==> crate::text::ascii_case_mapped(s@, r@, 'A', 'Z', 32),
{
    s.to_lowercase()
}

/// The extension of a file name: what follows its last `.`, if there is one (and the name does
/// not start with it).
pub open spec fn name_extension(name: Seq<char>) -> Option<Seq<char>> {
    if exists|i: int| 0 < i < name.len() && name[i] == '.' {
        let i = choose|i: int| 0 < i < name.len() && name[i] == '.' && forall|j: int| i < j < name.len() ==> name[j] != '.';
        Some(name.subrange(i + 1, name.len() as int))
    } else {
        None
    }
}

fn extension_exec(name: &str) -> (r: Option<String>)
    ensures
        match r {
            Some(e) => name_extension(name@) == Some(e@),
            None => name_extension(name@) is None,
        },
{
    let cs = chars_of(name);
    let mut i: usize = cs.len();
    while i > 1 && cs[i - 1] != '.'
        invariant
            0 <= i <= cs@.len(),
            cs@ == name@,
            forall|j: int| i <= j < cs@.len() ==> cs@[j] != '.',
        decreases i,
    {
        i = i - 1;
    }
    if i > 1 {
        let dot = i - 1;
        proof {
            let k = choose|k: int| 0 < k < cs@.len() && cs@[k] == '.' && forall|j: int| k < j < cs@.len() ==> cs@[j] != '.';
            assert(k == dot as int) by {
                if k < dot {
                    assert(cs@[dot as int] == '.');
                } else if k > dot {
                }
            }
        }
        let mut v: Vec<char> = Vec::new();
        let mut j: usize = i;
        while j < cs.len()
            invariant
                i <= j <= cs@.len(),
                v@ == cs@.subrange(i as int, j as int),
            decreases cs@.len() - j,
        {
            v.push(cs[j]);
            j = j + 1;
            assert(v@ =~= cs@.subrange(i as int, j as int));
        }
        Some(string_from_chars(v.as_slice()))
    } else {
        proof {
            assert forall|k: int| 0 < k < cs@.len() implies cs@[k] != '.' by {
                if k >= 1 && i <= 1 {
                }
            }
        }
        None
    }
}

pub open spec fn esp() -> Seq<char> {
    seq!['e', 's', 'p']
}

pub open spec fn esm() -> Seq<char> {
    seq!['e', 's', 'm']
}

pub open spec fn esl() -> Seq<char> {
    seq!['e', 's', 'l']
}

/// Whether a lower-cased extension is one of the plugin extensions.
pub open spec fn supported_extension(lower: Seq<char>) -> bool {
    lower == esp() || lower == esm() || lower == esl()
}

/// The plugin file extensions: `esp`, `esm`, `esl`.
pub fn supported_extensions() -> (r: Vec<&'static str>)
    ensures
        r@.len() == 3,
        r@[0]@ == esp() && r@[1]@ == esm() && r@[2]@ == esl(),
{
    proof {
        reveal_strlit("esp");
        reveal_strlit("esm");
        reveal_strlit("esl");
    }
    let v: Vec<&'static str> = vec!["esp", "esm", "esl"];
    v
}

fn lower_extension_is(name: &str, a: char, b: char, c: char) -> (r: bool)
    ensures
        r == (name_extension(name@) matches Some(e) && lower_of(e) == seq![a, b, c]),
{
    match extension_exec(name) {
        Some(e) => {
            let l = chars_of(to_lower(e.as_str()).as_str());
            let r = l.len() == 3 && l[0] == a && l[1] == b && l[2] == c;
            if r {
                assert(l@ =~= seq![a, b, c]);
            }
            r
        },
        None => false,
    }
}

/// Whether a file name has one of the plugin extensions, compared after lower-casing.
pub fn is_supported_file(file_name: &str) -> (r: bool)
    ensures
        r == (name_extension(file_name@) matches Some(e) && supported_extension(lower_of(e))),
{
    lower_extension_is(file_name, 'e', 's', 'p') || lower_extension_is(file_name, 'e', 's', 'm')
        || lower_extension_is(file_name, 'e', 's', 'l')
}

impl Plugin {
    /// Whether the plugin is a master file (`.esm`).
    pub fn is_master(&self) -> (r: bool)
        ensures
            r == (name_extension(self.path@) matches Some(e) && lower_of(e) == esm()),
    {
        lower_extension_is(self.path.as_str(), 'e', 's', 'm')
    }

    /// Whether the plugin is a light plugin: an `.esl` file or a header with the light flag.
    pub fn is_light(&self) -> (r: bool)
        ensures
            r == ((name_extension(self.path@) matches Some(e) && lower_of(e) == esl()) || self.header.flags & LIGHT_MASTER_FLAG != 0),
    {
        lower_extension_is(self.path.as_str(), 'e', 's', 'l') || self.header.flags & LIGHT_MASTER_FLAG != 0
    }
}

/// Record types that often hold several routed subrecords of one type.
pub struct SpecialRecordHandler;

impl SpecialRecordHandler {
    /// `MESG`, `INFO`, `PERK`, `QUST`.
    pub fn multi_field_types() -> (r: Vec<&'static str>)
        ensures
            r@.map_values(|s: &str| s@) == seq!["MESG"@, "INFO"@, "PERK"@, "QUST"@],
    {
        let v: Vec<&'static str> = vec!["MESG", "INFO", "PERK", "QUST"];
        assert(v@.map_values(|s: &str| s@) =~= seq!["MESG"@, "INFO"@, "PERK"@, "QUST"@]);
        v
    }
}

} // verus!
