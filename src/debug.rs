//! Helpers for inspecting a plugin's structure.
use vstd::prelude::*;
use crate::subrecord::Subrecord;
use crate::translate::saturated;

verus! {

/// Inspection helpers.
pub struct EspDebugger;

/// The bytes the subrecords take with their 6-byte headers.
pub open spec fn subrecords_size(s: Seq<Subrecord>) -> nat
    decreases s.len(),
{
    if s.len() == 0 {
        0
    } else {
        subrecords_size(s.drop_last()) + 6 + s.last().data@.len()
    }
}

/// Subrecord types that usually hold text.
pub open spec fn likely_string_types() -> Seq<Seq<char>> {
    seq!["EDID"@, "FULL"@, "DESC"@, "FNAM"@, "DNAM"@, "NNAM"@, "CNAM"@, "NAM1"@, "RNAM"@, "ITXT"@, "SHRT"@]
}

impl EspDebugger {
    /// The bytes the subrecords take with their 6-byte headers (saturating).
    pub fn calculate_subrecord_size(subrecords: &[Subrecord]) -> (r: usize)
        ensures
            r == saturated(subrecords_size(subrecords@)),
    {
        let mut total: usize = 0;
        let mut i: usize = 0;
        while i < subrecords.len()
            invariant
                i <= subrecords@.len(),
                total == saturated(subrecords_size(subrecords@.subrange(0, i as int))),
            decreases subrecords@.len() - i,
        {
            assert(subrecords@.subrange(0, i + 1).drop_last() =~= subrecords@.subrange(0, i as int));
            total = total.saturating_add(6).saturating_add(subrecords[i].data.len());
            i = i + 1;
        }
        assert(subrecords@.subrange(0, i as int) =~= subrecords@);
        total
    }

    /// Whether a subrecord type usually holds text.
    pub fn is_likely_string_subrecord(record_type: &str) -> (r: bool)
        ensures
            r == likely_string_types().contains(record_type@),
    {
        let names: [&str; 11] = ["EDID", "FULL", "DESC", "FNAM", "DNAM", "NNAM", "CNAM", "NAM1", "RNAM", "ITXT", "SHRT"];
        assert(names@.map_values(|s: &str| s@) =~= likely_string_types());
        let t = record_type.to_owned();
        let mut i: usize = 0;
        while i < 11
            invariant
                i <= 11,
                t@ == record_type@,
                names@.map_values(|s: &str| s@) == likely_string_types(),
                forall|k: int| 0 <= k < i ==> likely_string_types()[k] != record_type@,
            decreases 11 - i,
        {
            let n = names[i].to_owned();
            assert(n@ == likely_string_types()[i as int]);
            if n == t {
                return true;
            }
            i = i + 1;
        }
        false
    }
}

} // verus!
