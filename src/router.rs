//! The string router: which subrecord types of which record types carry text.
use vstd::prelude::*;
use crate::error::EspError;

verus! {

/// A route table: record type, then the subrecord types that carry its text, in order.
pub type RouteModel = Seq<(Seq<char>, Seq<Seq<char>>)>;

pub open spec fn strings_view(v: Seq<String>) -> Seq<Seq<char>> {
    v.map_values(|s: String| s@)
}

/// The first route of a record type.
pub open spec fn route_position(r: Seq<(String, Vec<String>)>, record_type: Seq<char>) -> Option<int> {
    if exists|i: int| 0 <= i < r.len() && (#[trigger] r[i]).0@ == record_type {
        Some(choose|i: int| 0 <= i < r.len() && (#[trigger] r[i]).0@ == record_type && forall|j: int| 0 <= j < i ==> (#[trigger] r[j]).0@ != record_type)
    } else {
        None
    }
}

/// Answers which subrecord types carry text for a record type.
pub trait StringRouter {
    /// The subrecord types that carry text for `record_type`, in order.
    fn get_string_subrecord_types(&self, record_type: &str) -> Option<&Vec<String>>;

    /// Whether `subrecord_type` carries text for `record_type`.
    fn supports_strings(&self, record_type: &str, subrecord_type: &str) -> bool;
}

/// A router over a table of routes.
#[derive(Debug, Clone)]
pub struct DefaultStringRouter {
    pub routes: Vec<(String, Vec<String>)>,
}

/// The route table of the common game data: the record types whose fields hold player-visible
/// text, each with those field types in order.
pub open spec fn embedded_routes() -> RouteModel {
    seq![
        ("ACTI"@, seq!["FULL"@, "RNAM"@]),
        ("ALCH"@, seq!["FULL"@, "DESC"@]),
        ("AMMO"@, seq!["FULL"@, "DESC"@]),
        ("APPA"@, seq!["FULL"@, "DESC"@]),
        ("ARMO"@, seq!["FULL"@, "DESC"@]),
        ("AVIF"@, seq!["FULL"@, "DESC"@]),
        ("BOOK"@, seq!["FULL"@, "DESC"@, "CNAM"@]),
        ("BPTD"@, seq!["BPTN"@]),
        ("CELL"@, seq!["FULL"@]),
        ("CLAS"@, seq!["FULL"@, "DESC"@]),
        ("CLFM"@, seq!["FULL"@]),
        ("CONT"@, seq!["FULL"@]),
        ("DIAL"@, seq!["FULL"@]),
        ("DOOR"@, seq!["FULL"@]),
        ("ENCH"@, seq!["FULL"@]),
        ("EXPL"@, seq!["FULL"@]),
        ("EYES"@, seq!["FULL"@]),
        ("FACT"@, seq!["FULL"@, "MNAM"@, "FNAM"@]),
        ("FLOR"@, seq!["FULL"@, "RNAM"@]),
        ("FURN"@, seq!["FULL"@]),
        ("HAZD"@, seq!["FULL"@]),
        ("HDPT"@, seq!["FULL"@]),
        ("INFO"@, seq!["NAM1"@, "RNAM"@]),
        ("INGR"@, seq!["FULL"@]),
        ("KEYM"@, seq!["FULL"@]),
        ("LCTN"@, seq!["FULL"@]),
        ("LIGH"@, seq!["FULL"@]),
        ("LSCR"@, seq!["DESC"@]),
        ("MESG"@, seq!["DESC"@, "FULL"@, "ITXT"@]),
        ("MGEF"@, seq!["FULL"@, "DNAM"@]),
        ("MISC"@, seq!["FULL"@]),
        ("NPC_"@, seq!["FULL"@, "SHRT"@]),
        ("PERK"@, seq!["FULL"@, "DESC"@, "EPFD"@]),
        ("QUST"@, seq!["FULL"@, "CNAM"@, "NNAM"@]),
        ("RACE"@, seq!["FULL"@, "DESC"@]),
        ("REFR"@, seq!["FULL"@]),
        ("REGN"@, seq!["RDMP"@]),
        ("SCRL"@, seq!["FULL"@, "DESC"@]),
        ("SHOU"@, seq!["FULL"@, "DESC"@]),
        ("SLGM"@, seq!["FULL"@]),
        ("SNCT"@, seq!["FULL"@]),
        ("SPEL"@, seq!["FULL"@, "DESC"@]),
        ("TACT"@, seq!["FULL"@]),
        ("TREE"@, seq!["FULL"@]),
        ("WATR"@, seq!["FULL"@]),
        ("WEAP"@, seq!["FULL"@, "DESC"@]),
        ("WOOP"@, seq!["FULL"@, "TNAM"@]),
        ("WRLD"@, seq!["FULL"@]),
    ]
}

/// A route table as data.
pub open spec fn routes_view(r: Seq<(String, Vec<String>)>) -> RouteModel {
    r.map_values(|x: (String, Vec<String>)| (x.0@, strings_view(x.1@)))
}

fn route1(record_type: &str, a: &str) -> (r: (String, Vec<String>))
    ensures
        r.0@ == record_type@,
        strings_view(r.1@) == seq![a@],
{
    let mut v: Vec<String> = Vec::new();
    v.push(a.to_owned());
    assert(strings_view(v@) =~= seq![a@]);
    (record_type.to_owned(), v)
}

fn route2(record_type: &str, a: &str, b: &str) -> (r: (String, Vec<String>))
    ensures
        r.0@ == record_type@,
        strings_view(r.1@) == seq![a@, b@],
{
    let mut v: Vec<String> = Vec::new();
    v.push(a.to_owned());
    v.push(b.to_owned());
    assert(strings_view(v@) =~= seq![a@, b@]);
    (record_type.to_owned(), v)
}

fn route3(record_type: &str, a: &str, b: &str, c: &str) -> (r: (String, Vec<String>))
    ensures
        r.0@ == record_type@,
        strings_view(r.1@) == seq![a@, b@, c@],
{
    let mut v: Vec<String> = Vec::new();
    v.push(a.to_owned());
    v.push(b.to_owned());
    v.push(c.to_owned());
    assert(strings_view(v@) =~= seq![a@, b@, c@]);
    (record_type.to_owned(), v)
}

impl DefaultStringRouter {
    /// A router over the given routes; the first route of a record type is the one used.
    pub fn new(routes: Vec<(String, Vec<String>)>) -> (r: DefaultStringRouter)
        ensures
            r.routes@ == routes@,
    {
        DefaultStringRouter { routes }
    }

    /// The routes of the common game data (see `embedded_routes`).
    pub fn from_embedded_data() -> (r: Result<DefaultStringRouter, EspError>)
        ensures
            r matches Ok(router) && routes_view(router.routes@) == embedded_routes(),
    {
        let mut routes: Vec<(String, Vec<String>)> = Vec::new();
        routes.push(route2("ACTI", "FULL", "RNAM"));
        routes.push(route2("ALCH", "FULL", "DESC"));
        routes.push(route2("AMMO", "FULL", "DESC"));
        routes.push(route2("APPA", "FULL", "DESC"));
        routes.push(route2("ARMO", "FULL", "DESC"));
        routes.push(route2("AVIF", "FULL", "DESC"));
        routes.push(route3("BOOK", "FULL", "DESC", "CNAM"));
        routes.push(route1("BPTD", "BPTN"));
        routes.push(route1("CELL", "FULL"));
        routes.push(route2("CLAS", "FULL", "DESC"));
        routes.push(route1("CLFM", "FULL"));
        routes.push(route1("CONT", "FULL"));
        routes.push(route1("DIAL", "FULL"));
        routes.push(route1("DOOR", "FULL"));
        routes.push(route1("ENCH", "FULL"));
        routes.push(route1("EXPL", "FULL"));
        routes.push(route1("EYES", "FULL"));
        routes.push(route3("FACT", "FULL", "MNAM", "FNAM"));
        routes.push(route2("FLOR", "FULL", "RNAM"));
        routes.push(route1("FURN", "FULL"));
        routes.push(route1("HAZD", "FULL"));
        routes.push(route1("HDPT", "FULL"));
        routes.push(route2("INFO", "NAM1", "RNAM"));
        routes.push(route1("INGR", "FULL"));
        routes.push(route1("KEYM", "FULL"));
        routes.push(route1("LCTN", "FULL"));
        routes.push(route1("LIGH", "FULL"));
        routes.push(route1("LSCR", "DESC"));
        routes.push(route3("MESG", "DESC", "FULL", "ITXT"));
        routes.push(route2("MGEF", "FULL", "DNAM"));
        routes.push(route1("MISC", "FULL"));
        routes.push(route2("NPC_", "FULL", "SHRT"));
        routes.push(route3("PERK", "FULL", "DESC", "EPFD"));
        routes.push(route3("QUST", "FULL", "CNAM", "NNAM"));
        routes.push(route2("RACE", "FULL", "DESC"));
        routes.push(route1("REFR", "FULL"));
        routes.push(route1("REGN", "RDMP"));
        routes.push(route2("SCRL", "FULL", "DESC"));
        routes.push(route2("SHOU", "FULL", "DESC"));
        routes.push(route1("SLGM", "FULL"));
        routes.push(route1("SNCT", "FULL"));
        routes.push(route2("SPEL", "FULL", "DESC"));
        routes.push(route1("TACT", "FULL"));
        routes.push(route1("TREE", "FULL"));
        routes.push(route1("WATR", "FULL"));
        routes.push(route2("WEAP", "FULL", "DESC"));
        routes.push(route2("WOOP", "FULL", "TNAM"));
        routes.push(route1("WRLD", "FULL"));
        assert(routes_view(routes@) =~= embedded_routes());
        Ok(DefaultStringRouter { routes })
    }

    /// The routed subrecord types of a record type.
    pub open spec fn types_of(&self, record_type: Seq<char>) -> Option<Seq<Seq<char>>> {
        match route_position(self.routes@, record_type) {
            Some(i) => Some(strings_view(self.routes@[i].1@)),
            None => None,
        }
    }

    /// The subrecord types that carry text for `record_type`, in order.
    pub fn get_string_subrecord_types(&self, record_type: &str) -> (r: Option<&Vec<String>>)
        ensures
            match route_position(self.routes@, record_type@) {
                Some(i) => r == Some(&self.routes@[i].1),
                None => r is None,
            },
    {
        let t = record_type.to_owned();
        let mut i: usize = 0;
        while i < self.routes.len()
            invariant
                i <= self.routes@.len(),
                t@ == record_type@,
                forall|j: int| 0 <= j < i ==> (#[trigger] self.routes@[j]).0@ != t@,
            decreases self.routes@.len() - i,
        {
            if self.routes[i].0 == t {
                assert(route_position(self.routes@, record_type@) == Some(i as int)) by {
                    let s = self.routes@;
                    let k = choose|k: int| 0 <= k < s.len() && (#[trigger] s[k]).0@ == t@ && forall|j: int| 0 <= j < k ==> (#[trigger] s[j]).0@ != t@;
                    if k > i {
                        assert(s[i as int].0@ == t@);
                    }
                };
                return Some(&self.routes[i].1);
            }
            i = i + 1;
        }
        None
    }

    /// Whether `subrecord_type` carries text for `record_type`.
    pub fn supports_strings(&self, record_type: &str, subrecord_type: &str) -> (r: bool)
        ensures
            r == match self.types_of(record_type@) {
                Some(ts) => ts.contains(subrecord_type@),
                None => false,
            },
    {
        match self.get_string_subrecord_types(record_type) {
            Some(ts) => {
                let st = subrecord_type.to_owned();
                let mut i: usize = 0;
                assert(self.types_of(record_type@) == Some(strings_view(ts@)));
                while i < ts.len()
                    invariant
                        i <= ts@.len(),
                        self.types_of(record_type@) == Some(strings_view(ts@)),
                        st@ == subrecord_type@,
                        forall|j: int| 0 <= j < i ==> (#[trigger] ts@[j])@ != st@,
                    decreases ts@.len() - i,
                {
                    if ts[i] == st {
                        assert(strings_view(ts@)[i as int] == subrecord_type@);
                        assert(strings_view(ts@).contains(subrecord_type@));
                        return true;
                    }
                    i = i + 1;
                }
                proof {
                    if strings_view(ts@).contains(subrecord_type@) {
                        let k = choose|k: int| 0 <= k < strings_view(ts@).len() && strings_view(ts@)[k] == subrecord_type@;
                        assert(ts@[k]@ == st@);
                    }
                }
                false
            },
            None => false,
        }
    }
}

impl StringRouter for DefaultStringRouter {
    fn get_string_subrecord_types(&self, record_type: &str) -> Option<&Vec<String>> {
        DefaultStringRouter::get_string_subrecord_types(self, record_type)
    }

    fn supports_strings(&self, record_type: &str, subrecord_type: &str) -> bool {
        DefaultStringRouter::supports_strings(self, record_type, subrecord_type)
    }
}

} // verus!
