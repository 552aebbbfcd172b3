//! Summary counts of a plugin.
use vstd::prelude::*;
use crate::extract::plugin_units;
use crate::group::{Group, GroupChild, group_records};
use crate::plugin::Plugin;
use crate::text::{chars_of, push_str, string_from_chars};

verus! {

/// How many groups are nested in the first `n` children, at any depth.
pub open spec fn subgroups_in(g: Group, n: int) -> int
    decreases g, n,
{
    if n <= 0 || n > g.children@.len() {
        0
    } else {
        subgroups_in(g, n - 1) + match g.children@[n - 1] {
            GroupChild::Group(sub) => 1 + subgroups_in(*sub, sub.children@.len() as int),
            GroupChild::Record(_) => 0,
        }
    }
}

/// Summary counts of a plugin.
#[derive(Debug, Clone)]
pub struct PluginStats {
    pub name: String,
    pub plugin_type: String,
    pub is_master: bool,
    pub is_localized: bool,
    pub master_count: usize,
    pub group_count: usize,
    pub record_count: usize,
    pub string_count: usize,
}

fn count_subgroups(g: &Group) -> (r: usize)
    ensures
        r as int == if subgroups_in(*g, g.children@.len() as int) > usize::MAX { usize::MAX as int } else { subgroups_in(*g, g.children@.len() as int) },
    decreases g,
{
    let mut total: usize = 0;
    let mut i: usize = 0;
    while i < g.children.len()
        invariant
            i <= g.children@.len(),
            total as int == if subgroups_in(*g, i as int) > usize::MAX { usize::MAX as int } else { subgroups_in(*g, i as int) },
        decreases g.children@.len() - i,
    {
        proof {
            lemma_subgroups_nonneg(*g, i as int);
        }
        match &g.children[i] {
            GroupChild::Group(sub) => {
                proof {
                    lemma_subgroups_nonneg(**sub, sub.children@.len() as int);
                }
                let c = count_subgroups(sub);
                total = total.saturating_add(1).saturating_add(c);
            },
            GroupChild::Record(_) => {},
        }
        i = i + 1;
    }
    total
}

proof fn lemma_subgroups_nonneg(g: Group, n: int)
    ensures
        subgroups_in(g, n) >= 0,
    decreases g, n,
{
    if n > 0 && n <= g.children@.len() {
        lemma_subgroups_nonneg(g, n - 1);
        match g.children@[n - 1] {
            GroupChild::Group(sub) => {
                assert(decreases_to!(g => g.children));
                lemma_subgroups_nonneg(*sub, sub.children@.len() as int);
            },
            GroupChild::Record(_) => {},
        }
    }
}

/// Whether a name ends with `.` and the three given characters.
pub open spec fn ends_with_ext(name: Seq<char>, a: char, b: char, c: char) -> bool {
    name.len() >= 4 && name[name.len() - 4] == '.' && name[name.len() - 3] == a && name[name.len() - 2] == b
        && name[name.len() - 1] == c
}

/// The description of a plugin kind from its file name.
pub open spec fn plugin_type_label(name: Seq<char>) -> Seq<char> {
    if ends_with_ext(name, 'e', 's', 'p') {
        seq!['插', '件', ' ', '(', 'E', 'S', 'P', ')']
    } else if ends_with_ext(name, 'e', 's', 'm') {
        seq!['主', '文', '件', ' ', '(', 'E', 'S', 'M', ')']
    } else if ends_with_ext(name, 'e', 's', 'l') {
        seq!['轻', '量', '级', '文', '件', ' ', '(', 'E', 'S', 'L', ')']
    } else {
        seq!['未', '知']
    }
}

impl Plugin {
    /// A description of the plugin kind from its file extension (compared as written).
    pub fn get_type(&self) -> (r: String)
        ensures
            r@ == plugin_type_label(self.path@),
    {
        let cs = chars_of(self.path.as_str());
        let n = cs.len();
        let mut v: Vec<char> = Vec::new();
        assert(cs@ == self.path@);
        if n >= 4 && cs[n - 4] == '.' && cs[n - 3] == 'e' && cs[n - 2] == 's' && cs[n - 1] == 'p' {
            push_str(&mut v, "插件 (ESP)");
        } else if n >= 4 && cs[n - 4] == '.' && cs[n - 3] == 'e' && cs[n - 2] == 's' && cs[n - 1] == 'm' {
            push_str(&mut v, "主文件 (ESM)");
        } else if n >= 4 && cs[n - 4] == '.' && cs[n - 3] == 'e' && cs[n - 2] == 's' && cs[n - 1] == 'l' {
            push_str(&mut v, "轻量级文件 (ESL)");
        } else {
            push_str(&mut v, "未知");
        }
        proof {
            reveal_strlit("插件 (ESP)");
            reveal_strlit("主文件 (ESM)");
            reveal_strlit("轻量级文件 (ESL)");
            reveal_strlit("未知");
        }
        assert(v@ =~= plugin_type_label(self.path@));
        string_from_chars(v.as_slice())
    }

    /// The number of records: the header plus every record of every group (saturating).
    pub fn count_records(&self) -> (r: usize)
        ensures
            r as int == {
                let total = 1 + records_total(self.groups@, self.groups@.len() as int);
                if total > usize::MAX { usize::MAX as int } else { total }
            },
    {
        let mut total: usize = 1;
        let mut i: usize = 0;
        while i < self.groups.len()
            invariant
                i <= self.groups@.len(),
                total as int == {
                    let t = 1 + records_total(self.groups@, i as int);
                    if t > usize::MAX { usize::MAX as int } else { t }
                },
            decreases self.groups@.len() - i,
        {
            proof { lemma_records_total_nonneg(self.groups@, i as int); }
            let c = self.groups[i].get_records().len();
            total = total.saturating_add(c);
            i = i + 1;
        }
        total
    }

    /// The number of groups, nested ones included (saturating).
    pub fn count_total_groups(&self) -> (r: usize)
        ensures
            r as int == {
                let total = groups_total(self.groups@, self.groups@.len() as int);
                if total > usize::MAX { usize::MAX as int } else { total }
            },
    {
        let mut total: usize = 0;
        let mut i: usize = 0;
        while i < self.groups.len()
            invariant
                i <= self.groups@.len(),
                total as int == {
                    let t = groups_total(self.groups@, i as int);
                    if t > usize::MAX { usize::MAX as int } else { t }
                },
            decreases self.groups@.len() - i,
        {
            proof {
                lemma_groups_total_nonneg(self.groups@, i as int);
                lemma_subgroups_nonneg(self.groups@[i as int], self.groups@[i as int].children@.len() as int);
            }
            let c = count_subgroups(&self.groups[i]);
            total = total.saturating_add(1).saturating_add(c);
            i = i + 1;
        }
        total
    }

    /// Summary counts: name, kind, master and localized flags, and the numbers of masters,
    /// groups, records and translation units.
    pub fn get_stats(&self) -> (r: PluginStats)
        requires
            self.wf(),
        ensures
            r.name@ == self.path@,
            r.is_localized == (self.header.flags & 0x80 != 0),
            r.master_count == self.masters@.len(),
            r.string_count == plugin_units(*self).len(),
            r.plugin_type@ == plugin_type_label(self.path@),
            r.record_count as int == {
                let total = 1 + records_total(self.groups@, self.groups@.len() as int);
                if total > usize::MAX { usize::MAX as int } else { total }
            },
            r.group_count as int == {
                let total = groups_total(self.groups@, self.groups@.len() as int);
                if total > usize::MAX { usize::MAX as int } else { total }
            },
    {
        let strings = self.extract_strings();
        PluginStats {
            name: self.path.clone(),
            plugin_type: self.get_type(),
            is_master: self.is_master(),
            is_localized: self.is_localized(),
            master_count: self.masters.len(),
            group_count: self.count_total_groups(),
            record_count: self.count_records(),
            string_count: strings.len(),
        }
    }
}

/// How many records the first `n` groups hold.
pub open spec fn records_total(gs: Seq<Group>, n: int) -> int
    decreases n,
{
    if n <= 0 || n > gs.len() {
        0
    } else {
        records_total(gs, n - 1) + group_records(gs[n - 1]).len()
    }
}

/// How many groups the first `n` top-level groups make, nested ones included.
pub open spec fn groups_total(gs: Seq<Group>, n: int) -> int
    decreases n,
{
    if n <= 0 || n > gs.len() {
        0
    } else {
        groups_total(gs, n - 1) + 1 + subgroups_in(gs[n - 1], gs[n - 1].children@.len() as int)
    }
}

proof fn lemma_records_total_nonneg(gs: Seq<Group>, n: int)
    ensures
        records_total(gs, n) >= 0,
    decreases n,
{
    if n > 0 && n <= gs.len() {
        lemma_records_total_nonneg(gs, n - 1);
    }
}

proof fn lemma_groups_total_nonneg(gs: Seq<Group>, n: int)
    ensures
        groups_total(gs, n) >= 0,
    decreases n,
{
    if n > 0 && n <= gs.len() {
        lemma_groups_total_nonneg(gs, n - 1);
        lemma_subgroups_nonneg(gs[n - 1], gs[n - 1].children@.len() as int);
    }
}

} // verus!
