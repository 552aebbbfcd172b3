//! Renumbering the FormIDs of a plugin into the light-plugin range.
use vstd::prelude::*;
use crate::error::EspError;
use crate::group::{Group, GroupChild};
use crate::plugin::Plugin;
use crate::record::Record;

verus! {

/// The first FormID number of the light-plugin range.
pub const LIGHT_FIRST_ID: u32 = 0x800;

/// How many records the light-plugin range can number.
pub const LIGHT_CAPACITY: usize = 2048;

/// Whether a record belongs to the plugin itself (its FormID's top byte is past the master list).
pub open spec fn own_record(masters: int, r: Record) -> bool {
    (r.form_id >> 24u32) as int >= masters
}

/// How many of the first `n` children hold own records, nested groups included.
pub open spec fn own_in_children(masters: int, g: Group, n: int) -> int
    decreases g, n,
{
    if n <= 0 || n > g.children@.len() {
        0
    } else {
        own_in_children(masters, g, n - 1) + match g.children@[n - 1] {
            GroupChild::Group(sub) => own_in_group(masters, *sub),
            GroupChild::Record(r) => if own_record(masters, r) { 1int } else { 0int },
        }
    }
}

/// How many own records a group holds, nested groups included.
pub open spec fn own_in_group(masters: int, g: Group) -> int
    decreases g, g.children@.len() + 1,
{
    own_in_children(masters, g, g.children@.len() as int)
}

/// How many own records the first `n` top-level groups hold.
pub open spec fn own_in_groups(masters: int, gs: Seq<Group>, n: int) -> int
    decreases n,
{
    if n <= 0 || n > gs.len() {
        0
    } else {
        own_in_groups(masters, gs, n - 1) + own_in_group(masters, gs[n - 1])
    }
}

/// The FormID given to the `k`-th own record: the upper 20 bits kept, the lower 12 set to
/// `0x800 + k`.
pub open spec fn light_id(form_id: u32, k: int) -> u32 {
    (form_id & 0xFFFFF000u32) | (((0x800 + k) as u32) & 0xFFFu32)
}

/// `new` is `old` renumbered as the `k`-th own record, or unchanged if it is not one.
pub open spec fn record_renumbered(masters: int, old: Record, new: Record, k: int) -> bool {
    if own_record(masters, old) {
        new == (Record { form_id: light_id(old.form_id, k), is_modified: true, ..old })
    } else {
        new == old
    }
}

/// The first `n` children renumbered in order, starting at number `k`.
pub open spec fn children_renumbered(masters: int, old: Group, new: Group, n: int, k: int) -> bool
    decreases old, n,
{
    if n <= 0 || n > old.children@.len() {
        true
    } else {
        let start = k + own_in_children(masters, old, n - 1);
        &&& children_renumbered(masters, old, new, n - 1, k)
        &&& match (old.children@[n - 1], new.children@[n - 1]) {
            (GroupChild::Group(a), GroupChild::Group(b)) => group_renumbered(masters, *a, *b, start),
            (GroupChild::Record(a), GroupChild::Record(b)) => record_renumbered(masters, a, b, start),
            _ => false,
        }
    }
}

/// A group renumbered in file order starting at number `k`, its shape and headers unchanged.
pub open spec fn group_renumbered(masters: int, old: Group, new: Group, k: int) -> bool
    decreases old, old.children@.len() + 1,
{
    &&& new.size == old.size
    &&& new.label == old.label
    &&& new.group_type == old.group_type
    &&& new.timestamp == old.timestamp
    &&& new.version_control_info == old.version_control_info
    &&& new.unknown == old.unknown
    &&& new.children@.len() == old.children@.len()
    &&& children_renumbered(masters, old, new, old.children@.len() as int, k)
}

proof fn lemma_own_children_monotone(masters: int, g: Group, n: int)
    requires
        0 <= n <= g.children@.len(),
    ensures
        0 <= own_in_children(masters, g, n),
        own_in_children(masters, g, n) <= own_in_group(masters, g),
    decreases g, g.children@.len() - n,
{
    lemma_own_nonneg(masters, g, n);
    if n < g.children@.len() {
        lemma_own_children_monotone(masters, g, n + 1);
        match g.children@[n] {
            GroupChild::Group(sub) => {
                assert(decreases_to!(g => g.children));
                lemma_own_group_nonneg(masters, *sub);
            },
            GroupChild::Record(_) => {},
        }
    }
}

proof fn lemma_own_nonneg(masters: int, g: Group, n: int)
    ensures
        0 <= own_in_children(masters, g, n),
    decreases g, n,
{
    if n > 0 && n <= g.children@.len() {
        lemma_own_nonneg(masters, g, n - 1);
        match g.children@[n - 1] {
            GroupChild::Group(sub) => {
                assert(decreases_to!(g => g.children));
                lemma_own_group_nonneg(masters, *sub);
            },
            GroupChild::Record(_) => {},
        }
    }
}

proof fn lemma_own_group_nonneg(masters: int, g: Group)
    ensures
        0 <= own_in_group(masters, g),
    decreases g, g.children@.len() + 1,
{
    lemma_own_nonneg(masters, g, g.children@.len() as int);
}

/// Counts the own records of a group (saturating at the limit plus one).
fn count_own(g: &Group, masters: usize) -> (r: usize)
    ensures
        r as int == if own_in_group(masters as int, *g) > LIGHT_CAPACITY + 1 { LIGHT_CAPACITY + 1 } else { own_in_group(masters as int, *g) },
    decreases g,
{
    let mut total: usize = 0;
    let mut i: usize = 0;
    while i < g.children.len()
        invariant
            i <= g.children@.len(),
            total as int == if own_in_children(masters as int, *g, i as int) > LIGHT_CAPACITY + 1 { LIGHT_CAPACITY + 1 } else { own_in_children(masters as int, *g, i as int) },
        decreases g.children@.len() - i,
    {
        proof {
            lemma_own_nonneg(masters as int, *g, i as int);
        }
        let c = match &g.children[i] {
            GroupChild::Group(sub) => {
                proof { lemma_own_group_nonneg(masters as int, **sub); }
                count_own(sub, masters)
            },
            GroupChild::Record(r) => if (r.form_id >> 24u32) as usize >= masters { 1 } else { 0 },
        };
        total = if total + c > LIGHT_CAPACITY + 1 { LIGHT_CAPACITY + 1 } else { total + c };
        i = i + 1;
    }
    total
}

fn renumber_group(g: &mut Group, masters: usize, k: usize) -> (r: usize)
    requires
        k + own_in_group(masters as int, *old(g)) <= LIGHT_CAPACITY,
    ensures
        group_renumbered(masters as int, *old(g), *final(g), k as int),
        r == k + own_in_group(masters as int, *old(g)),
    decreases *old(g),
{
    let ghost orig = *g;
    proof {
        lemma_own_group_nonneg(masters as int, orig);
    }
    let mut pending: Vec<GroupChild> = Vec::new();
    std::mem::swap(&mut pending, &mut g.children);
    let n = pending.len();
    let mut rev: Vec<GroupChild> = Vec::new();
    while pending.len() > 0
        invariant
            pending@.len() + rev@.len() == n,
            n == orig.children@.len(),
            forall|q: int| 0 <= q < pending@.len() ==> pending@[q] == orig.children@[q],
            forall|q: int| 0 <= q < rev@.len() ==> rev@[q] == orig.children@[n - 1 - q],
        decreases pending@.len(),
    {
        let c = pending.pop().unwrap();
        rev.push(c);
    }
    let mut next: usize = k;
    while rev.len() > 0
        invariant
            rev@.len() + g.children@.len() == n,
            n == orig.children@.len(),
            orig == *old(g),
            k + own_in_group(masters as int, orig) <= LIGHT_CAPACITY,
            next == k + own_in_children(masters as int, orig, g.children@.len() as int),
            forall|q: int| 0 <= q < rev@.len() ==> rev@[q] == orig.children@[n - 1 - q],
            g.size == orig.size && g.label == orig.label && g.group_type == orig.group_type
                && g.timestamp == orig.timestamp && g.version_control_info == orig.version_control_info
                && g.unknown == orig.unknown,
            children_renumbered(masters as int, orig, *g, g.children@.len() as int, k as int),
        decreases rev@.len(),
    {
        let i = g.children.len();
        let c = rev.pop().unwrap();
        assert(c == orig.children@[i as int]);
        proof {
            lemma_own_children_monotone(masters as int, orig, i + 1);
            lemma_own_nonneg(masters as int, orig, i as int);
        }
        let ghost before = *g;
        let done = match c {
            GroupChild::Group(b) => {
                let mut sub = *b;
                assert(decreases_to!(orig => sub)) by {
                    assert(decreases_to!(orig => orig.children));
                    assert(decreases_to!(orig.children => orig.children@[i as int]));
                };
                proof { lemma_own_group_nonneg(masters as int, sub); }
                next = renumber_group(&mut sub, masters, next);
                let res = GroupChild::Group(Box::new(sub));
                assert(match (orig.children@[i as int], res) {
                    (GroupChild::Group(a), GroupChild::Group(b)) => group_renumbered(masters as int, *a, *b, k + own_in_children(masters as int, orig, i as int)),
                    (GroupChild::Record(a), GroupChild::Record(b)) => record_renumbered(masters as int, a, b, k + own_in_children(masters as int, orig, i as int)),
                    _ => false,
                });
                res
            },
            GroupChild::Record(rec) => {
                let mut rec = rec;
                let ghost rec0 = rec;
                if (rec.form_id >> 24u32) as usize >= masters {
                    rec.form_id = (rec.form_id & 0xFFFFF000u32) | (((LIGHT_FIRST_ID as usize + next) as u32) & 0xFFFu32);
                    rec.is_modified = true;
                    next = next + 1;
                }
                let res = GroupChild::Record(rec);
                assert(match (orig.children@[i as int], res) {
                    (GroupChild::Group(a), GroupChild::Group(b)) => group_renumbered(masters as int, *a, *b, k + own_in_children(masters as int, orig, i as int)),
                    (GroupChild::Record(a), GroupChild::Record(b)) => record_renumbered(masters as int, a, b, k + own_in_children(masters as int, orig, i as int)),
                    _ => false,
                });
                res
            },
        };
        let ghost done_view = done;
        g.children.push(done);
        proof {
            lemma_children_renumbered_prefix(masters as int, orig, *g, before, i as int, k as int);
            assert(g.children@[i as int] == done_view);
        }
    }
    next
}

proof fn lemma_children_renumbered_prefix(masters: int, old: Group, a: Group, b: Group, m: int, k: int)
    requires
        0 <= m,
        m <= a.children@.len(),
        m <= b.children@.len(),
        forall|q: int| 0 <= q < m ==> a.children@[q] == b.children@[q],
    ensures
        children_renumbered(masters, old, a, m, k) == children_renumbered(masters, old, b, m, k),
    decreases m,
{
    if m > 0 {
        lemma_children_renumbered_prefix(masters, old, a, b, m - 1, k);
    }
}

/// The top-level groups renumbered in order, the first `n` of them.
pub open spec fn groups_renumbered(masters: int, old: Seq<Group>, new: Seq<Group>, n: int) -> bool {
    forall|i: int| 0 <= i < n ==> group_renumbered(masters, #[trigger] old[i], new[i], own_in_groups(masters, old, i))
}

impl Plugin {
    /// Renumbers the FormIDs of the plugin's own records, in file order, into the light-plugin
    /// range `0x800..=0xFFF` (upper 20 bits kept) and marks them modified. Fails, changing
    /// nothing, when there are more than 2048 such records.
    pub fn eslify_formids(&mut self) -> (r: Result<(), EspError>)
        ensures
            r is Err <==> own_in_groups(old(self).masters@.len() as int, old(self).groups@, old(self).groups@.len() as int) > LIGHT_CAPACITY,
            r is Err ==> *final(self) == *old(self),
            r is Ok ==> final(self).header == old(self).header && final(self).masters == old(self).masters
                && final(self).path == old(self).path && final(self).string_files == old(self).string_files
                && final(self).string_router == old(self).string_router
                && final(self).groups@.len() == old(self).groups@.len()
                && groups_renumbered(old(self).masters@.len() as int, old(self).groups@, final(self).groups@, old(self).groups@.len() as int),
    {
        let m = self.masters.len();
        let ghost gs = self.groups@;
        let mut count: usize = 0;
        let mut i: usize = 0;
        while i < self.groups.len()
            invariant
                i <= self.groups@.len(),
                gs == self.groups@,
                m == self.masters@.len(),
                count as int == if own_in_groups(m as int, gs, i as int) > LIGHT_CAPACITY + 1 { LIGHT_CAPACITY + 1 } else { own_in_groups(m as int, gs, i as int) },
            decreases self.groups@.len() - i,
        {
            proof {
                lemma_own_groups_nonneg(m as int, gs, i as int);
                lemma_own_group_nonneg(m as int, gs[i as int]);
            }
            let c = count_own(&self.groups[i], m);
            count = if count + c > LIGHT_CAPACITY + 1 { LIGHT_CAPACITY + 1 } else { count + c };
            i = i + 1;
        }
        if count > LIGHT_CAPACITY {
            return Err(EspError::CapacityExceeded { count });
        }
        let mut pending: Vec<Group> = Vec::new();
        std::mem::swap(&mut pending, &mut self.groups);
        let n = pending.len();
        let mut rev: Vec<Group> = Vec::new();
        while pending.len() > 0
            invariant
                pending@.len() + rev@.len() == n,
                n == gs.len(),
                forall|q: int| 0 <= q < pending@.len() ==> pending@[q] == gs[q],
                forall|q: int| 0 <= q < rev@.len() ==> rev@[q] == gs[n - 1 - q],
            decreases pending@.len(),
        {
            let g = pending.pop().unwrap();
            rev.push(g);
        }
        let mut next: usize = 0;
        while rev.len() > 0
            invariant
                rev@.len() + self.groups@.len() == n,
                n == gs.len(),
                gs == old(self).groups@,
                m == old(self).masters@.len(),
                own_in_groups(m as int, gs, n as int) <= LIGHT_CAPACITY,
                next as int == own_in_groups(m as int, gs, self.groups@.len() as int),
                self.header == old(self).header && self.masters == old(self).masters && self.path == old(self).path
                    && self.string_router == old(self).string_router && self.string_files == old(self).string_files,
                forall|q: int| 0 <= q < rev@.len() ==> rev@[q] == gs[n - 1 - q],
                groups_renumbered(m as int, gs, self.groups@, self.groups@.len() as int),
            decreases rev@.len(),
        {
            let j = self.groups.len();
            let mut g = rev.pop().unwrap();
            proof {
                lemma_own_groups_monotone(m as int, gs, j + 1, n as int);
                lemma_own_groups_nonneg(m as int, gs, j as int);
                lemma_own_group_nonneg(m as int, gs[j as int]);
            }
            next = renumber_group(&mut g, m, next);
            self.groups.push(g);
        }
        Ok(())
    }
}

proof fn lemma_own_groups_nonneg(masters: int, gs: Seq<Group>, n: int)
    ensures
        0 <= own_in_groups(masters, gs, n),
    decreases n,
{
    if n > 0 && n <= gs.len() {
        lemma_own_groups_nonneg(masters, gs, n - 1);
        lemma_own_group_nonneg(masters, gs[n - 1]);
    }
}

proof fn lemma_own_groups_monotone(masters: int, gs: Seq<Group>, a: int, b: int)
    requires
        0 <= a <= b <= gs.len(),
    ensures
        own_in_groups(masters, gs, a) <= own_in_groups(masters, gs, b),
    decreases b - a,
{
    if a < b {
        lemma_own_groups_monotone(masters, gs, a, b - 1);
        lemma_own_group_nonneg(masters, gs[b - 1]);
    }
}

} // verus!
