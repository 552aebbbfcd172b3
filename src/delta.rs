//! A log of translation changes with undo and redo.
use vstd::prelude::*;
use crate::text::{push_str, push_decimal, string_from_chars, dec_digits};

verus! {

/// Identifies a record by FormID and, optionally, editor id.
#[derive(Debug, Clone)]
pub struct RecordId {
    pub form_id: u32,
    pub editor_id: Option<String>,
}

pub open spec fn opt_chars(o: Option<String>) -> Option<Seq<char>> {
    match o {
        Some(s) => Some(s@),
        None => None,
    }
}

impl PartialEq for RecordId {
    fn eq(&self, other: &RecordId) -> (r: bool) {
        if self.form_id != other.form_id {
            return false;
        }
        match &self.editor_id {
            Some(a) => match &other.editor_id {
                Some(b) => *a == *b,
                None => false,
            },
            None => other.editor_id.is_none(),
        }
    }
}

impl vstd::std_specs::cmp::PartialEqSpecImpl for RecordId {
    open spec fn obeys_eq_spec() -> bool {
        true
    }

    open spec fn eq_spec(&self, other: &RecordId) -> bool {
        self.same_as(*other)
    }
}

impl RecordId {
    /// Same FormID and same editor id.
    pub open spec fn same_as(&self, other: RecordId) -> bool {
        self.form_id == other.form_id && opt_chars(self.editor_id) == opt_chars(other.editor_id)
    }

    pub fn new(form_id: u32, editor_id: Option<String>) -> (r: RecordId)
        ensures
            r.form_id == form_id && r.editor_id == editor_id,
    {
        RecordId { form_id, editor_id }
    }

    pub fn from_form_id(form_id: u32) -> (r: RecordId)
        ensures
            r.form_id == form_id && r.editor_id is None,
    {
        RecordId { form_id, editor_id: None }
    }
}

/// One change of one field.
#[derive(Debug, Clone)]
pub struct RecordChange {
    pub record_id: RecordId,
    pub subrecord_type: String,
    pub old_value: String,
    pub new_value: String,
    /// When it was applied, in a clock of the caller's choosing.
    pub applied_at: u64,
}

/// A change log: every change made, and two stacks of positions in it.
#[derive(Debug, Clone)]
pub struct TranslationDelta {
    changes: Vec<RecordChange>,
    undo_stack: Vec<usize>,
    redo_stack: Vec<usize>,
}

impl TranslationDelta {
    /// The changes ever recorded.
    pub closed spec fn changes_spec(&self) -> Seq<RecordChange> {
        self.changes@
    }

    /// Positions of the changes in effect, oldest first.
    pub closed spec fn undo_spec(&self) -> Seq<usize> {
        self.undo_stack@
    }

    /// Positions of the undone changes, the next to redo last.
    pub closed spec fn redo_spec(&self) -> Seq<usize> {
        self.redo_stack@
    }

    /// Every position on either stack is a recorded change.
    pub open spec fn wf(&self) -> bool {
        &&& forall|i: int| 0 <= i < self.undo_spec().len() ==> (#[trigger] self.undo_spec()[i]) < self.changes_spec().len()
        &&& forall|i: int| 0 <= i < self.redo_spec().len() ==> (#[trigger] self.redo_spec()[i]) < self.changes_spec().len()
    }

    pub fn new() -> (r: TranslationDelta)
        ensures
            r.wf(),
            r.changes_spec().len() == 0 && r.undo_spec().len() == 0 && r.redo_spec().len() == 0,
    {
        TranslationDelta { changes: Vec::new(), undo_stack: Vec::new(), redo_stack: Vec::new() }
    }

    /// Records a change; it is in effect, and nothing is left to redo.
    pub fn add_change(&mut self, change: RecordChange)
        requires
            old(self).wf(),
        ensures
            final(self).wf(),
            final(self).changes_spec() == old(self).changes_spec().push(change),
            final(self).undo_spec() == old(self).undo_spec().push(old(self).changes_spec().len() as usize),
            final(self).redo_spec().len() == 0,
    {
        let index = self.changes.len();
        self.changes.push(change);
        self.undo_stack.push(index);
        self.redo_stack.clear();
        assert forall|i: int| 0 <= i < self.undo_spec().len() implies (#[trigger] self.undo_spec()[i]) < self.changes_spec().len() by {
            if i < old(self).undo_spec().len() {
                assert(self.undo_spec()[i] == old(self).undo_spec()[i]);
            }
        }
    }

    /// Undoes the latest change in effect and returns it.
    pub fn undo(&mut self) -> (r: Result<&RecordChange, String>)
        requires
            old(self).wf(),
        ensures
            final(self).wf(),
            final(self).changes_spec() == old(self).changes_spec(),
            old(self).undo_spec().len() == 0 ==> r is Err && final(self).undo_spec() == old(self).undo_spec() && final(self).redo_spec() == old(self).redo_spec(),
            old(self).undo_spec().len() > 0 ==> r is Ok
                && final(self).undo_spec() == old(self).undo_spec().drop_last()
                && final(self).redo_spec() == old(self).redo_spec().push(old(self).undo_spec().last())
                && *r->Ok_0 == old(self).changes_spec()[old(self).undo_spec().last() as int],
    {
        match self.undo_stack.pop() {
            Some(index) => {
                assert(old(self).undo_spec()[old(self).undo_spec().len() - 1] == index);
                self.redo_stack.push(index);
                assert forall|i: int| 0 <= i < self.redo_spec().len() implies (#[trigger] self.redo_spec()[i]) < self.changes_spec().len() by {
                    if i < old(self).redo_spec().len() {
                        assert(self.redo_spec()[i] == old(self).redo_spec()[i]);
                    }
                }
                assert forall|i: int| 0 <= i < self.undo_spec().len() implies (#[trigger] self.undo_spec()[i]) < self.changes_spec().len() by {
                    assert(self.undo_spec()[i] == old(self).undo_spec()[i]);
                }
                Ok(&self.changes[index])
            },
            None => Err("nothing to undo".to_owned()),
        }
    }

    /// Redoes the latest undone change and returns it.
    pub fn redo(&mut self) -> (r: Result<&RecordChange, String>)
        requires
            old(self).wf(),
        ensures
            final(self).wf(),
            final(self).changes_spec() == old(self).changes_spec(),
            old(self).redo_spec().len() == 0 ==> r is Err && final(self).undo_spec() == old(self).undo_spec() && final(self).redo_spec() == old(self).redo_spec(),
            old(self).redo_spec().len() > 0 ==> r is Ok
                && final(self).redo_spec() == old(self).redo_spec().drop_last()
                && final(self).undo_spec() == old(self).undo_spec().push(old(self).redo_spec().last())
                && *r->Ok_0 == old(self).changes_spec()[old(self).redo_spec().last() as int],
    {
        match self.redo_stack.pop() {
            Some(index) => {
                assert(old(self).redo_spec()[old(self).redo_spec().len() - 1] == index);
                self.undo_stack.push(index);
                assert forall|i: int| 0 <= i < self.undo_spec().len() implies (#[trigger] self.undo_spec()[i]) < self.changes_spec().len() by {
                    if i < old(self).undo_spec().len() {
                        assert(self.undo_spec()[i] == old(self).undo_spec()[i]);
                    }
                }
                assert forall|i: int| 0 <= i < self.redo_spec().len() implies (#[trigger] self.redo_spec()[i]) < self.changes_spec().len() by {
                    assert(self.redo_spec()[i] == old(self).redo_spec()[i]);
                }
                Ok(&self.changes[index])
            },
            None => Err("nothing to redo".to_owned()),
        }
    }

    /// The number of changes in effect.
    pub fn len(&self) -> (r: usize)
        ensures
            r == self.undo_spec().len(),
    {
        self.undo_stack.len()
    }

    pub fn is_empty(&self) -> (r: bool)
        ensures
            r == (self.undo_spec().len() == 0),
    {
        self.undo_stack.len() == 0
    }

    /// The changes in effect, oldest first.
    pub fn iter(&self) -> (r: Vec<&RecordChange>)
        requires
            self.wf(),
        ensures
            r@.len() == self.undo_spec().len(),
            forall|i: int| 0 <= i < r@.len() ==> *(#[trigger] r@[i]) == self.changes_spec()[self.undo_spec()[i] as int],
    {
        let mut r: Vec<&RecordChange> = Vec::new();
        let mut i: usize = 0;
        while i < self.undo_stack.len()
            invariant
                self.wf(),
                i <= self.undo_spec().len(),
                r@.len() == i,
                forall|k: int| 0 <= k < i ==> *(#[trigger] r@[k]) == self.changes_spec()[self.undo_spec()[k] as int],
            decreases self.undo_spec().len() - i,
        {
            let index = self.undo_stack[i];
            r.push(&self.changes[index]);
            i = i + 1;
        }
        r
    }

    /// Every change ever recorded, undone ones included.
    pub fn all_changes(&self) -> (r: &[RecordChange])
        ensures
            r@ == self.changes_spec(),
    {
        self.changes.as_slice()
    }

    pub fn can_undo(&self) -> (r: bool)
        ensures
            r == (self.undo_spec().len() > 0),
    {
        self.undo_stack.len() > 0
    }

    pub fn can_redo(&self) -> (r: bool)
        ensures
            r == (self.redo_spec().len() > 0),
    {
        self.redo_stack.len() > 0
    }

    /// Forgets every change.
    pub fn clear(&mut self)
        ensures
            final(self).wf(),
            final(self).changes_spec().len() == 0 && final(self).undo_spec().len() == 0 && final(self).redo_spec().len() == 0,
    {
        self.changes.clear();
        self.undo_stack.clear();
        self.redo_stack.clear();
    }

    /// The changes in effect on one record, oldest first.
    pub fn get_changes_for_record(&self, record_id: &RecordId) -> (r: Vec<&RecordChange>)
        requires
            self.wf(),
        ensures
            forall|i: int| 0 <= i < r@.len() ==> (#[trigger] r@[i]).record_id.same_as(*record_id),
            r@.map_values(|c: &RecordChange| *c) == self.undo_spec().map_values(|k: usize| self.changes_spec()[k as int]).filter(|c: RecordChange| c.record_id.same_as(*record_id)),
    {
        let mut r: Vec<&RecordChange> = Vec::new();
        let mut i: usize = 0;
        let ghost all = self.undo_spec().map_values(|k: usize| self.changes_spec()[k as int]);
        while i < self.undo_stack.len()
            invariant
                self.wf(),
                i <= self.undo_spec().len(),
                all == self.undo_spec().map_values(|k: usize| self.changes_spec()[k as int]),
                forall|k: int| 0 <= k < r@.len() ==> (#[trigger] r@[k]).record_id.same_as(*record_id),
                r@.map_values(|c: &RecordChange| *c) == all.subrange(0, i as int).filter(|c: RecordChange| c.record_id.same_as(*record_id)),
            decreases self.undo_spec().len() - i,
        {
            let index = self.undo_stack[i];
            let c = &self.changes[index];
            proof {
                let f = |c: RecordChange| c.record_id.same_as(*record_id);
                assert(all.subrange(0, i + 1).drop_last() =~= all.subrange(0, i as int));
                assert(all[i as int] == *c);
                assert(all.subrange(0, i + 1).filter(f) == if f(*c) {
                    all.subrange(0, i as int).filter(f).push(*c)
                } else {
                    all.subrange(0, i as int).filter(f)
                }) by {
                    reveal(Seq::filter);
                };
            }
            let ghost prev = r@;
            if c.record_id == *record_id {
                r.push(c);
                assert(r@.map_values(|c: &RecordChange| *c) =~= prev.map_values(|c: &RecordChange| *c).push(*c));
            }
            i = i + 1;
        }
        assert(all.subrange(0, i as int) =~= all);
        r
    }

    /// A one-line description: total changes, changes in effect, and whether undo and redo are
    /// possible.
    pub fn summary(&self) -> (r: String)
        ensures
            r@ == seq!['变', '更', '总', '数', ':', ' '] + dec_digits(self.changes_spec().len()) + seq![',', ' ', '有', '效', '变', '更', ':', ' ']
                + dec_digits(self.undo_spec().len()) + seq![',', ' ', '可', '撤', '销', ':', ' '] + bool_text(self.undo_spec().len() > 0)
                + seq![',', ' ', '可', '重', '做', ':', ' '] + bool_text(self.redo_spec().len() > 0),
    {
        let mut v: Vec<char> = Vec::new();
        push_str(&mut v, "变更总数: ");
        push_decimal(&mut v, self.changes.len() as u64);
        push_str(&mut v, ", 有效变更: ");
        push_decimal(&mut v, self.undo_stack.len() as u64);
        push_str(&mut v, ", 可撤销: ");
        push_str(&mut v, if self.undo_stack.len() > 0 { "true" } else { "false" });
        push_str(&mut v, ", 可重做: ");
        push_str(&mut v, if self.redo_stack.len() > 0 { "true" } else { "false" });
        proof {
            reveal_strlit("变更总数: ");
            reveal_strlit(", 有效变更: ");
            reveal_strlit(", 可撤销: ");
            reveal_strlit(", 可重做: ");
            reveal_strlit("true");
            reveal_strlit("false");
        }
        assert(v@ =~= seq!['变', '更', '总', '数', ':', ' '] + dec_digits(self.changes_spec().len()) + seq![',', ' ', '有', '效', '变', '更', ':', ' ']
                + dec_digits(self.undo_spec().len()) + seq![',', ' ', '可', '撤', '销', ':', ' '] + bool_text(self.undo_spec().len() > 0)
                + seq![',', ' ', '可', '重', '做', ':', ' '] + bool_text(self.redo_spec().len() > 0));
        string_from_chars(v.as_slice())
    }
}

/// `true` or `false`.
pub open spec fn bool_text(b: bool) -> Seq<char> {
    if b {
        seq!['t', 'r', 'u', 'e']
    } else {
        seq!['f', 'a', 'l', 's', 'e']
    }
}

} // verus!
