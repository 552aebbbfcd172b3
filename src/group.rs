//! Groups: labelled containers of records and nested groups.
use vstd::prelude::*;
use crate::bytes::{lemma_u32_round_trip, lemma_u16_round_trip, lemma_u32_read_back, u16_at, u32_at, u16_le, u32_le, read_u16, read_u32, read_i32, write_bytes, write_u16, write_u32, write_i32};
use crate::error::EspError;
use crate::record::{Record, record_bytes, record_parse_ok, record_end, record_parsed, lemma_record_round_trip};
use crate::text::{lossy_utf8, utf8_lossy};

verus! {

/// The largest group accepted when parsing.
pub const MAX_GROUP_SIZE: u32 = 200_000_000;

/// The kind of a group, from its 32-bit type field.
#[derive(Debug, Clone, Copy, PartialEq, Eq, Structural)]
pub enum GroupType {
    /// A top-level group.
    Normal,
    World,
    Cell,
    /// Any other code, kept as read.
    Unknown(i32),
}

/// The kind that a type code stands for.
pub open spec fn group_type_of(v: i32) -> GroupType {
    if v == 0 {
        GroupType::Normal
    } else if v == 1 {
        GroupType::World
    } else if v == 6 {
        GroupType::Cell
    } else {
        GroupType::Unknown(v)
    }
}

/// The type code written for a kind.
pub open spec fn group_type_code(t: GroupType) -> i32 {
    match t {
        GroupType::Normal => 0,
        GroupType::World => 1,
        GroupType::Cell => 6,
        GroupType::Unknown(v) => v,
    }
}

impl GroupType {
    /// The type code written for this kind.
    pub fn to_i32(&self) -> (r: i32)
        ensures
            r == group_type_code(*self),
    {
        match self {
            GroupType::Normal => 0,
            GroupType::World => 1,
            GroupType::Cell => 6,
            GroupType::Unknown(v) => *v,
        }
    }

    /// The kind that a type code stands for.
    pub fn from_i32(v: i32) -> (r: GroupType)
        ensures
            r == group_type_of(v),
    {
        if v == 0 {
            GroupType::Normal
        } else if v == 1 {
            GroupType::World
        } else if v == 6 {
            GroupType::Cell
        } else {
            GroupType::Unknown(v)
        }
    }
}

/// A group: header fields and children in file order.
#[derive(Debug)]
pub struct Group {
    /// The declared size, header included.
    pub size: u32,
    pub label: [u8; 4],
    pub group_type: GroupType,
    pub timestamp: u16,
    pub version_control_info: u16,
    pub unknown: u32,
    pub children: Vec<GroupChild>,
}

/// A child of a group.
#[derive(Debug)]
pub enum GroupChild {
    Group(Box<Group>),
    Record(Record),
}

/// The bytes of the first `n` children as written, or `None` if one cannot be written.
pub open spec fn children_bytes(g: Group, n: int) -> Option<Seq<u8>>
    decreases g, n,
{
    if n <= 0 || n > g.children@.len() {
        Some(Seq::empty())
    } else {
        match children_bytes(g, n - 1) {
            None => None,
            Some(prefix) => {
                let c = match g.children@[n - 1] {
                    GroupChild::Group(sub) => group_bytes(*sub),
                    GroupChild::Record(r) => record_bytes(r),
                };
                match c {
                    Some(b) => Some(prefix + b),
                    None => None,
                }
            },
        }
    }
}

/// The `GRUP` magic.
pub open spec fn grup() -> Seq<u8> {
    seq![0x47u8, 0x52u8, 0x55u8, 0x50u8]
}

/// The 24 header bytes of a group with the given size.
pub open spec fn group_header(g: Group, size: u32) -> Seq<u8> {
    grup() + u32_le(size) + g.label@ + u32_le(group_type_code(g.group_type) as u32) + u16_le(
        g.timestamp,
    ) + u16_le(g.version_control_info) + u32_le(g.unknown)
}

/// The bytes a group is written as: its header with the size recomputed, then its children.
pub open spec fn group_bytes(g: Group) -> Option<Seq<u8>>
    decreases g, g.children@.len() + 1,
{
    match children_bytes(g, g.children@.len() as int) {
        Some(c) => if 24 + c.len() <= u32::MAX {
            Some(group_header(g, (24 + c.len()) as u32) + c)
        } else {
            None
        },
        None => None,
    }
}

proof fn lemma_children_none_extends(g: Group, n: int, m: int)
    requires
        0 <= n <= m <= g.children@.len(),
        children_bytes(g, n) is None,
    ensures
        children_bytes(g, m) is None,
    decreases m - n,
{
    if n < m {
        lemma_children_none_extends(g, n, m - 1);
    }
}

/// The sum of the written sizes of the first `n` children.
pub open spec fn children_size(g: Group, n: int) -> int
    decreases n,
{
    if n <= 0 || n > g.children@.len() {
        0
    } else {
        children_size(g, n - 1) + match g.children@[n - 1] {
            GroupChild::Group(sub) => group_bytes(*sub)->0.len() as int,
            GroupChild::Record(r) => record_bytes(r)->0.len() as int,
        }
    }
}

proof fn lemma_children_size(g: Group, n: int)
    requires
        0 <= n <= g.children@.len(),
        children_bytes(g, n) is Some,
    ensures
        children_bytes(g, n)->0.len() == children_size(g, n),
    decreases n,
{
    if n > 0 {
        lemma_children_size(g, n - 1);
    }
}

/// A written group declares as its size 24 (its header) plus the sum of the written sizes of its
/// children, and that is its written length.
pub proof fn lemma_group_size(g: Group)
    requires
        group_bytes(g) is Some,
    ensures
        u32_at(group_bytes(g)->0, 4) as int == 24 + children_size(g, g.children@.len() as int),
        group_bytes(g)->0.len() == 24 + children_size(g, g.children@.len() as int),
{
    let n = g.children@.len() as int;
    lemma_children_size(g, n);
    let c = children_bytes(g, n)->0;
    let size = (24 + c.len()) as u32;
    let b = group_bytes(g)->0;
    lemma_u32_read_back(size);
    assert(b.subrange(4, 8) =~= u32_le(size));
    assert(u32_at(b, 4) == u32_at(u32_le(size), 0));
}

impl Group {
    /// Appends the group as written (see `group_bytes`), its size recomputed from what its
    /// children are written as.
    pub fn write(&self, out: &mut Vec<u8>) -> (r: Result<(), EspError>)
        ensures
            match r {
                Ok(()) => group_bytes(*self) is Some && final(out)@ == old(out)@ + group_bytes(*self)->0,
                Err(_) => group_bytes(*self) is None,
            },
        decreases self,
    {
        let mut body: Vec<u8> = Vec::new();
        let mut i: usize = 0;
        while i < self.children.len()
            invariant
                i <= self.children@.len(),
                children_bytes(*self, i as int) == Some(body@),
            decreases self.children@.len() - i,
        {
            let res = match &self.children[i] {
                GroupChild::Group(sub) => sub.write(&mut body),
                GroupChild::Record(rec) => rec.write(&mut body),
            };
            if res.is_err() {
                proof {
                    lemma_children_none_extends(*self, i + 1, self.children@.len() as int);
                }
                return Err(EspError::SizeOverflow);
            }
            i = i + 1;
        }
        if body.len() > 0xffff_ffffusize - 24 {
            return Err(EspError::SizeOverflow);
        }
        let magic: [u8; 4] = [0x47, 0x52, 0x55, 0x50];
        assert(magic@ =~= grup());
        write_bytes(out, magic.as_slice());
        write_u32(out, (24 + body.len()) as u32);
        write_bytes(out, self.label.as_slice());
        write_i32(out, self.group_type.to_i32());
        write_u16(out, self.timestamp);
        write_u16(out, self.version_control_info);
        write_u32(out, self.unknown);
        write_bytes(out, body.as_slice());
        assert(out@ =~= old(out)@ + group_bytes(*self)->0);
        Ok(())
    }
}

/// Whether a whole group can be read from the start of `d`: magic, a size of at least 24 and at
/// most the limit that fits in `d`, and children that fill exactly its body.
#[verifier::opaque]
pub open spec fn group_ok(d: Seq<u8>) -> bool
    decreases d.len(), 0int,
{
    &&& d.len() >= 24
    &&& d.subrange(0, 4) == grup()
    &&& 24 <= u32_at(d, 4) <= MAX_GROUP_SIZE
    &&& u32_at(d, 4) <= d.len()
    &&& children_ok(d.subrange(24, u32_at(d, 4) as int), 0)
}

/// Whether the children of a group body can be read from `q` to its end; the next four bytes
/// decide between a nested group and a record.
pub open spec fn children_ok(b: Seq<u8>, q: int) -> bool
    decreases b.len(), b.len() - q + 1,
{
    if q < 0 || q >= b.len() {
        true
    } else if q + 4 <= b.len() && b.subrange(q, q + 4) == grup() {
        if q + 8 <= b.len() && u32_at(b, q + 4) >= 24 && q + u32_at(b, q + 4) <= b.len()
            && group_ok(b.subrange(q, b.len() as int)) {
            children_ok(b, q + u32_at(b, q + 4))
        } else {
            false
        }
    } else {
        record_parse_ok(b, q) && children_ok(b, record_end(b, q))
    }
}

/// `g` holds the header fields of the group at the start of `d`.
pub open spec fn group_header_parsed(d: Seq<u8>, g: Group) -> bool {
    &&& g.size == u32_at(d, 4)
    &&& g.label@ == d.subrange(8, 12)
    &&& g.group_type == group_type_of(u32_at(d, 12) as i32)
    &&& g.timestamp == u16_at(d, 16)
    &&& g.version_control_info == u16_at(d, 18)
    &&& g.unknown == u32_at(d, 20)
}

/// `g` is the group read from the start of `d`: header fields as stored and children as read
/// from its body.
pub open spec fn group_parsed(d: Seq<u8>, g: Group) -> bool
    decreases d.len(), 0int,
{
    &&& d.len() >= 24
    &&& d.subrange(0, 4) == grup()
    &&& 24 <= u32_at(d, 4) <= MAX_GROUP_SIZE
    &&& u32_at(d, 4) <= d.len()
    &&& group_header_parsed(d, g)
    &&& children_parsed(d.subrange(24, u32_at(d, 4) as int), 0, g.children@)
}

/// `cs` are the children read from `q` to the end of a group body.
pub open spec fn children_parsed(b: Seq<u8>, q: int, cs: Seq<GroupChild>) -> bool
    decreases b.len(), b.len() - q + 1,
{
    if q < 0 || q >= b.len() {
        cs.len() == 0
    } else if cs.len() == 0 {
        false
    } else if q + 4 <= b.len() && b.subrange(q, q + 4) == grup() {
        if q + 8 <= b.len() && u32_at(b, q + 4) >= 24 && q + u32_at(b, q + 4) <= b.len() {
            match cs[0] {
                GroupChild::Group(g) => group_parsed(b.subrange(q, b.len() as int), *g)
                    && children_parsed(b, q + u32_at(b, q + 4), cs.drop_first()),
                GroupChild::Record(_) => false,
            }
        } else {
            false
        }
    } else if record_parse_ok(b, q) {
        match cs[0] {
            GroupChild::Record(r) => record_parsed(b, q, r, record_end(b, q)) && children_parsed(b, record_end(b, q), cs.drop_first()),
            GroupChild::Group(_) => false,
        }
    } else {
        false
    }
}

impl Group {
    /// Parses the group at `pos` with all its children; returns it with the position after it.
    pub fn parse(data: &[u8], pos: usize) -> (r: Result<(Group, usize), EspError>)
        requires
            pos <= data@.len(),
        ensures
            match r {
                Ok((g, next)) => group_ok(data@.subrange(pos as int, data@.len() as int))
                    && group_parsed(data@.subrange(pos as int, data@.len() as int), g)
                    && next == pos + g.size,
                Err(_) => !group_ok(data@.subrange(pos as int, data@.len() as int)),
            },
        decreases data@.len() - pos,
    {
        reveal(group_ok);
        let ghost d = data@.subrange(pos as int, data@.len() as int);
        if data.len() - pos < 24 {
            return Err(EspError::Truncated { offset: pos, needed: 24 });
        }
        assert(d.subrange(0, 4) =~= data@.subrange(pos as int, pos + 4));
        if !(data[pos] == 0x47 && data[pos + 1] == 0x52 && data[pos + 2] == 0x55 && data[pos + 3] == 0x50) {
            assert(d.subrange(0, 4) != grup()) by {
                if d.subrange(0, 4) == grup() {
                    assert(d.subrange(0, 4)[0] == data@[pos as int]);
                    assert(d.subrange(0, 4)[1] == data@[pos + 1]);
                    assert(d.subrange(0, 4)[2] == data@[pos + 2]);
                    assert(d.subrange(0, 4)[3] == data@[pos + 3]);
                }
            };
            return Err(EspError::BadMagic { offset: pos });
        }
        assert(d.subrange(0, 4) =~= grup());
        let size = read_u32(data, pos + 4).unwrap();
        assert(u32_at(d, 4) == size);
        if size > MAX_GROUP_SIZE || size < 24 {
            return Err(EspError::SizeOutOfBounds { offset: pos, size });
        }
        let label: [u8; 4] = [data[pos + 8], data[pos + 9], data[pos + 10], data[pos + 11]];
        assert(label@ =~= d.subrange(8, 12));
        let code = read_i32(data, pos + 12).unwrap();
        let group_type = GroupType::from_i32(code);
        let timestamp = read_u16(data, pos + 16).unwrap();
        let version_control_info = read_u16(data, pos + 18).unwrap();
        let unknown = read_u32(data, pos + 20).unwrap();
        assert(u32_at(d, 12) == u32_at(data@, pos + 12));
        assert(u16_at(d, 16) == u16_at(data@, pos + 16));
        assert(u16_at(d, 18) == u16_at(data@, pos + 18));
        assert(u32_at(d, 20) == u32_at(data@, pos + 20));
        if data.len() - pos < size as usize {
            return Err(EspError::Truncated { offset: pos, needed: size as usize });
        }
        let end = pos + size as usize;
        let body = vstd::slice::slice_subrange(data, pos + 24, end);
        assert(body@ =~= d.subrange(24, size as int));
        let mut children: Vec<GroupChild> = Vec::new();
        let mut q: usize = 0;
        proof {
            assert forall|rest: Seq<GroupChild>| #[trigger] children_parsed(body@, 0, rest) implies children_parsed(body@, 0, children@ + rest) by {
                assert(children@ + rest =~= rest);
            }
        }
        while q < body.len()
            invariant
                q <= body@.len(),
                d == data@.subrange(pos as int, data@.len() as int),
                d.len() >= 24,
                d.subrange(0, 4) == grup(),
                size == u32_at(d, 4),
                24 <= size <= MAX_GROUP_SIZE,
                size <= d.len(),
                body@ == d.subrange(24, size as int),
                body@.len() + 24 <= data@.len() - pos,
                children_ok(body@, 0) == children_ok(body@, q as int),
                forall|rest: Seq<GroupChild>| #[trigger] children_parsed(body@, q as int, rest) ==> children_parsed(body@, 0, children@ + rest),
            decreases body@.len() - q,
        {
            proof {
                reveal(group_ok);
            }
            let is_group = body.len() - q >= 4 && body[q] == 0x47 && body[q + 1] == 0x52 && body[q + 2] == 0x55 && body[q + 3] == 0x50;
            proof {
                if q + 4 <= body@.len() {
                    let w = body@.subrange(q as int, q + 4);
                    if w == grup() {
                        assert(w[0] == body@[q as int] && w[1] == body@[q + 1] && w[2] == body@[q + 2] && w[3] == body@[q + 3]);
                    }
                    if is_group {
                        assert(w =~= grup());
                    }
                }
            }
            if is_group {
                if body.len() - q < 8 {
                    return Err(EspError::Truncated { offset: pos, needed: 24 });
                }
                let (sub, next) = match Group::parse(body, q) {
                    Ok(x) => x,
                    Err(e) => return Err(e),
                };
                assert(u32_at(body@, q + 4) == u32_at(body@.subrange(q as int, body@.len() as int), 4));
                let child = GroupChild::Group(Box::new(sub));
                proof {
                    assert forall|rest: Seq<GroupChild>| #[trigger] children_parsed(body@, next as int, rest) implies children_parsed(body@, 0, children@.push(child) + rest) by {
                        assert((seq![child] + rest).drop_first() =~= rest);
                        assert(children_parsed(body@, q as int, seq![child] + rest));
                        assert(children@ + (seq![child] + rest) =~= children@.push(child) + rest);
                    }
                }
                children.push(child);
                q = next;
            } else {
                let (rec, next) = match Record::parse(body, q) {
                    Ok(x) => x,
                    Err(e) => return Err(e),
                };
                let child = GroupChild::Record(rec);
                proof {
                    assert forall|rest: Seq<GroupChild>| #[trigger] children_parsed(body@, next as int, rest) implies children_parsed(body@, 0, children@.push(child) + rest) by {
                        assert((seq![child] + rest).drop_first() =~= rest);
                        assert(children_parsed(body@, q as int, seq![child] + rest));
                        assert(children@ + (seq![child] + rest) =~= children@.push(child) + rest);
                    }
                }
                children.push(child);
                q = next;
            }
        }
        proof {
            assert(children_parsed(body@, q as int, Seq::<GroupChild>::empty()));
            assert(children@ + Seq::<GroupChild>::empty() =~= children@);
        }
        let g = Group { size, label, group_type, timestamp, version_control_info, unknown, children };
        Ok((g, end))
    }
}

/// The records of the first `n` children, nested groups flattened, in file order.
pub open spec fn records_in(g: Group, n: int) -> Seq<Record>
    decreases g, n,
{
    if n <= 0 || n > g.children@.len() {
        Seq::empty()
    } else {
        records_in(g, n - 1) + match g.children@[n - 1] {
            GroupChild::Group(sub) => group_records(*sub),
            GroupChild::Record(r) => seq![r],
        }
    }
}

/// All records of a group, nested groups flattened, in file order.
pub open spec fn group_records(g: Group) -> Seq<Record>
    decreases g, g.children@.len() + 1,
{
    records_in(g, g.children@.len() as int)
}

impl Group {
    pub fn get_label(&self) -> (r: &[u8; 4])
        ensures
            r == &self.label,
    {
        &self.label
    }

    pub fn get_type(&self) -> (r: &GroupType)
        ensures
            r == &self.group_type,
    {
        &self.group_type
    }

    /// The label as text.
    pub fn get_label_string(&self) -> (r: String)
        ensures
            r@ == lossy_utf8(self.label@),
    {
        utf8_lossy(self.label.as_slice())
    }

    /// All records, nested groups flattened, in file order.
    pub fn get_records(&self) -> (r: Vec<&Record>)
        ensures
            r@.map_values(|x: &Record| *x) == group_records(*self),
    {
        let mut r: Vec<&Record> = Vec::new();
        self.collect_records(&mut r);
        assert(r@.map_values(|x: &Record| *x) =~= group_records(*self));
        r
    }

    fn collect_records<'a>(&'a self, out: &mut Vec<&'a Record>)
        ensures
            final(out)@.map_values(|x: &Record| *x) == old(out)@.map_values(|x: &Record| *x) + group_records(*self),
        decreases self,
    {
        let mut i: usize = 0;
        while i < self.children.len()
            invariant
                i <= self.children@.len(),
                out@.map_values(|x: &Record| *x) == old(out)@.map_values(|x: &Record| *x) + records_in(*self, i as int),
            decreases self.children@.len() - i,
        {
            match &self.children[i] {
                GroupChild::Group(sub) => sub.collect_records(out),
                GroupChild::Record(rec) => {
                    let ghost prev = out@;
                    out.push(rec);
                    proof {
                        assert(self.children@[i as int] == GroupChild::Record(*rec));
                        assert(records_in(*self, i + 1) == records_in(*self, i as int) + seq![*rec]);
                        assert(out@.map_values(|x: &Record| *x) =~= prev.map_values(|x: &Record| *x).push(*rec));
                    }
                },
            }
            i = i + 1;
            assert(out@.map_values(|x: &Record| *x) =~= old(out)@.map_values(|x: &Record| *x) + records_in(*self, i as int));
        }
    }
}

/// The bytes of one child as written.
#[verifier::opaque]
pub open spec fn child_bytes(c: GroupChild) -> Option<Seq<u8>> {
    match c {
        GroupChild::Group(g) => group_bytes(*g),
        GroupChild::Record(r) => record_bytes(r),
    }
}

/// Two optional byte sequences one after the other.
pub open spec fn opt_concat(a: Option<Seq<u8>>, b: Option<Seq<u8>>) -> Option<Seq<u8>> {
    match (a, b) {
        (Some(x), Some(y)) => Some(x + y),
        _ => None,
    }
}

/// The bytes of a sequence of children written one after another.
pub open spec fn seq_children_bytes(cs: Seq<GroupChild>) -> Option<Seq<u8>>
    decreases cs.len(),
{
    if cs.len() == 0 {
        Some(Seq::empty())
    } else {
        opt_concat(child_bytes(cs[0]), seq_children_bytes(cs.drop_first()))
    }
}

proof fn lemma_seq_children_push(cs: Seq<GroupChild>, c: GroupChild)
    ensures
        seq_children_bytes(cs.push(c)) == opt_concat(seq_children_bytes(cs), child_bytes(c)),
    decreases cs.len(),
{
    if cs.len() > 0 {
        assert(cs.push(c).drop_first() =~= cs.drop_first().push(c));
        assert(cs.push(c)[0] == cs[0]);
        lemma_seq_children_push(cs.drop_first(), c);
        let first = child_bytes(cs[0]);
        let mid = seq_children_bytes(cs.drop_first());
        let last = child_bytes(c);
        assert(seq_children_bytes(cs.push(c)) == opt_concat(first, seq_children_bytes(cs.push(c).drop_first())));
        assert(seq_children_bytes(cs) == opt_concat(first, mid));
        if first is Some && mid is Some && last is Some {
            assert(first->0 + (mid->0 + last->0) =~= (first->0 + mid->0) + last->0);
        }
    } else {
        assert(cs.push(c).drop_first() =~= Seq::<GroupChild>::empty());
        assert(cs.push(c)[0] == c);
        let last = child_bytes(c);
        assert(seq_children_bytes(cs.push(c)) == opt_concat(last, seq_children_bytes(cs.push(c).drop_first())));
        if last is Some {
            assert(last->0 + Seq::<u8>::empty() =~= last->0);
            assert(Seq::<u8>::empty() + last->0 =~= last->0);
        }
    }
}

proof fn lemma_children_bytes_front(g: Group, n: int)
    requires
        0 <= n <= g.children@.len(),
    ensures
        children_bytes(g, n) == seq_children_bytes(g.children@.subrange(0, n)),
    decreases n,
{
    if n == 0 {
        assert(g.children@.subrange(0, 0) =~= Seq::<GroupChild>::empty());
    } else {
        lemma_children_bytes_front(g, n - 1);
        assert(g.children@.subrange(0, n) =~= g.children@.subrange(0, n - 1).push(g.children@[n - 1]));
        lemma_seq_children_push(g.children@.subrange(0, n - 1), g.children@[n - 1]);
        assert(child_bytes(g.children@[n - 1]) == match g.children@[n - 1] {
            GroupChild::Group(sub) => group_bytes(*sub),
            GroupChild::Record(r) => record_bytes(r),
        }) by {
            reveal(child_bytes);
        }
    }
}

/// A group read from bytes and written back unmodified reproduces exactly the bytes it was
/// read from: its declared size of them.
#[verifier::rlimit(80)]
pub proof fn lemma_group_round_trip(d: Seq<u8>, g: Group)
    requires
        group_parsed(d, g),
    ensures
        group_bytes(g) == Some(d.subrange(0, u32_at(d, 4) as int)),
    decreases d.len(), 0int,
{
    let size = u32_at(d, 4) as int;
    let body = d.subrange(24, size);
    lemma_children_round_trip(body, 0, g.children@);
    assert(body.subrange(0, body.len() as int) =~= body);
    lemma_children_bytes_front(g, g.children@.len() as int);
    assert(g.children@.subrange(0, g.children@.len() as int) =~= g.children@);
    lemma_u32_round_trip(d, 4);
    lemma_u32_round_trip(d, 12);
    lemma_u16_round_trip(d, 16);
    lemma_u16_round_trip(d, 18);
    lemma_u32_round_trip(d, 20);
    let code = u32_at(d, 12);
    assert(group_type_code(group_type_of(code as i32)) == code as i32);
    assert((code as i32) as u32 == code) by (bit_vector);
    assert(group_header(g, size as u32) + body =~= d.subrange(0, size));
}

#[verifier::rlimit(80)]
proof fn lemma_children_round_trip(b: Seq<u8>, q: int, cs: Seq<GroupChild>)
    requires
        0 <= q <= b.len(),
        children_parsed(b, q, cs),
    ensures
        seq_children_bytes(cs) == Some(b.subrange(q, b.len() as int)),
    decreases b.len(), b.len() - q + 1,
{
    if q >= b.len() {
        assert(b.subrange(q, b.len() as int) =~= Seq::<u8>::empty());
    } else if q + 4 <= b.len() && b.subrange(q, q + 4) == grup() {
        let size = u32_at(b, q + 4) as int;
        match cs[0] {
            GroupChild::Group(g) => {
                let d = b.subrange(q, b.len() as int);
                lemma_group_round_trip(d, *g);
                assert(child_bytes(cs[0]) == group_bytes(*g)) by {
                    reveal(child_bytes);
                }
                assert(u32_at(d, 4) == u32_at(b, q + 4));
                lemma_children_round_trip(b, q + size, cs.drop_first());
                assert(d.subrange(0, size) + b.subrange(q + size, b.len() as int) =~= b.subrange(q, b.len() as int));
            },
            GroupChild::Record(_) => {},
        }
    } else {
        match cs[0] {
            GroupChild::Record(r) => {
                let end = record_end(b, q);
                lemma_record_round_trip(b, q, r, end);
                assert(child_bytes(cs[0]) == record_bytes(r)) by {
                    reveal(child_bytes);
                }
                lemma_children_round_trip(b, end, cs.drop_first());
                assert(b.subrange(q, end) + b.subrange(end, b.len() as int) =~= b.subrange(q, b.len() as int));
            },
            GroupChild::Group(_) => {},
        }
    }
}

} // verus!
