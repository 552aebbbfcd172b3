//! Subrecords: typed fields inside a record, with the oversized-field escape.
use vstd::prelude::*;
use crate::bytes::{u16_at, u32_at, read_u16, read_u32, copy_range};
use crate::error::EspError;
use crate::text::{lossy_utf8, utf8_lossy};

verus! {

/// A subrecord as data: its type tag, its declared size and its payload.
pub type SubrecordModel = (Seq<u8>, u16, Seq<u8>);

/// A typed field of a record.
#[derive(Debug, Clone)]
pub struct Subrecord {
    /// The four type bytes.
    pub record_type_bytes: [u8; 4],
    /// The type bytes as text.
    pub record_type: String,
    /// The declared size (0 after an oversized-field escape).
    pub size: u16,
    /// The payload.
    pub data: Vec<u8>,
}

/// Whether the four bytes at `p` spell `XXXX`, the oversized-field sentinel.
pub open spec fn is_sentinel(d: Seq<u8>, p: int) -> bool {
    d[p] == 0x58 && d[p + 1] == 0x58 && d[p + 2] == 0x58 && d[p + 3] == 0x58
}

/// The subrecord that starts at `p`, and the position after it; `None` where the bytes are
/// truncated or the sentinel declares a size other than 4.
pub open spec fn subrecord_at(d: Seq<u8>, p: int) -> Option<(SubrecordModel, int)> {
    if p < 0 || p + 6 > d.len() {
        None
    } else if is_sentinel(d, p) {
        if u16_at(d, p + 4) != 4 || p + 16 > d.len() {
            None
        } else {
            let field_len = u32_at(d, p + 6) as int;
            if p + 16 + field_len > d.len() {
                None
            } else {
                Some(((d.subrange(p + 10, p + 14), 0u16, d.subrange(p + 16, p + 16 + field_len)), p + 16 + field_len))
            }
        }
    } else {
        let size = u16_at(d, p + 4) as int;
        if p + 6 + size > d.len() {
            None
        } else {
            Some(((d.subrange(p, p + 4), u16_at(d, p + 4), d.subrange(p + 6, p + 6 + size)), p + 6 + size))
        }
    }
}

/// Whether every byte of `d` from `p` on is zero.
pub open spec fn zero_tail(d: Seq<u8>, p: int) -> bool {
    forall|i: int| p <= i < d.len() ==> d[i] == 0
}

/// The subrecords of a payload from `p` on, in order; fewer than six trailing bytes are accepted
/// only as zero padding.
pub open spec fn subrecords_from(d: Seq<u8>, p: int) -> Option<Seq<SubrecordModel>>
    decreases d.len() - p,
{
    if p < 0 || p >= d.len() {
        Some(Seq::empty())
    } else if d.len() - p < 6 {
        if zero_tail(d, p) {
            Some(Seq::empty())
        } else {
            None
        }
    } else {
        match subrecord_at(d, p) {
            None => None,
            Some((s, n)) => {
                if n <= p {
                    None
                } else {
                    match subrecords_from(d, n) {
                        Some(rest) => Some(seq![s] + rest),
                        None => None,
                    }
                }
            },
        }
    }
}

impl Subrecord {
    /// The subrecord as data.
    pub open spec fn model(&self) -> SubrecordModel {
        (self.record_type_bytes@, self.size, self.data@)
    }

    /// The text of the type agrees with its bytes.
    pub open spec fn wf(&self) -> bool {
        self.record_type@ == lossy_utf8(self.record_type_bytes@)
    }

    /// Parses the subrecord at `pos`, following an oversized-field sentinel to the field it
    /// announces; returns it with the position after it.
    pub fn parse(data: &[u8], pos: usize) -> (r: Result<(Subrecord, usize), EspError>)
        ensures
            match r {
                Ok((s, next)) => s.wf() && subrecord_at(data@, pos as int) == Some((s.model(), next as int)),
                Err(_) => subrecord_at(data@, pos as int) is None,
            },
    {
        if pos > data.len() || data.len() - pos < 6 {
            return Err(EspError::Truncated { offset: pos, needed: 6 });
        }
        let tag: [u8; 4] = [data[pos], data[pos + 1], data[pos + 2], data[pos + 3]];
        assert(tag@ =~= data@.subrange(pos as int, pos + 4));
        let size = match read_u16(data, pos + 4) {
            Some(s) => s,
            None => return Err(EspError::Truncated { offset: pos, needed: 6 }),
        };
        if tag[0] == 0x58 && tag[1] == 0x58 && tag[2] == 0x58 && tag[3] == 0x58 {
            if size != 4 {
                return Err(EspError::BadOversizedField { offset: pos, size });
            }
            if data.len() - pos < 16 {
                return Err(EspError::Truncated { offset: pos, needed: 16 });
            }
            let field_len = match read_u32(data, pos + 6) {
                Some(v) => v,
                None => return Err(EspError::Truncated { offset: pos, needed: 16 }),
            };
            if data.len() - pos - 16 < field_len as usize {
                return Err(EspError::Truncated { offset: pos + 16, needed: field_len as usize });
            }
            let next_tag: [u8; 4] = [data[pos + 10], data[pos + 11], data[pos + 12], data[pos + 13]];
            assert(next_tag@ =~= data@.subrange(pos + 10, pos + 14));
            let end = pos + 16 + field_len as usize;
            let payload = copy_range(data, pos + 16, end);
            let record_type = utf8_lossy(next_tag.as_slice());
            Ok((Subrecord { record_type_bytes: next_tag, record_type, size: 0, data: payload }, end))
        } else {
            if data.len() - pos - 6 < size as usize {
                return Err(EspError::Truncated { offset: pos, needed: 6 + size as usize });
            }
            let end = pos + 6 + size as usize;
            let payload = copy_range(data, pos + 6, end);
            let record_type = utf8_lossy(tag.as_slice());
            Ok((Subrecord { record_type_bytes: tag, record_type, size, data: payload }, end))
        }
    }

    /// The type as text.
    pub fn get_type(&self) -> (r: &str)
        ensures
            r@ == self.record_type@,
    {
        self.record_type.as_str()
    }

    /// The payload.
    pub fn get_data(&self) -> (r: &[u8])
        ensures
            r@ == self.data@,
    {
        self.data.as_slice()
    }

    /// Whether the type is one of `string_types`.
    pub fn is_string_type(&self, string_types: &[String]) -> (r: bool)
        ensures
            r == exists|i: int| 0 <= i < string_types@.len() && (#[trigger] string_types@[i])@ == self.record_type@,
    {
        let mut i: usize = 0;
        while i < string_types.len()
            invariant
                i <= string_types@.len(),
                forall|k: int| 0 <= k < i ==> (#[trigger] string_types@[k])@ != self.record_type@,
            decreases string_types@.len() - i,
        {
            if string_types[i] == self.record_type {
                return true;
            }
            i = i + 1;
        }
        false
    }
}

} // verus!
