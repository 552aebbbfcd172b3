//! Records: a typed, flagged header over a payload of subrecords, optionally compressed.
use vstd::prelude::*;
use std::io::Read;
use std::io::Write;
use crate::bytes::{
    u16_at, u32_at, u16_le, u32_le, read_u16, read_u32, copy_range, write_bytes, write_u16,
    write_u32, lemma_u16_round_trip, lemma_u32_round_trip,
};
use crate::error::EspError;
use crate::subrecord::{Subrecord, SubrecordModel, subrecords_from, subrecord_at, zero_tail};
use crate::text::{lossy_utf8, utf8_lossy};

verus! {

/// Flag bit of a record whose payload is zlib-compressed.
pub const COMPRESSED_FLAG: u32 = 0x40000;

/// Flag bit of a plugin header that marks a localized plugin.
pub const LOCALIZED_FLAG: u32 = 0x80;

/// Flag bit of a plugin header that marks a light plugin.
pub const LIGHT_MASTER_FLAG: u32 = 0x200;

/// The largest record payload accepted when parsing.
pub const MAX_RECORD_SIZE: u32 = 100_000_000;

/// The largest decompressed payload accepted.
pub const MAX_DECOMPRESSED_SIZE: u32 = 50_000_000;

/// What flate2's zlib decoder makes of a stream: its decoded bytes, or `None` if it is corrupt.
pub uninterp spec fn inflated(b: Seq<u8>) -> Option<Seq<u8>>;

/// What flate2's zlib encoder at the default level makes of a byte sequence (`None` if it fails).
pub uninterp spec fn zlib_compressed(b: Seq<u8>) -> Option<Seq<u8>>;

/// Relies on `flate2::read::ZlibDecoder`: reads a zlib stream to its end.
#[verifier::external_body]
fn zlib_decode(b: &[u8]) -> (r: Option<Vec<u8>>)
    ensures
        r is Some <==> inflated(b@) is Some,
        r is Some ==> r->0@ == inflated(b@)->0,
{
    let mut out = Vec::new();
    match flate2::read::ZlibDecoder::new(b).read_to_end(&mut out) {
        Ok(_) => Some(out),
        Err(_) => None,
    }
}

/// Relies on `flate2::write::ZlibEncoder` with `Compression::default()`: a zlib stream.
#[verifier::external_body]
fn zlib_encode(b: &[u8]) -> (r: Option<Vec<u8>>)
    ensures
        r is Some <==> zlib_compressed(b@) is Some,
        r is Some ==> r->0@ == zlib_compressed(b@)->0,
{
    let mut encoder = flate2::write::ZlibEncoder::new(Vec::new(), flate2::Compression::default());
    match encoder.write_all(b) {
        Ok(()) => encoder.finish().ok(),
        Err(_) => None,
    }
}

pub open spec fn is_compressed(flags: u32) -> bool {
    flags & COMPRESSED_FLAG != 0
}

/// A compressed payload decoded: a 4-byte decoded length (non-zero, at most the limit), then a
/// non-empty zlib stream that must decode to exactly that length.
pub open spec fn decompressed(payload: Seq<u8>) -> Option<Seq<u8>> {
    if payload.len() < 4 {
        None
    } else {
        let n = u32_at(payload, 0);
        if n == 0 || n > MAX_DECOMPRESSED_SIZE || payload.len() == 4 {
            None
        } else {
            match inflated(payload.subrange(4, payload.len() as int)) {
                Some(x) => if x.len() == n as int { Some(x) } else { None },
                None => None,
            }
        }
    }
}

/// The end of the record that starts at `p`.
pub open spec fn record_end(d: Seq<u8>, p: int) -> int {
    p + 24 + u32_at(d, p + 4) as int
}

/// The stored payload of the record at `p`.
pub open spec fn stored_payload(d: Seq<u8>, p: int) -> Seq<u8> {
    d.subrange(p + 24, record_end(d, p))
}

/// The bytes the subrecords are read from (decompressed where that succeeds), whether they are
/// read at all, and the compressed bytes kept for writing back.
pub open spec fn record_content(d: Seq<u8>, p: int) -> (Seq<u8>, bool, Option<Seq<u8>>) {
    let payload = stored_payload(d, p);
    if is_compressed(u32_at(d, p + 8)) {
        match decompressed(payload) {
            Some(x) => (x, true, Some(payload)),
            None => (payload, false, Some(payload)),
        }
    } else {
        (payload, true, None)
    }
}

/// Whether a record can be read at `p`.
pub open spec fn record_parse_ok(d: Seq<u8>, p: int) -> bool {
    &&& 0 <= p
    &&& p + 24 <= d.len()
    &&& u32_at(d, p + 4) <= MAX_RECORD_SIZE
    &&& record_end(d, p) <= d.len()
    &&& (record_content(d, p).1 ==> subrecords_from(record_content(d, p).0, 0) is Some)
}

pub open spec fn opt_view(o: Option<Vec<u8>>) -> Option<Seq<u8>> {
    match o {
        Some(v) => Some(v@),
        None => None,
    }
}

pub open spec fn models(s: Seq<Subrecord>) -> Seq<SubrecordModel> {
    s.map_values(|x: Subrecord| x.model())
}

pub open spec fn all_wf(s: Seq<Subrecord>) -> bool {
    forall|i: int| 0 <= i < s.len() ==> (#[trigger] s[i]).wf()
}

/// `r` is the record read at `p`, and `next` the position after it.
pub open spec fn record_parsed(d: Seq<u8>, p: int, r: Record, next: int) -> bool {
    let (raw, subs, original) = record_content(d, p);
    &&& record_parse_ok(d, p)
    &&& next == record_end(d, p)
    &&& r.record_type_bytes@ == d.subrange(p, p + 4)
    &&& r.record_type@ == lossy_utf8(d.subrange(p, p + 4))
    &&& r.data_size == u32_at(d, p + 4)
    &&& r.flags == u32_at(d, p + 8)
    &&& r.form_id == u32_at(d, p + 12)
    &&& r.timestamp == u16_at(d, p + 16)
    &&& r.version_control_info == u16_at(d, p + 18)
    &&& r.internal_version == u16_at(d, p + 20)
    &&& r.unknown == u16_at(d, p + 22)
    &&& r.raw_data@ == raw
    &&& opt_view(r.original_compressed_data) == original
    &&& models(r.subrecords@) == (if subs { subrecords_from(raw, 0)->0 } else { Seq::empty() })
    &&& all_wf(r.subrecords@)
    &&& !r.is_modified
}

/// The bytes of one subrecord as written: an oversized payload goes behind the `XXXX` sentinel.
pub open spec fn subrecord_bytes(s: Subrecord) -> Seq<u8> {
    let n = s.data@.len();
    if n <= 0xffff {
        s.record_type_bytes@ + u16_le(n as u16) + s.data@
    } else {
        seq![0x58u8, 0x58u8, 0x58u8, 0x58u8] + u16_le(4) + u32_le(n as u32) + s.record_type_bytes@
            + u16_le(0) + s.data@
    }
}

/// The subrecords written one after another.
pub open spec fn subrecords_bytes(s: Seq<Subrecord>) -> Seq<u8>
    decreases s.len(),
{
    if s.len() == 0 {
        Seq::empty()
    } else {
        subrecords_bytes(s.drop_last()) + subrecord_bytes(s.last())
    }
}

/// Every payload length fits the 32-bit field of the sentinel.
pub open spec fn subrecords_fit(s: Seq<Subrecord>) -> bool {
    forall|i: int| 0 <= i < s.len() ==> (#[trigger] s[i]).data@.len() <= u32::MAX
}

/// The payload a record is written with: the kept bytes when unmodified, else the subrecords
/// re-serialized (and recompressed if the record was compressed).
pub open spec fn record_payload(r: Record) -> Option<Seq<u8>> {
    if r.is_modified {
        let body = subrecords_bytes(r.subrecords@);
        if !subrecords_fit(r.subrecords@) {
            None
        } else if is_compressed(r.flags) {
            if body.len() > u32::MAX {
                None
            } else {
                match zlib_compressed(body) {
                    Some(z) => Some(u32_le(body.len() as u32) + z),
                    None => None,
                }
            }
        } else {
            Some(body)
        }
    } else {
        match r.original_compressed_data {
            Some(c) => Some(c@),
            None => Some(r.raw_data@),
        }
    }
}

/// The 24 header bytes of a record with the given data size.
pub open spec fn record_header(r: Record, size: u32) -> Seq<u8> {
    r.record_type_bytes@ + u32_le(size) + u32_le(r.flags) + u32_le(r.form_id) + u16_le(
        r.timestamp,
    ) + u16_le(r.version_control_info) + u16_le(r.internal_version) + u16_le(r.unknown)
}

/// The bytes a record is written as; `None` where a size does not fit its field.
pub open spec fn record_bytes(r: Record) -> Option<Seq<u8>> {
    match record_payload(r) {
        Some(p) => if p.len() <= u32::MAX {
            Some(record_header(r, p.len() as u32) + p)
        } else {
            None
        },
        None => None,
    }
}

/// A record: header fields, subrecords, and what is needed to write it back unchanged.
#[derive(Debug, Clone)]
pub struct Record {
    /// The four type bytes.
    pub record_type_bytes: [u8; 4],
    /// The type bytes as text.
    pub record_type: String,
    /// The data size read from the header.
    pub data_size: u32,
    /// The flag bits.
    pub flags: u32,
    /// The FormID; its top byte indexes the master list.
    pub form_id: u32,
    pub timestamp: u16,
    pub version_control_info: u16,
    pub internal_version: u16,
    pub unknown: u16,
    /// The stored payload of a record that was compressed.
    pub original_compressed_data: Option<Vec<u8>>,
    /// The bytes the subrecords were read from.
    pub raw_data: Vec<u8>,
    /// The subrecords, in file order.
    pub subrecords: Vec<Subrecord>,
    /// Set once a subrecord or header field is changed; forces re-serialization.
    pub is_modified: bool,
}

fn all_zero_from(data: &[u8], pos: usize) -> (r: bool)
    ensures
        r == zero_tail(data@, pos as int),
{
    let mut i: usize = pos;
    while i < data.len()
        invariant
            pos <= i,
            forall|k: int| pos <= k < i ==> data@[k] == 0,
        decreases data@.len() - i,
    {
        if data[i] != 0 {
            return false;
        }
        i = i + 1;
    }
    true
}

/// Decodes a compressed payload (see `decompressed`).
fn decompress_data(payload: &[u8]) -> (r: Option<Vec<u8>>)
    ensures
        r is Some <==> decompressed(payload@) is Some,
        r is Some ==> r->0@ == decompressed(payload@)->0,
{
    let n = match read_u32(payload, 0) {
        Some(n) => n,
        None => return None,
    };
    if n == 0 || n > MAX_DECOMPRESSED_SIZE || payload.len() == 4 {
        return None;
    }
    let stream = vstd::slice::slice_subrange(payload, 4, payload.len());
    match zlib_decode(stream) {
        Some(x) => if x.len() == n as usize {
            Some(x)
        } else {
            None
        },
        None => None,
    }
}

/// Where reading the subrecords from `p` on stops at a short tail that is not zero padding:
/// the tail's offset and the type bytes of the subrecord read just before it (`prev` before any
/// is read from `p`); `None` when the payload reads to its end or fails elsewhere.
pub open spec fn trailing_failure(d: Seq<u8>, p: int, prev: Option<Seq<u8>>) -> Option<(int, Option<Seq<u8>>)>
    decreases d.len() - p,
{
    if p < 0 || p >= d.len() {
        None
    } else if d.len() - p < 6 {
        if zero_tail(d, p) { None } else { Some((p, prev)) }
    } else {
        match subrecord_at(d, p) {
            None => None,
            Some((s, n)) => if n <= p { None } else { trailing_failure(d, n, Some(s.0)) },
        }
    }
}

pub open spec fn opt_lossy(o: Option<Seq<u8>>) -> Option<Seq<char>> {
    match o {
        Some(t) => Some(lossy_utf8(t)),
        None => None,
    }
}

pub open spec fn opt_string(o: Option<String>) -> Option<Seq<char>> {
    match o {
        Some(t) => Some(t@),
        None => None,
    }
}

impl Record {
    /// Parses the subrecords of a payload; fewer than six trailing bytes must be zero padding,
    /// and otherwise the error names their offset and the subrecord read before them.
    pub fn parse_subrecords(data: &[u8]) -> (r: Result<Vec<Subrecord>, EspError>)
        ensures
            match r {
                Ok(v) => subrecords_from(data@, 0) == Some(models(v@)) && all_wf(v@),
                Err(e) => subrecords_from(data@, 0) is None && match trailing_failure(data@, 0, None) {
                    Some((off, prev)) => e matches EspError::TrailingBytes { offset, count, previous }
                        && offset == off && count == data@.len() - off && opt_string(previous) == opt_lossy(prev),
                    None => true,
                },
            },
    {
        let mut subs: Vec<Subrecord> = Vec::new();
        let mut pos: usize = 0;
        while pos < data.len()
            invariant
                pos <= data@.len(),
                all_wf(subs@),
                trailing_failure(data@, 0, None) == trailing_failure(data@, pos as int,
                    if subs@.len() == 0 { None } else { Some(subs@.last().record_type_bytes@) }),
                subrecords_from(data@, 0) == match subrecords_from(data@, pos as int) {
                    Some(rest) => Some(models(subs@) + rest),
                    None => None::<Seq<SubrecordModel>>,
                },
            decreases data@.len() - pos,
        {
            if data.len() - pos < 6 {
                if all_zero_from(data, pos) {
                    assert(models(subs@) + Seq::<SubrecordModel>::empty() =~= models(subs@));
                    return Ok(subs);
                } else {
                    let previous = if subs.len() > 0 {
                        assert(subs@[subs@.len() - 1].wf());
                        Some(subs[subs.len() - 1].record_type.clone())
                    } else {
                        None
                    };
                    return Err(EspError::TrailingBytes { offset: pos, count: data.len() - pos, previous });
                }
            }
            match Subrecord::parse(data, pos) {
                Ok((s, next)) => {
                    proof {
                        let rest = subrecords_from(data@, next as int);
                        assert(next > pos);
                        let m = s.model();
                        if rest is Some {
                            assert(models(subs@.push(s)) =~= models(subs@).push(m));
                            assert(models(subs@) + (seq![m] + rest->0) =~= models(subs@).push(m)
                                + rest->0);
                        }
                    }
                    subs.push(s);
                    pos = next;
                },
                Err(e) => {
                    assert(trailing_failure(data@, pos as int, if subs@.len() == 0 { None } else { Some(subs@.last().record_type_bytes@) }) is None);
                    return Err(e);
                },
            }
        }
        assert(models(subs@) + Seq::<SubrecordModel>::empty() =~= models(subs@));
        Ok(subs)
    }

    /// Parses the record at `pos`; returns it with the position after it. A compressed payload
    /// that cannot be decoded leaves the record opaque (no subrecords) instead of failing.
    pub fn parse(data: &[u8], pos: usize) -> (r: Result<(Record, usize), EspError>)
        ensures
            match r {
                Ok((rec, next)) => record_parsed(data@, pos as int, rec, next as int),
                Err(_) => !record_parse_ok(data@, pos as int),
            },
    {
        if pos > data.len() || data.len() - pos < 24 {
            return Err(EspError::Truncated { offset: pos, needed: 24 });
        }
        let tag: [u8; 4] = [data[pos], data[pos + 1], data[pos + 2], data[pos + 3]];
        assert(tag@ =~= data@.subrange(pos as int, pos + 4));
        let record_type = utf8_lossy(tag.as_slice());
        let data_size = read_u32(data, pos + 4).unwrap();
        if data_size > MAX_RECORD_SIZE {
            return Err(EspError::SizeOutOfBounds { offset: pos, size: data_size });
        }
        let flags = read_u32(data, pos + 8).unwrap();
        let form_id = read_u32(data, pos + 12).unwrap();
        let timestamp = read_u16(data, pos + 16).unwrap();
        let version_control_info = read_u16(data, pos + 18).unwrap();
        let internal_version = read_u16(data, pos + 20).unwrap();
        let unknown = read_u16(data, pos + 22).unwrap();
        if data.len() - pos - 24 < data_size as usize {
            return Err(EspError::Truncated { offset: pos + 24, needed: data_size as usize });
        }
        let end = pos + 24 + data_size as usize;
        let payload = copy_range(data, pos + 24, end);
        let (raw_data, parse_subs, original_compressed_data) = if flags & COMPRESSED_FLAG != 0 {
            match decompress_data(payload.as_slice()) {
                Some(x) => (x, true, Some(payload)),
                None => {
                    let kept = payload.clone();
                    (payload, false, Some(kept))
                },
            }
        } else {
            (payload, true, None)
        };
        assert(opt_view(original_compressed_data) == record_content(data@, pos as int).2);
        let subrecords = if parse_subs {
            match Record::parse_subrecords(raw_data.as_slice()) {
                Ok(v) => v,
                Err(e) => return Err(e),
            }
        } else {
            assert(models(Seq::<Subrecord>::empty()) =~= Seq::<SubrecordModel>::empty());
            Vec::new()
        };
        let rec = Record {
            record_type_bytes: tag,
            record_type,
            data_size,
            flags,
            form_id,
            timestamp,
            version_control_info,
            internal_version,
            unknown,
            original_compressed_data,
            raw_data,
            subrecords,
            is_modified: false,
        };
        Ok((rec, end))
    }
}

/// An unmodified record written back reproduces exactly the bytes it was parsed from.
pub proof fn lemma_record_round_trip(d: Seq<u8>, p: int, r: Record, next: int)
    requires
        record_parsed(d, p, r, next),
    ensures
        record_bytes(r) == Some(d.subrange(p, next)),
{
    let payload = stored_payload(d, p);
    assert(record_payload(r) == Some(payload));
    lemma_u32_round_trip(d, p + 4);
    lemma_u32_round_trip(d, p + 8);
    lemma_u32_round_trip(d, p + 12);
    lemma_u16_round_trip(d, p + 16);
    lemma_u16_round_trip(d, p + 18);
    lemma_u16_round_trip(d, p + 20);
    lemma_u16_round_trip(d, p + 22);
    assert(payload.len() as u32 == u32_at(d, p + 4));
    assert(record_header(r, payload.len() as u32) + payload =~= d.subrange(p, next));
}

/// `s` without its trailing NUL characters.
pub open spec fn strip_trailing_nuls(s: Seq<char>) -> Seq<char>
    decreases s.len(),
{
    if s.len() > 0 && s.last() == '\0' {
        strip_trailing_nuls(s.drop_last())
    } else {
        s
    }
}

/// The index of the first subrecord whose type text is `t`.
pub open spec fn first_of_type(s: Seq<Subrecord>, t: Seq<char>) -> Option<int> {
    if exists|i: int| 0 <= i < s.len() && (#[trigger] s[i]).record_type@ == t {
        Some(choose|i: int| 0 <= i < s.len() && (#[trigger] s[i]).record_type@ == t && forall|j: int| 0 <= j < i ==> (#[trigger] s[j]).record_type@ != t)
    } else {
        None
    }
}

/// The editor id of a record: its first `EDID` payload as text, trailing NULs dropped.
pub open spec fn editor_id_of(s: Seq<Subrecord>) -> Option<Seq<char>> {
    match first_of_type(s, seq!['E', 'D', 'I', 'D']) {
        Some(i) => Some(strip_trailing_nuls(lossy_utf8(s[i].data@))),
        None => None,
    }
}

fn strip_nuls(v: &mut Vec<char>)
    ensures
        final(v)@ == strip_trailing_nuls(old(v)@),
{
    while v.len() > 0 && v[v.len() - 1] == '\0'
        invariant
            strip_trailing_nuls(v@) == strip_trailing_nuls(old(v)@),
        decreases v@.len(),
    {
        v.pop();
    }
}

fn write_subrecord(s: &Subrecord, out: &mut Vec<u8>)
    requires
        s.data@.len() <= u32::MAX,
    ensures
        final(out)@ == old(out)@ + subrecord_bytes(*s),
{
    let n = s.data.len();
    if n <= 0xffff {
        write_bytes(out, s.record_type_bytes.as_slice());
        write_u16(out, n as u16);
        write_bytes(out, s.data.as_slice());
    } else {
        let sentinel: [u8; 4] = [0x58, 0x58, 0x58, 0x58];
        assert(sentinel@ =~= seq![0x58u8, 0x58u8, 0x58u8, 0x58u8]);
        write_bytes(out, sentinel.as_slice());
        write_u16(out, 4);
        write_u32(out, n as u32);
        write_bytes(out, s.record_type_bytes.as_slice());
        write_u16(out, 0);
        write_bytes(out, s.data.as_slice());
    }
    assert(out@ =~= old(out)@ + subrecord_bytes(*s));
}

fn write_subrecords(subs: &Vec<Subrecord>, out: &mut Vec<u8>)
    requires
        subrecords_fit(subs@),
    ensures
        final(out)@ == old(out)@ + subrecords_bytes(subs@),
{
    let mut i: usize = 0;
    while i < subs.len()
        invariant
            i <= subs@.len(),
            subrecords_fit(subs@),
            out@ == old(out)@ + subrecords_bytes(subs@.subrange(0, i as int)),
        decreases subs@.len() - i,
    {
        write_subrecord(&subs[i], out);
        proof {
            let pre = subs@.subrange(0, i as int);
            let post = subs@.subrange(0, i + 1);
            assert(post.drop_last() =~= pre);
            assert(post.last() == subs@[i as int]);
        }
        i = i + 1;
        assert(out@ =~= old(out)@ + subrecords_bytes(subs@.subrange(0, i as int)));
    }
    assert(subs@.subrange(0, i as int) =~= subs@);
}

fn subrecords_fit_exec(subs: &Vec<Subrecord>) -> (r: bool)
    ensures
        r == subrecords_fit(subs@),
{
    let mut i: usize = 0;
    while i < subs.len()
        invariant
            i <= subs@.len(),
            forall|k: int| 0 <= k < i ==> (#[trigger] subs@[k]).data@.len() <= u32::MAX,
        decreases subs@.len() - i,
    {
        if subs[i].data.len() > 0xffff_ffffusize {
            return false;
        }
        i = i + 1;
    }
    true
}

impl Record {
    /// The type as text.
    pub fn get_type(&self) -> (r: &str)
        ensures
            r@ == self.record_type@,
    {
        self.record_type.as_str()
    }

    pub fn get_form_id(&self) -> (r: u32)
        ensures
            r == self.form_id,
    {
        self.form_id
    }

    /// The flag bits.
    pub fn get_flags(&self) -> (r: u32)
        ensures
            r == self.flags,
    {
        self.flags
    }

    /// Marks the record as changed, so that it is re-serialized when written.
    pub fn mark_modified(&mut self)
        ensures
            *final(self) == (Record { is_modified: true, ..*old(self) }),
    {
        self.is_modified = true;
    }

    /// The first subrecord of the given type.
    pub fn find_subrecord(&self, record_type: &str) -> (r: Option<&Subrecord>)
        ensures
            match first_of_type(self.subrecords@, record_type@) {
                Some(i) => r == Some(&self.subrecords@[i]),
                None => r is None,
            },
    {
        let t = record_type.to_owned();
        let mut i: usize = 0;
        while i < self.subrecords.len()
            invariant
                i <= self.subrecords@.len(),
                t@ == record_type@,
                forall|j: int| 0 <= j < i ==> (#[trigger] self.subrecords@[j]).record_type@ != t@,
            decreases self.subrecords@.len() - i,
        {
            if self.subrecords[i].record_type == t {
                assert(first_of_type(self.subrecords@, record_type@) == Some(i as int)) by {
                    let s = self.subrecords@;
                    let k = choose|k: int| 0 <= k < s.len() && (#[trigger] s[k]).record_type@ == t@ && forall|j: int| 0 <= j < k ==> (#[trigger] s[j]).record_type@ != t@;
                    assert(0 <= k < s.len() && s[k].record_type@ == t@);
                    if k < i {
                    } else if k > i {
                        assert(s[i as int].record_type@ == t@);
                    }
                };
                return Some(&self.subrecords[i]);
            }
            i = i + 1;
        }
        None
    }

    /// All subrecords of the given type, in order.
    pub fn find_subrecords(&self, record_type: &str) -> (r: Vec<&Subrecord>)
        ensures
            r@ == self.subrecords@.filter(|s: Subrecord| s.record_type@ == record_type@).map_values(|s: Subrecord| &s),
    {
        let t = record_type.to_owned();
        let mut r: Vec<&Subrecord> = Vec::new();
        let mut i: usize = 0;
        while i < self.subrecords.len()
            invariant
                i <= self.subrecords@.len(),
                t@ == record_type@,
                r@ == self.subrecords@.subrange(0, i as int).filter(|s: Subrecord| s.record_type@ == record_type@).map_values(|s: Subrecord| &s),
            decreases self.subrecords@.len() - i,
        {
            proof {
                let f = |s: Subrecord| s.record_type@ == record_type@;
                assert(self.subrecords@.subrange(0, i + 1).drop_last() =~= self.subrecords@.subrange(0, i as int));
                assert(self.subrecords@.subrange(0, i + 1).filter(f) == if f(self.subrecords@[i as int]) {
                    self.subrecords@.subrange(0, i as int).filter(f).push(self.subrecords@[i as int])
                } else {
                    self.subrecords@.subrange(0, i as int).filter(f)
                }) by {
                    reveal(Seq::filter);
                };
            }
            if self.subrecords[i].record_type == t {
                r.push(&self.subrecords[i]);
            }
            i = i + 1;
            proof {
                let f = |s: Subrecord| s.record_type@ == record_type@;
                let g = |s: Subrecord| &s;
                assert(r@ =~= self.subrecords@.subrange(0, i as int).filter(f).map_values(g));
            }
        }
        assert(self.subrecords@.subrange(0, i as int) =~= self.subrecords@);
        r
    }

    /// The editor id: the first `EDID` payload as text, without trailing NULs.
    pub fn get_editor_id(&self) -> (r: Option<String>)
        ensures
            match r {
                Some(s) => editor_id_of(self.subrecords@) == Some(s@),
                None => editor_id_of(self.subrecords@) is None,
            },
    {
        let edid = "EDID";
        proof {
            reveal_strlit("EDID");
            assert(edid@ =~= seq!['E', 'D', 'I', 'D']);
        }
        match self.find_subrecord(edid) {
            Some(s) => {
                let text = utf8_lossy(s.data.as_slice());
                let mut cs = crate::text::chars_of(text.as_str());
                strip_nuls(&mut cs);
                Some(crate::text::string_from_chars(cs.as_slice()))
            },
            None => None,
        }
    }

    /// The payload this record is written with (see `record_payload`).
    fn payload_bytes(&self) -> (r: Result<Vec<u8>, EspError>)
        ensures
            match r {
                Ok(p) => record_payload(*self) == Some(p@),
                Err(_) => record_payload(*self) is None,
            },
    {
        if self.is_modified {
            if !subrecords_fit_exec(&self.subrecords) {
                return Err(EspError::SizeOverflow);
            }
            let mut body: Vec<u8> = Vec::new();
            write_subrecords(&self.subrecords, &mut body);
            assert(body@ =~= subrecords_bytes(self.subrecords@));
            if self.flags & COMPRESSED_FLAG != 0 {
                self.recompress_body(body)
            } else {
                Ok(body)
            }
        } else {
            match &self.original_compressed_data {
                Some(c) => Ok(c.clone()),
                None => Ok(self.raw_data.clone()),
            }
        }
    }

    fn recompress_body(&self, body: Vec<u8>) -> (r: Result<Vec<u8>, EspError>)
        ensures
            match r {
                Ok(p) => body@.len() <= u32::MAX && zlib_compressed(body@) is Some && p@ == u32_le(
                    body@.len() as u32,
                ) + zlib_compressed(body@)->0,
                Err(_) => body@.len() > u32::MAX || zlib_compressed(body@) is None,
            },
    {
        if body.len() > 0xffff_ffffusize {
            return Err(EspError::SizeOverflow);
        }
        match zlib_encode(body.as_slice()) {
            Some(z) => {
                let mut p: Vec<u8> = Vec::new();
                write_u32(&mut p, body.len() as u32);
                write_bytes(&mut p, z.as_slice());
                Ok(p)
            },
            None => Err(EspError::CompressionFailed),
        }
    }

    /// The subrecords serialized and compressed, behind their 4-byte uncompressed length.
    pub fn recompress_data(&self) -> (r: Result<Vec<u8>, EspError>)
        ensures
            match r {
                Ok(p) => subrecords_fit(self.subrecords@) && subrecords_bytes(self.subrecords@).len()
                    <= u32::MAX && zlib_compressed(subrecords_bytes(self.subrecords@)) is Some && p@
                    == u32_le(subrecords_bytes(self.subrecords@).len() as u32) + zlib_compressed(
                    subrecords_bytes(self.subrecords@),
                )->0,
                Err(_) => !subrecords_fit(self.subrecords@) || subrecords_bytes(self.subrecords@).len()
                    > u32::MAX || zlib_compressed(subrecords_bytes(self.subrecords@)) is None,
            },
    {
        if !subrecords_fit_exec(&self.subrecords) {
            return Err(EspError::SizeOverflow);
        }
        let mut body: Vec<u8> = Vec::new();
        write_subrecords(&self.subrecords, &mut body);
        assert(body@ =~= subrecords_bytes(self.subrecords@));
        self.recompress_body(body)
    }

    /// Appends the record as written (see `record_bytes`): the kept bytes when unmodified, else
    /// its subrecords re-serialized, with the data size set to what is emitted.
    pub fn write(&self, out: &mut Vec<u8>) -> (r: Result<(), EspError>)
        ensures
            match r {
                Ok(()) => record_bytes(*self) is Some && final(out)@ == old(out)@ + record_bytes(*self)->0,
                Err(_) => final(out)@ == old(out)@ && record_bytes(*self) is None,
            },
    {
        let payload = match self.payload_bytes() {
            Ok(p) => p,
            Err(e) => return Err(e),
        };
        if payload.len() > 0xffff_ffffusize {
            return Err(EspError::SizeOverflow);
        }
        write_bytes(out, self.record_type_bytes.as_slice());
        write_u32(out, payload.len() as u32);
        write_u32(out, self.flags);
        write_u32(out, self.form_id);
        write_u16(out, self.timestamp);
        write_u16(out, self.version_control_info);
        write_u16(out, self.internal_version);
        write_u16(out, self.unknown);
        write_bytes(out, payload.as_slice());
        assert(out@ =~= old(out)@ + record_bytes(*self)->0);
        Ok(())
    }
}

/// The known flag bits, each with its name.
pub open spec fn known_flags() -> Seq<(u32, Seq<char>)> {
    seq![
        (0x40000u32, seq!['C', 'O', 'M', 'P', 'R', 'E', 'S', 'S', 'E', 'D']),
        (0x20u32, seq!['D', 'E', 'L', 'E', 'T', 'E', 'D']),
        (0x400u32, seq!['P', 'E', 'R', 'S', 'I', 'S', 'T', 'E', 'N', 'T']),
        (0x800u32, seq!['D', 'I', 'S', 'A', 'B', 'L', 'E', 'D']),
        (0x1u32, seq!['M', 'A', 'S', 'T', 'E', 'R', '_', 'F', 'I', 'L', 'E']),
        (0x80u32, seq!['L', 'O', 'C', 'A', 'L', 'I', 'Z', 'E', 'D']),
        (0x200u32, seq!['L', 'I', 'G', 'H', 'T', '_', 'M', 'A', 'S', 'T', 'E', 'R']),
        (0x8000u32, seq!['V', 'I', 'S', 'I', 'B', 'L', 'E', '_', 'D', 'I', 'S', 'T', 'A', 'N', 'T']),
    ]
}

/// The names of the known flags set in `flags`, in the order of `known_flags`.
pub open spec fn flag_names(flags: u32, n: int) -> Seq<Seq<char>>
    decreases n,
{
    if n <= 0 || n > 8 {
        Seq::empty()
    } else {
        flag_names(flags, n - 1) + if flags & known_flags()[n - 1].0 != 0 {
            seq![known_flags()[n - 1].1]
        } else {
            Seq::empty()
        }
    }
}

impl Record {
    /// The names of the known flags that are set.
    pub fn debug_flags(&self) -> (r: Vec<String>)
        ensures
            r@.map_values(|s: String| s@) == flag_names(self.flags, 8),
    {
        let bits: [u32; 8] = [0x40000, 0x20, 0x400, 0x800, 0x1, 0x80, 0x200, 0x8000];
        let names: [&str; 8] = ["COMPRESSED", "DELETED", "PERSISTENT", "DISABLED", "MASTER_FILE", "LOCALIZED", "LIGHT_MASTER", "VISIBLE_DISTANT"];
        proof {
            reveal_strlit("COMPRESSED");
            reveal_strlit("DELETED");
            reveal_strlit("PERSISTENT");
            reveal_strlit("DISABLED");
            reveal_strlit("MASTER_FILE");
            reveal_strlit("LOCALIZED");
            reveal_strlit("LIGHT_MASTER");
            reveal_strlit("VISIBLE_DISTANT");
        }
        let mut r: Vec<String> = Vec::new();
        let mut i: usize = 0;
        while i < 8
            invariant
                i <= 8,
                forall|k: int| 0 <= k < 8 ==> bits@[k] == (#[trigger] known_flags()[k]).0 && names@[k]@ == known_flags()[k].1,
                r@.map_values(|s: String| s@) == flag_names(self.flags, i as int),
            decreases 8 - i,
        {
            let ghost prev = r@;
            let ghost kf = known_flags()[i as int];
            assert(names@[i as int]@ == kf.1 && bits@[i as int] == kf.0);
            if self.flags & bits[i] != 0 {
                r.push(names[i].to_owned());
                assert(r@.map_values(|s: String| s@) =~= prev.map_values(|s: String| s@).push(known_flags()[i as int].1));
            }
            i = i + 1;
        }
        r
    }
}

} // verus!
