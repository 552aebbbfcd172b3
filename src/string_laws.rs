//! Laws of the string-table codec: the layout a rebuild produces, and reading it back.
use vstd::prelude::*;
use vstd::utf8::{encode_utf8, encode_utf8_valid_utf8, encode_utf8_decode_utf8};
use crate::bytes::{u32_at, u32_le, lemma_u32_at_written};
use crate::string_file::{
    StringEntry, StringFileType, EntryModel, blob_of, directory_of, entry_blob, offset_of,
    table_bytes, table_fits, ids_ascending, prefixed, sorted_insert, slots_read, slot_at,
    string_at, table_read, first_zero,
};
use crate::text::utf8_text;

verus! {

proof fn lemma_directory(t: StringFileType, s: Seq<StringEntry>, m: int, i: int)
    requires
        0 <= i < m <= s.len(),
    ensures
        directory_of(t, s, m).len() == 8 * m,
        directory_of(t, s, m).subrange(8 * i, 8 * i + 4) == u32_le(s[i].id),
        directory_of(t, s, m).subrange(8 * i + 4, 8 * i + 8) == u32_le(offset_of(t, s, i) as u32),
    decreases m,
{
    lemma_directory_len(t, s, m);
    let d = directory_of(t, s, m);
    let prev = directory_of(t, s, m - 1);
    lemma_directory_len(t, s, m - 1);
    if i < m - 1 {
        lemma_directory(t, s, m - 1, i);
        assert(d.subrange(8 * i, 8 * i + 4) =~= prev.subrange(8 * i, 8 * i + 4));
        assert(d.subrange(8 * i + 4, 8 * i + 8) =~= prev.subrange(8 * i + 4, 8 * i + 8));
    } else {
        assert(d.subrange(8 * i, 8 * i + 4) =~= u32_le(s[i].id));
        assert(d.subrange(8 * i + 4, 8 * i + 8) =~= u32_le(offset_of(t, s, i) as u32));
    }
}

proof fn lemma_directory_len(t: StringFileType, s: Seq<StringEntry>, m: int)
    requires
        0 <= m <= s.len(),
    ensures
        directory_of(t, s, m).len() == 8 * m,
    decreases m,
{
    if m > 0 {
        lemma_directory_len(t, s, m - 1);
    }
}

/// The blob of the first `j` entries is the start of the blob of the first `k`.
proof fn lemma_blob_prefix(t: StringFileType, s: Seq<StringEntry>, j: int, k: int)
    requires
        0 <= j <= k <= s.len(),
    ensures
        blob_of(t, s.subrange(0, j)).len() <= blob_of(t, s.subrange(0, k)).len(),
        blob_of(t, s.subrange(0, k)).subrange(0, blob_of(t, s.subrange(0, j)).len() as int) == blob_of(t, s.subrange(0, j)),
    decreases k - j,
{
    if j == k {
        assert(blob_of(t, s.subrange(0, k)).subrange(0, blob_of(t, s.subrange(0, j)).len() as int) =~= blob_of(t, s.subrange(0, j)));
    } else {
        lemma_blob_prefix(t, s, j, k - 1);
        assert(s.subrange(0, k).drop_last() =~= s.subrange(0, k - 1));
        let a = blob_of(t, s.subrange(0, j));
        let b = blob_of(t, s.subrange(0, k - 1));
        let c = blob_of(t, s.subrange(0, k));
        assert(c == b + entry_blob(t, s[k - 1].content@));
        assert(c.subrange(0, a.len() as int) =~= b.subrange(0, a.len() as int));
    }
}

/// Where entry `i` lies in the blob: at its offset, followed by the next entry's offset.
proof fn lemma_entry_in_blob(t: StringFileType, s: Seq<StringEntry>, i: int)
    requires
        0 <= i < s.len(),
    ensures
        offset_of(t, s, i) + entry_blob(t, s[i].content@).len() == offset_of(t, s, i + 1),
        offset_of(t, s, i + 1) <= blob_of(t, s).len(),
        blob_of(t, s).subrange(offset_of(t, s, i), offset_of(t, s, i + 1)) == entry_blob(t, s[i].content@),
{
    assert(s.subrange(0, i + 1).drop_last() =~= s.subrange(0, i));
    let a = blob_of(t, s.subrange(0, i));
    let c = blob_of(t, s.subrange(0, i + 1));
    assert(c == a + entry_blob(t, s[i].content@));
    lemma_blob_prefix(t, s, i + 1, s.len() as int);
    assert(s.subrange(0, s.len() as int) =~= s);
    let whole = blob_of(t, s);
    assert(whole.subrange(0, c.len() as int) == c);
    assert(whole.subrange(a.len() as int, c.len() as int) =~= c.subrange(a.len() as int, c.len() as int));
    assert(c.subrange(a.len() as int, c.len() as int) =~= entry_blob(t, s[i].content@));
}

/// A rebuilt table lays out what its header, directory and blob say: the entry count, then for
/// each entry in ascending id order its id and the offset at which its bytes (length prefix if
/// any, UTF-8 text, NUL) lie in the blob, offsets growing with the ids.
pub proof fn lemma_rebuild_layout(t: StringFileType, s: Seq<StringEntry>, i: int)
    requires
        ids_ascending(s),
        table_fits(t, s),
        0 <= i < s.len(),
    ensures
        u32_at(table_bytes(t, s), 0) == s.len(),
        u32_at(table_bytes(t, s), 8 + 8 * i) == s[i].id,
        u32_at(table_bytes(t, s), 12 + 8 * i) == offset_of(t, s, i),
        table_bytes(t, s).subrange(8 + 8 * s.len() + offset_of(t, s, i), 8 + 8 * s.len() + offset_of(t, s, i + 1)) == entry_blob(t, s[i].content@),
        i + 1 < s.len() ==> s[i].id < s[i + 1].id && offset_of(t, s, i) < offset_of(t, s, i + 1),
{
    let n = s.len() as int;
    let b = table_bytes(t, s);
    let dir = directory_of(t, s, n);
    let blob = blob_of(t, s);
    lemma_directory(t, s, n, i);
    lemma_entry_in_blob(t, s, i);
    assert(b == u32_le(n as u32) + u32_le(blob.len() as u32) + dir + blob);
    assert(b.subrange(0, 4) =~= u32_le(n as u32));
    lemma_u32_at_written(b, 0, n as u32);
    assert(b.subrange(8 + 8 * i, 8 + 8 * i + 4) =~= dir.subrange(8 * i, 8 * i + 4));
    lemma_u32_at_written(b, 8 + 8 * i, s[i].id);
    lemma_blob_prefix(t, s, i, n);
    assert(s.subrange(0, n) =~= s);
    assert(offset_of(t, s, i) <= blob.len());
    assert(b.subrange(12 + 8 * i, 12 + 8 * i + 4) =~= dir.subrange(8 * i + 4, 8 * i + 8));
    lemma_u32_at_written(b, 12 + 8 * i, offset_of(t, s, i) as u32);
    let base = 8 + 8 * n;
    assert(b.subrange(base + offset_of(t, s, i), base + offset_of(t, s, i + 1)) =~= blob.subrange(offset_of(t, s, i), offset_of(t, s, i + 1)));
    if i + 1 < n {
        assert(s[i].id < s[i + 1].id);
    }
}

proof fn lemma_first_zero_at(d: Seq<u8>, a: int, e: int, z: int)
    requires
        a <= z <= e,
        forall|j: int| a <= j < z ==> d[j] != 0,
        z < e ==> d[z] == 0,
    ensures
        first_zero(d, a, e) == z,
    decreases z - a,
{
    if a < z {
        lemma_first_zero_at(d, a + 1, e, z);
    }
}

proof fn lemma_sorted_insert_last(r: Seq<EntryModel>, e: EntryModel)
    requires
        forall|j: int| 0 <= j < r.len() ==> (#[trigger] r[j]).0 < e.0,
    ensures
        sorted_insert(r, e) == r.push(e),
    decreases r.len(),
{
    if r.len() > 0 {
        lemma_sorted_insert_last(r.drop_first(), e);
        assert(seq![r[0]] + r.drop_first().push(e) =~= r.push(e));
    }
}

proof fn lemma_text_round_trip(c: Seq<char>)
    ensures
        utf8_text(encode_utf8(c)) == c,
{
    encode_utf8_valid_utf8(c);
    encode_utf8_decode_utf8(c);
}

proof fn lemma_no_zero(enc: Seq<u8>)
    requires
        !enc.contains(0u8),
    ensures
        forall|j: int| 0 <= j < enc.len() ==> enc[j] != 0,
{
    assert forall|j: int| 0 <= j < enc.len() implies enc[j] != 0 by {
        if enc[j] == 0 {
            assert(enc.contains(0u8));
        }
    }
}

/// The entry bytes of a length-prefixed kind at `abs` read back as their text.
proof fn lemma_prefixed_string_at(b: Seq<u8>, t: StringFileType, abs: int, c: Seq<char>)
    requires
        prefixed(t),
        0 <= abs,
        abs + entry_blob(t, c).len() <= b.len(),
        b.subrange(abs, abs + entry_blob(t, c).len()) == entry_blob(t, c),
        encode_utf8(c).len() <= u32::MAX,
        !encode_utf8(c).contains(0u8),
    ensures
        string_at(b, t, abs) matches Some((text, _, _)) && text == c,
{
    let enc = encode_utf8(c);
    let eb = entry_blob(t, c);
    lemma_no_zero(enc);
    lemma_text_round_trip(c);
    assert(eb == u32_le(enc.len() as u32) + enc + seq![0u8]);
    assert(b.subrange(abs, abs + 4) =~= eb.subrange(0, 4));
    assert(eb.subrange(0, 4) =~= u32_le(enc.len() as u32));
    lemma_u32_at_written(b, abs, enc.len() as u32);
    assert forall|j: int| abs + 4 <= j < abs + 4 + enc.len() implies b[j] != 0 by {
        assert(b[j] == b.subrange(abs, abs + eb.len())[j - abs]);
        assert(eb[j - abs] == enc[j - abs - 4]);
    }
    lemma_first_zero_at(b, abs + 4, abs + 4 + enc.len(), abs + 4 + enc.len());
    assert(b.subrange(abs + 4, abs + 4 + enc.len()) =~= enc) by {
        assert forall|j: int| 0 <= j < enc.len() implies b.subrange(abs + 4, abs + 4 + enc.len())[j] == enc[j] by {
            assert(b[abs + 4 + j] == b.subrange(abs, abs + eb.len())[4 + j]);
            assert(eb[4 + j] == enc[j]);
        }
    }
}

/// The entry bytes of the general kind at `abs` read back as their text.
proof fn lemma_plain_string_at(b: Seq<u8>, t: StringFileType, abs: int, c: Seq<char>)
    requires
        !prefixed(t),
        0 <= abs,
        abs + entry_blob(t, c).len() <= b.len(),
        b.subrange(abs, abs + entry_blob(t, c).len()) == entry_blob(t, c),
        !encode_utf8(c).contains(0u8),
    ensures
        string_at(b, t, abs) matches Some((text, _, _)) && text == c,
{
    let enc = encode_utf8(c);
    let eb = entry_blob(t, c);
    lemma_no_zero(enc);
    lemma_text_round_trip(c);
    assert(eb == enc + seq![0u8]);
    assert forall|j: int| abs <= j < abs + enc.len() implies b[j] != 0 by {
        assert(b[j] == b.subrange(abs, abs + eb.len())[j - abs]);
        assert(eb[j - abs] == enc[j - abs]);
    }
    assert(b[abs + enc.len()] == b.subrange(abs, abs + eb.len())[enc.len() as int]);
    lemma_first_zero_at(b, abs, b.len() as int, abs + enc.len());
    assert(b.subrange(abs, abs + enc.len()) =~= enc) by {
        assert forall|j: int| 0 <= j < enc.len() implies b.subrange(abs, abs + enc.len())[j] == enc[j] by {
            assert(b[abs + j] == b.subrange(abs, abs + eb.len())[j]);
            assert(eb[j] == enc[j]);
        }
    }
}

/// Directory slot `i` of a rebuilt table reads back as entry `i`'s id and text.
#[verifier::rlimit(60)]
proof fn lemma_slot_reads_back(t: StringFileType, s: Seq<StringEntry>, i: int)
    requires
        ids_ascending(s),
        table_fits(t, s),
        0 <= i < s.len(),
        forall|k: int| 0 <= k < s.len() ==> !encode_utf8((#[trigger] s[k]).content@).contains(0u8),
    ensures
        slot_at(table_bytes(t, s), t, s.len() as int, i) matches Some(Some(e)) && e.0 == s[i].id && e.5 == s[i].content@,
{
    let n = s.len() as int;
    let b = table_bytes(t, s);
    let blob = blob_of(t, s);
    lemma_rebuild_layout(t, s, i);
    lemma_entry_in_blob(t, s, i);
    lemma_directory_len(t, s, n);
    assert(b.len() == 8 + 8 * n + blob.len());
    let off = offset_of(t, s, i);
    let abs = 8 + 8 * n + off;
    let c = s[i].content@;
    let eb = entry_blob(t, c);
    assert(eb.len() >= 1);
    assert(!encode_utf8(c).contains(0u8));
    if prefixed(t) {
        assert(encode_utf8(c).len() <= eb.len());
        lemma_prefixed_string_at(b, t, abs, c);
    } else {
        lemma_plain_string_at(b, t, abs, c);
    }
}

proof fn lemma_slots_read_back(t: StringFileType, s: Seq<StringEntry>, m: int)
    requires
        ids_ascending(s),
        table_fits(t, s),
        0 <= m <= s.len(),
        forall|k: int| 0 <= k < s.len() ==> !encode_utf8((#[trigger] s[k]).content@).contains(0u8),
    ensures
        slots_read(table_bytes(t, s), t, s.len() as int, m) matches Some((r, k)) && k == 0 && r.len() == m
            && forall|j: int| 0 <= j < m ==> (#[trigger] r[j]).0 == s[j].id && r[j].5 == s[j].content@,
    decreases m,
{
    if m > 0 {
        lemma_slots_read_back(t, s, m - 1);
        lemma_slot_reads_back(t, s, m - 1);
        let (r, k) = slots_read(table_bytes(t, s), t, s.len() as int, m - 1)->0;
        let e = slot_at(table_bytes(t, s), t, s.len() as int, m - 1)->0->0;
        assert forall|j: int| 0 <= j < r.len() implies (#[trigger] r[j]).0 < e.0 by {
            assert(s[j].id < s[m - 1].id);
        }
        lemma_sorted_insert_last(r, e);
        let r2 = r.push(e);
        assert forall|j: int| 0 <= j < m implies (#[trigger] r2[j]).0 == s[j].id && r2[j].5 == s[j].content@ by {
            if j < m - 1 {
                assert(r2[j] == r[j]);
            }
        }
    }
}

/// Reading back a rebuilt table gives the same ids with the same texts, in ascending id
/// order, and skips nothing; this holds for texts without a NUL character, which would end a
/// text early when it is read.
pub proof fn lemma_rebuild_reparse(t: StringFileType, s: Seq<StringEntry>)
    requires
        ids_ascending(s),
        table_fits(t, s),
        forall|k: int| 0 <= k < s.len() ==> !encode_utf8((#[trigger] s[k]).content@).contains(0u8),
    ensures
        table_read(table_bytes(t, s), t) matches Some((r, k)) && k == 0 && r.len() == s.len()
            && forall|j: int| 0 <= j < s.len() ==> (#[trigger] r[j]).0 == s[j].id && r[j].5 == s[j].content@,
{
    let b = table_bytes(t, s);
    lemma_directory_len(t, s, s.len() as int);
    assert(b.subrange(0, 4) =~= u32_le(s.len() as u32));
    lemma_u32_at_written(b, 0, s.len() as u32);
    lemma_slots_read_back(t, s, s.len() as int);
}

} // verus!
