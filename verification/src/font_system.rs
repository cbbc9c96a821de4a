use vstd::prelude::*;

use crate::types::FontWeight;

verus! {

/// Big-endian 32-bit value of the four bytes at `p`.
pub open spec fn be_u32_at(s: Seq<u8>, p: int) -> int {
    s[p] * 16777216 + s[p + 1] * 65536 + s[p + 2] * 256 + s[p + 3]
}

/// Big-endian 16-bit value of the two bytes at `p`.
pub open spec fn be_u16_at(s: Seq<u8>, p: int) -> int {
    s[p] * 256 + s[p + 1]
}

/// Whether `data` begins with the TrueType Collection tag `ttcf`.
pub open spec fn is_collection(data: Seq<u8>) -> bool {
    &&& data.len() >= 4
    &&& data[0] == 0x74u8
    &&& data[1] == 0x74u8
    &&& data[2] == 0x63u8
    &&& data[3] == 0x66u8
}

/// Position of the offset field of table record `i` in a font's table
/// directory (12-byte header, 16-byte records, offset after tag and checksum).
pub open spec fn record_offset_pos(i: int) -> int {
    12 + i * 16 + 8
}

/// How many leading table records of `face` have their offset field inside
/// `face`, capped by the table count that `face` declares.
pub open spec fn patched_record_count(face: Seq<u8>) -> int {
    let n = be_u16_at(face, 4);
    if face.len() < 24 {
        0
    } else if n <= (face.len() - 24) / 16 + 1 {
        n
    } else {
        (face.len() - 24) / 16 + 1
    }
}

/// `s` with the four bytes at `p` replaced by the big-endian encoding of `v`.
pub open spec fn write_be_u32(s: Seq<u8>, p: int, v: int) -> Seq<u8> {
    s.update(p, (v / 16777216) as u8).update(p + 1, ((v / 65536) % 256) as u8).update(
        p + 2,
        ((v / 256) % 256) as u8,
    ).update(p + 3, (v % 256) as u8)
}

/// `face` with the offset fields of its first `k` table records reduced by `off`.
pub open spec fn rebased_records(face: Seq<u8>, off: int, k: int) -> Seq<u8>
    decreases k,
{
    if k <= 0 {
        face
    } else {
        let p = record_offset_pos(k - 1);
        write_be_u32(rebased_records(face, off, k - 1), p, be_u32_at(face, p) - off)
    }
}

/// None of the first `k` table-record offsets of `face` lies below `off`.
pub open spec fn record_offsets_at_least(face: Seq<u8>, off: int, k: int) -> bool {
    forall|i: int| 0 <= i < k ==> be_u32_at(face, #[trigger] record_offset_pos(i)) >= off
}

/// Position of the directory offset of face `face_index` in a collection header.
pub open spec fn face_offset_pos(face_index: u32) -> int {
    12 + 4 * face_index
}

/// The collection header names face `face_index` and has room for its offset.
pub open spec fn collection_lists_face(data: Seq<u8>, face_index: u32) -> bool {
    &&& is_collection(data)
    &&& data.len() >= 12
    &&& face_index < be_u32_at(data, 8)
    &&& face_offset_pos(face_index) + 4 <= data.len()
}

/// When the collection lists the face, its directory offset lies within `data`.
pub open spec fn face_offset_in_bounds(data: Seq<u8>, face_index: u32) -> bool {
    collection_lists_face(data, face_index) ==> be_u32_at(data, face_offset_pos(face_index))
        <= data.len()
}

/// The single font that `extract_ttc_face` yields for `data` and `face_index`.
///
/// Data that is not a collection is returned unchanged. For a collection,
/// the face's bytes from its directory offset to the end of `data` are taken,
/// and the offsets of the table records that fit are made relative to that
/// start; a missing header field, a face index the header does not list, a
/// face shorter than six bytes or a table offset below the face start gives
/// no font.
pub open spec fn extracted_face(data: Seq<u8>, face_index: u32) -> Option<Seq<u8>> {
    if !is_collection(data) {
        Some(data)
    } else if !collection_lists_face(data, face_index) {
        None
    } else {
        let off = be_u32_at(data, face_offset_pos(face_index));
        let face = data.subrange(off, data.len() as int);
        if face.len() < 6 {
            None
        } else if !record_offsets_at_least(face, off, patched_record_count(face)) {
            None
        } else {
            Some(rebased_records(face, off, patched_record_count(face)))
        }
    }
}

/// Rebasing the first `k` records leaves the length unchanged and every byte
/// from the offset field of record `k` onwards as it was.
proof fn lemma_rebased_prefix(face: Seq<u8>, off: int, k: int)
    requires
        0 <= k,
        k > 0 ==> record_offset_pos(k - 1) + 4 <= face.len(),
    ensures
        rebased_records(face, off, k).len() == face.len(),
        forall|p: int|
            record_offset_pos(k) <= p < face.len() ==> #[trigger] rebased_records(face, off, k)[p]
                == face[p],
    decreases k,
{
    if k > 0 {
        lemma_rebased_prefix(face, off, k - 1);
    }
}

/// A record index is below the patched count exactly when it is below the
/// declared table count and its offset field fits.
proof fn lemma_patched_count(face: Seq<u8>, i: int)
    requires
        0 <= i,
        face.len() >= 6,
    ensures
        0 <= patched_record_count(face) <= be_u16_at(face, 4),
        i < patched_record_count(face) <==> (i < be_u16_at(face, 4) && record_offset_pos(i) + 4
            <= face.len()),
{
    let len = face.len() as int;
    if len >= 24 {
        let q = (len - 24) / 16;
        assert(0 <= q && 16 * q <= len - 24 && len - 24 < 16 * q + 16) by (nonlinear_arith)
            requires
                len >= 24,
                q == (len - 24) / 16,
        ;
    }
}

/// Reads the big-endian `u32` at `p`.
fn read_be_u32(s: &[u8], p: usize) -> (v: u32)
    requires
        p + 4 <= s@.len(),
    ensures
        v == be_u32_at(s@, p as int),
{
    (s[p] as u32) * 16777216 + (s[p + 1] as u32) * 65536 + (s[p + 2] as u32) * 256 + (s[p
        + 3] as u32)
}

/// Writes `v` big-endian at `p`.
fn store_be_u32(s: &mut Vec<u8>, p: usize, v: u32)
    requires
        p + 4 <= old(s)@.len(),
    ensures
        final(s)@ == write_be_u32(old(s)@, p as int, v as int),
{
    let _n = s.len();
    s.set(p, (v / 16777216) as u8);
    s.set(p + 1, ((v / 65536) % 256) as u8);
    s.set(p + 2, ((v / 256) % 256) as u8);
    s.set(p + 3, (v % 256) as u8);
}

/// Copies `data[start..]` into a new vector.
fn copy_tail(data: &[u8], start: usize) -> (v: Vec<u8>)
    requires
        start <= data@.len(),
    ensures
        v@ == data@.subrange(start as int, data@.len() as int),
{
    let len = data.len();
    let mut v: Vec<u8> = Vec::with_capacity(len - start);
    let mut i = start;
    while i < len
        invariant
            len == data@.len(),
            start <= i <= len,
            v@ == data@.subrange(start as int, i as int),
        decreases len - i,
    {
        v.push(data[i]);
        i = i + 1;
    }
    v
}

/// If `data` is a TrueType Collection (starts with `ttcf`), extracts the
/// individual font at `face_index`. Otherwise returns `data` unchanged.
///
/// The face is sliced out and its table directory fixed up so that all table
/// offsets are relative to the start of the extracted data rather than
/// absolute within the collection.
pub fn extract_ttc_face(data: &[u8], face_index: u32) -> (res: Option<Vec<u8>>)
    requires
        face_offset_in_bounds(data@, face_index),
    ensures
        res matches Some(v) ==> extracted_face(data@, face_index) == Some(v@),
        res is None ==> extracted_face(data@, face_index) is None,
        is_collection(data@) ==> (res matches Some(v) ==> v@.len() == data@.len() - be_u32_at(
            data@,
            12 + 4 * face_index,
        )),
{
    let len = data.len();
    if !(len >= 4 && data[0] == 0x74u8 && data[1] == 0x74u8 && data[2] == 0x63u8 && data[3]
        == 0x66u8) {
        let copy = copy_tail(data, 0);
        assert(copy@ =~= data@);
        return Some(copy);
    }
    if len < 12 {
        return None;
    }
    let num_fonts = read_be_u32(data, 8);
    if face_index >= num_fonts {
        return None;
    }
    let offset_pos: u64 = 12 + (face_index as u64) * 4;
    if offset_pos + 4 > len as u64 {
        return None;
    }
    let ttc_offset = read_be_u32(data, offset_pos as usize) as usize;
    let ghost off = ttc_offset as int;
    let ghost face = data@.subrange(off, len as int);
    if len - ttc_offset < 6 {
        return None;
    }
    assert(is_collection(data@));
    assert(collection_lists_face(data@, face_index));
    assert(off == be_u32_at(data@, face_offset_pos(face_index)));
    let mut result = copy_tail(data, ttc_offset);
    let num_tables = ((result[4] as u16) * 256 + (result[5] as u16)) as usize;
    let mut i: usize = 0;
    while i < num_tables
        invariant_except_break
            i <= num_tables,
        invariant
            is_collection(data@),
            collection_lists_face(data@, face_index),
            off == be_u32_at(data@, face_offset_pos(face_index)),
            face == data@.subrange(off, data@.len() as int),
            num_tables == be_u16_at(face, 4),
            face.len() >= 6,
            off == ttc_offset,
            ttc_offset <= u32::MAX,
            result@ == rebased_records(face, off, i as int),
            result@.len() == face.len(),
            forall|k: int| 0 <= k < i ==> record_offset_pos(k) + 4 <= face.len(),
            record_offsets_at_least(face, off, i as int),
        ensures
            i <= num_tables,
            result@ == rebased_records(face, off, i as int),
            i == patched_record_count(face),
            record_offsets_at_least(face, off, i as int),
        decreases num_tables - i,
    {
        let rec_pos = 12 + i * 16 + 8;
        if rec_pos + 4 > result.len() {
            proof {
                lemma_patched_count(face, i as int);
                if i > 0 {
                    lemma_patched_count(face, i - 1);
                }
            }
            break;
        }
        proof {
            lemma_rebased_prefix(face, off, i as int);
        }
        let old_off = read_be_u32(result.as_slice(), rec_pos);
        let new_off = match old_off.checked_sub(ttc_offset as u32) {
            Some(v) => v,
            None => {
                proof {
                    lemma_patched_count(face, i as int);
                    let rp = record_offset_pos(i as int);
                    assert(result@[rp] == face[rp]);
                    assert(result@[rp + 1] == face[rp + 1]);
                    assert(result@[rp + 2] == face[rp + 2]);
                    assert(result@[rp + 3] == face[rp + 3]);
                    assert(be_u32_at(face, record_offset_pos(i as int)) < off);
                    assert(!record_offsets_at_least(face, off, patched_record_count(face)));
                }
                return None;
            },
        };
        store_be_u32(&mut result, rec_pos, new_off);
        i = i + 1;
    }
    proof {
        if i == num_tables && num_tables > 0 {
            lemma_patched_count(face, i as int);
            lemma_patched_count(face, i - 1);
        } else if i == num_tables {
            lemma_patched_count(face, 0);
        }
        assert(extracted_face(data@, face_index) == Some(result@));
        lemma_face_cut_at_its_entry(data@, face_index, 0);
    }
    Some(result)
}

/// Whether `extract_ttc_face` accepts `data` and `face_index`: when the
/// collection header lists the face, its directory offset lies within `data`.
pub fn face_offset_fits(data: &[u8], face_index: u32) -> (r: bool)
    ensures
        r == face_offset_in_bounds(data@, face_index),
{
    let len = data.len();
    if !(len >= 4 && data[0] == 0x74u8 && data[1] == 0x74u8 && data[2] == 0x63u8 && data[3]
        == 0x66u8) {
        return true;
    }
    if len < 12 {
        return true;
    }
    if face_index >= read_be_u32(data, 8) {
        return true;
    }
    let offset_pos: u64 = 12 + (face_index as u64) * 4;
    if offset_pos + 4 > len as u64 {
        return true;
    }
    (read_be_u32(data, offset_pos as usize) as usize) <= len
}

/// The four bytes written for `v` read back as `v`.
proof fn lemma_be_roundtrip(s: Seq<u8>, p: int, v: u32)
    requires
        0 <= p,
        p + 4 <= s.len(),
    ensures
        be_u32_at(write_be_u32(s, p, v as int), p) == v,
        write_be_u32(s, p, v as int).len() == s.len(),
{
    let b0 = v / 16777216;
    let b1 = (v / 65536) % 256;
    let b2 = (v / 256) % 256;
    let b3 = v % 256;
    assert(b0 < 256 && b1 < 256 && b2 < 256 && b3 < 256) by (bit_vector)
        requires
            b0 == v / 16777216,
            b1 == (v / 65536) % 256,
            b2 == (v / 256) % 256,
            b3 == v % 256,
    ;
    assert(b0 * 16777216 + b1 * 65536 + b2 * 256 + b3 == v) by (bit_vector)
        requires
            b0 == v / 16777216,
            b1 == (v / 65536) % 256,
            b2 == (v / 256) % 256,
            b3 == v % 256,
    ;
}

/// After rebasing the first `k` records, the offset field of each of them
/// reads as its old value less `off`.
proof fn lemma_rebased_reads_back(face: Seq<u8>, off: int, k: int, i: int)
    requires
        0 <= i < k,
        0 <= off,
        record_offset_pos(k - 1) + 4 <= face.len(),
        record_offsets_at_least(face, off, k),
    ensures
        be_u32_at(rebased_records(face, off, k), record_offset_pos(i)) == be_u32_at(
            face,
            record_offset_pos(i),
        ) - off,
    decreases k,
{
    let p = record_offset_pos(k - 1);
    let prev = rebased_records(face, off, k - 1);
    lemma_rebased_prefix(face, off, k - 1);
    assert(record_offset_pos(k - 1) == p);
    let v = be_u32_at(face, p) - off;
    assert(0 <= v <= u32::MAX);
    if i == k - 1 {
        lemma_be_roundtrip(prev, p, v as u32);
    } else {
        lemma_rebased_reads_back(face, off, k - 1, i);
        let q = record_offset_pos(i);
        assert(rebased_records(face, off, k)[q] == prev[q]);
        assert(rebased_records(face, off, k)[q + 1] == prev[q + 1]);
        assert(rebased_records(face, off, k)[q + 2] == prev[q + 2]);
        assert(rebased_records(face, off, k)[q + 3] == prev[q + 3]);
    }
}

/// In a face extracted from a collection, each table record whose offset
/// field lies inside the face holds its table offset relative to the start
/// of the face, i.e. the collection-wide offset less the face's start.
pub proof fn lemma_extracted_offsets_relative(data: Seq<u8>, face_index: u32, i: int)
    requires
        face_offset_in_bounds(data, face_index),
        is_collection(data),
        extracted_face(data, face_index) is Some,
        0 <= i < patched_record_count(
            data.subrange(be_u32_at(data, face_offset_pos(face_index)), data.len() as int),
        ),
    ensures
        ({
            let off = be_u32_at(data, face_offset_pos(face_index));
            let face = data.subrange(off, data.len() as int);
            be_u32_at(extracted_face(data, face_index)->0, record_offset_pos(i)) == be_u32_at(
                face,
                record_offset_pos(i),
            ) - off
        }),
{
    let off = be_u32_at(data, face_offset_pos(face_index));
    let face = data.subrange(off, data.len() as int);
    let c = patched_record_count(face);
    lemma_patched_count(face, i);
    lemma_patched_count(face, c - 1);
    lemma_rebased_reads_back(face, off, c, i);
}

/// Data that is not a collection comes back unchanged, whatever face is asked for.
pub proof fn lemma_plain_font_unchanged(data: Seq<u8>, face_index: u32)
    requires
        !is_collection(data),
    ensures
        extracted_face(data, face_index) == Some(data),
{
}

/// An extracted face runs from its directory offset to the end of the collection.
pub proof fn lemma_extracted_length(data: Seq<u8>, face_index: u32)
    requires
        face_offset_in_bounds(data, face_index),
        is_collection(data),
        extracted_face(data, face_index) is Some,
    ensures
        extracted_face(data, face_index)->0.len() == data.len() - be_u32_at(data, face_offset_pos(face_index)),
{
    let off = be_u32_at(data, face_offset_pos(face_index));
    let face = data.subrange(off, data.len() as int);
    let c = patched_record_count(face);
    lemma_patched_count(face, 0);
    if c > 0 {
        lemma_patched_count(face, c - 1);
    }
    lemma_rebased_prefix(face, off, c);
}

/// Byte `j` (0 to 3, most significant first) of the big-endian encoding of
/// `v`, as `write_be_u32` writes it.
pub open spec fn be_byte(v: int, j: int) -> u8 {
    if j == 0 {
        (v / 16777216) as u8
    } else if j == 1 {
        ((v / 65536) % 256) as u8
    } else if j == 2 {
        ((v / 256) % 256) as u8
    } else {
        (v % 256) as u8
    }
}

/// Byte `q` lies in the offset field of one of the first `k` table records.
pub open spec fn in_record_field(q: int, k: int) -> bool {
    q >= 20 && (q - 20) % 16 < 4 && (q - 20) / 16 < k
}

/// Where the offset field that holds byte `q` starts.
pub open spec fn field_start(q: int) -> int {
    record_offset_pos((q - 20) / 16)
}

/// What rebasing the first `k` records does to each byte: a byte of one of
/// their offset fields becomes the matching byte of the field's value less
/// `off`; every other byte stays.
proof fn lemma_rebased_bytes(face: Seq<u8>, off: int, k: int)
    requires
        0 <= k,
        k > 0 ==> record_offset_pos(k - 1) + 4 <= face.len(),
    ensures
        rebased_records(face, off, k).len() == face.len(),
        forall|q: int|
            0 <= q < face.len() ==> #[trigger] rebased_records(face, off, k)[q] == (if in_record_field(
                q,
                k,
            ) {
                be_byte(be_u32_at(face, field_start(q)) - off, q - field_start(q))
            } else {
                face[q]
            }),
    decreases k,
{
    if k > 0 {
        lemma_rebased_bytes(face, off, k - 1);
        lemma_rebased_prefix(face, off, k - 1);
        let p = record_offset_pos(k - 1);
        let prev = rebased_records(face, off, k - 1);
        assert(be_u32_at(prev, p) == be_u32_at(face, p)) by {
            assert(prev[p] == face[p]);
            assert(prev[p + 1] == face[p + 1]);
            assert(prev[p + 2] == face[p + 2]);
            assert(prev[p + 3] == face[p + 3]);
        }
        assert forall|q: int| 0 <= q < face.len() implies #[trigger] rebased_records(face, off, k)[q]
            == (if in_record_field(q, k) {
            be_byte(be_u32_at(face, field_start(q)) - off, q - field_start(q))
        } else {
            face[q]
        }) by {
            if p <= q < p + 4 {
                assert((q - 20) / 16 == k - 1 && (q - 20) % 16 == q - p);
                assert(field_start(q) == p);
            } else {
                assert(in_record_field(q, k) == in_record_field(q, k - 1));
            }
        }
    }
}

/// The four bytes of the encoding of `v` read back as `v`.
proof fn lemma_be_bytes_read_back(v: u32)
    ensures
        be_byte(v as int, 0) * 16777216 + be_byte(v as int, 1) * 65536 + be_byte(v as int, 2) * 256
            + be_byte(v as int, 3) == v,
{
    let b0 = v / 16777216;
    let b1 = (v / 65536) % 256;
    let b2 = (v / 256) % 256;
    let b3 = v % 256;
    assert(b0 < 256 && b1 < 256 && b2 < 256 && b3 < 256) by (bit_vector)
        requires
            b0 == v / 16777216,
            b1 == (v / 65536) % 256,
            b2 == (v / 256) % 256,
            b3 == v % 256,
    ;
    assert(b0 * 16777216 + b1 * 65536 + b2 * 256 + b3 == v) by (bit_vector)
        requires
            b0 == v / 16777216,
            b1 == (v / 65536) % 256,
            b2 == (v / 256) % 256,
            b3 == v % 256,
    ;
}

/// Encoding the value that four bytes read as gives those bytes again.
proof fn lemma_be_bytes_reproduce(s: Seq<u8>, p: int)
    requires
        0 <= p,
        p + 4 <= s.len(),
    ensures
        forall|j: int| 0 <= j < 4 ==> #[trigger] be_byte(be_u32_at(s, p), j) == s[p + j],
{
    let b0 = s[p];
    let b1 = s[p + 1];
    let b2 = s[p + 2];
    let b3 = s[p + 3];
    let v: u32 = ((b0 as u32) * 16777216 + (b1 as u32) * 65536 + (b2 as u32) * 256 + (b3 as u32)) as u32;
    assert(v == b0 * 16777216 + b1 * 65536 + b2 * 256 + b3 && v / 16777216 == b0 && (v / 65536) % 256
        == b1 && (v / 256) % 256 == b2 && v % 256 == b3) by (bit_vector)
        requires
            v == ((b0 as u32) * 16777216 + (b1 as u32) * 65536 + (b2 as u32) * 256 + (b3 as u32)) as u32,
    ;
    assert(be_u32_at(s, p) == v);
}

/// A one-face collection that holds `font` at byte 16: the `ttcf` header
/// (version 1.0, one face, its directory at byte 16), then `font` with the
/// offset of each of its declared table records moved up by 16.
pub open spec fn packed_collection(font: Seq<u8>) -> Seq<u8> {
    seq![
        0x74u8,
        0x74u8,
        0x63u8,
        0x66u8,
        0u8,
        1u8,
        0u8,
        0u8,
        0u8,
        0u8,
        0u8,
        1u8,
        0u8,
        0u8,
        0u8,
        16u8,
    ] + rebased_records(font, -16, be_u16_at(font, 4))
}

/// The offset fields of `font` moved up by 16 read as the old offsets plus 16.
proof fn lemma_moved_fields(font: Seq<u8>, n: int)
    requires
        0 <= n,
        12 + 16 * n <= font.len(),
        forall|i: int|
            0 <= i < n ==> be_u32_at(font, #[trigger] record_offset_pos(i)) + 16 <= u32::MAX,
    ensures
        forall|i: int|
            0 <= i < n ==> be_u32_at(rebased_records(font, -16, n), #[trigger] record_offset_pos(i))
                == be_u32_at(font, record_offset_pos(i)) + 16,
{
    let inner = rebased_records(font, -16, n);
    lemma_rebased_bytes(font, -16, n);
    assert forall|i: int| 0 <= i < n implies be_u32_at(inner, #[trigger] record_offset_pos(i))
        == be_u32_at(font, record_offset_pos(i)) + 16 by {
        let p = record_offset_pos(i);
        let w = be_u32_at(font, p) + 16;
        assert forall|j: int| 0 <= j < 4 implies inner[p + j] == be_byte(w, j) by {
            assert((p + j - 20) / 16 == i && (p + j - 20) % 16 == j);
            assert(in_record_field(p + j, n));
            assert(field_start(p + j) == p);
        }
        lemma_be_bytes_read_back(w as u32);
        assert(inner[p] == be_byte(w, 0));
        assert(inner[p + 1] == be_byte(w, 1));
        assert(inner[p + 2] == be_byte(w, 2));
        assert(inner[p + 3] == be_byte(w, 3));
    }
}

/// Byte `q` of `face` after rebasing its first `k` records (see
/// `lemma_rebased_bytes`).
proof fn lemma_rebased_byte(face: Seq<u8>, off: int, k: int, q: int)
    requires
        0 <= k,
        k > 0 ==> record_offset_pos(k - 1) + 4 <= face.len(),
        0 <= q < face.len(),
    ensures
        rebased_records(face, off, k)[q] == (if in_record_field(q, k) {
            be_byte(be_u32_at(face, field_start(q)) - off, q - field_start(q))
        } else {
            face[q]
        }),
{
    lemma_rebased_bytes(face, off, k);
}

/// Moving the first `n` offset fields of `font` up by 16 and then down by 16
/// leaves byte `q` as it was.
proof fn lemma_moved_back_byte(font: Seq<u8>, n: int, q: int)
    requires
        0 <= n,
        12 + 16 * n <= font.len(),
        forall|i: int|
            0 <= i < n ==> be_u32_at(font, #[trigger] record_offset_pos(i)) + 16 <= u32::MAX,
        0 <= q < font.len(),
    ensures
        rebased_records(rebased_records(font, -16, n), 16, n)[q] == font[q],
{
    let inner = rebased_records(font, -16, n);
    lemma_rebased_prefix(font, -16, n);
    lemma_rebased_byte(inner, 16, n, q);
    if in_record_field(q, n) {
        let p = field_start(q);
        let i = (q - 20) / 16;
        assert(p == record_offset_pos(i));
        lemma_moved_fields(font, n);
        assert(be_u32_at(inner, record_offset_pos(i)) == be_u32_at(font, record_offset_pos(i)) + 16);
        lemma_be_bytes_reproduce(font, p);
        assert(font[p + (q - p)] == font[q]);
    } else {
        lemma_rebased_byte(font, -16, n, q);
    }
}

/// Moving the first `n` offset fields of `font` up by 16 and then down by 16
/// gives `font` back.
proof fn lemma_moved_back(font: Seq<u8>, n: int)
    requires
        0 <= n,
        12 + 16 * n <= font.len(),
        forall|i: int|
            0 <= i < n ==> be_u32_at(font, #[trigger] record_offset_pos(i)) + 16 <= u32::MAX,
    ensures
        rebased_records(rebased_records(font, -16, n), 16, n) == font,
{
    let back = rebased_records(rebased_records(font, -16, n), 16, n);
    lemma_rebased_prefix(font, -16, n);
    lemma_rebased_prefix(rebased_records(font, -16, n), 16, n);
    assert forall|q: int| 0 <= q < font.len() implies back[q] == font[q] by {
        lemma_moved_back_byte(font, n, q);
    }
    assert(back =~= font);
}

/// Packing a font into a one-face collection and extracting face 0 gives
/// the font back, when the font's table directory lies within it and no
/// table offset is so large that moving it by 16 leaves 32 bits.
#[verifier::spinoff_prover]
pub proof fn lemma_packed_font_extracts_back(font: Seq<u8>)
    requires
        font.len() >= 6,
        12 + 16 * be_u16_at(font, 4) <= font.len(),
        forall|i: int|
            0 <= i < be_u16_at(font, 4) ==> be_u32_at(font, #[trigger] record_offset_pos(i)) + 16
                <= u32::MAX,
    ensures
        face_offset_in_bounds(packed_collection(font), 0),
        extracted_face(packed_collection(font), 0) == Some(font),
{
    let n = be_u16_at(font, 4);
    let packed = packed_collection(font);
    let inner = rebased_records(font, -16, n);
    lemma_rebased_bytes(font, -16, n);
    assert(packed.len() == font.len() + 16);
    assert(be_u32_at(packed, 8) == 1);
    assert(be_u32_at(packed, 12) == 16);
    assert(is_collection(packed));
    assert(collection_lists_face(packed, 0));
    let face = packed.subrange(16, packed.len() as int);
    assert(face =~= inner);
    assert(!in_record_field(4, n) && !in_record_field(5, n));
    assert(be_u16_at(inner, 4) == n);
    lemma_patched_count(inner, n);
    if n > 0 {
        lemma_patched_count(inner, n - 1);
    }
    assert(patched_record_count(inner) == n);
    lemma_moved_fields(font, n);
    assert(record_offsets_at_least(inner, 16, n));
    lemma_moved_back(font, n);
}

/// Whether `extract_ttc_face` accepts a collection is decided by the
/// header's entry for the face asked for, the four bytes at `12 + 4 ·
/// face_index`: when the header lists the face, that entry must not point
/// past the end of the data.
pub proof fn lemma_offset_check_reads_own_entry(data: Seq<u8>, face_index: u32)
    ensures
        face_offset_in_bounds(data, face_index) <== (is_collection(data) && data.len() >= 12
            && face_index < be_u32_at(data, 8) && 12 + 4 * face_index + 4 <= data.len() ==> be_u32_at(
            data,
            12 + 4 * face_index,
        ) <= data.len()),
        face_offset_in_bounds(data, face_index) ==> (is_collection(data) && data.len() >= 12
            && face_index < be_u32_at(data, 8) && 12 + 4 * face_index + 4 <= data.len() ==> be_u32_at(
            data,
            12 + 4 * face_index,
        ) <= data.len()),
{
}

/// The face extracted from a collection for face `face_index` is cut at the
/// offset held by the header's entry for that face, the four bytes at
/// `12 + 4 · face_index`: it runs from there to the end of the data, and
/// every byte of it outside the offset fields of its table records is the
/// data's byte that far past that offset. Entries that hold different
/// offsets thus give faces of different lengths.
pub proof fn lemma_face_cut_at_its_entry(data: Seq<u8>, face_index: u32, q: int)
    requires
        is_collection(data),
        face_offset_in_bounds(data, face_index),
        extracted_face(data, face_index) is Some,
    ensures
        ({
            let off = be_u32_at(data, 12 + 4 * face_index);
            let f = extracted_face(data, face_index)->0;
            &&& 0 <= off <= data.len()
            &&& f.len() == data.len() - off
            &&& 0 <= q < f.len() && (q < 20 || (q - 20) % 16 >= 4) ==> f[q] == data[off + q]
        }),
{
    assert(face_offset_pos(face_index) == 12 + 4 * face_index);
    lemma_extracted_length(data, face_index);
    let off = be_u32_at(data, face_offset_pos(face_index));
    let face = data.subrange(off, data.len() as int);
    let c = patched_record_count(face);
    lemma_patched_count(face, 0);
    if c > 0 {
        lemma_patched_count(face, c - 1);
    }
    if 0 <= q < face.len() && (q < 20 || (q - 20) % 16 >= 4) {
        lemma_rebased_byte(face, off, c, q);
        assert(!in_record_field(q, c));
    }
}

/// Picks the face a generic-family query falls back to: the first face whose
/// style is normal, else the first face, else none.
pub fn preferred_face(is_normal: &[bool]) -> (res: Option<usize>)
    ensures
        res matches Some(i) ==> i < is_normal@.len(),
        res is None <==> is_normal@.len() == 0,
        (exists|j: int| 0 <= j < is_normal@.len() && is_normal@[j]) ==> (res matches Some(i)
            && is_normal@[i as int] && forall|j: int| 0 <= j < i ==> !is_normal@[j]),
        (forall|j: int| 0 <= j < is_normal@.len() ==> !is_normal@[j]) && is_normal@.len() > 0
            ==> res == Some(0usize),
{
    let n = is_normal.len();
    let mut i: usize = 0;
    while i < n
        invariant
            n == is_normal@.len(),
            i <= n,
            forall|j: int| 0 <= j < i ==> !is_normal@[j],
        decreases n - i,
    {
        if is_normal[i] {
            return Some(i);
        }
        i = i + 1;
    }
    if n > 0 {
        Some(0)
    } else {
        None
    }
}

/// What a requested font family is: a family named by its name, or one of
/// the generic CSS families.
#[derive(Debug, Clone, Copy, PartialEq, Eq, Structural)]
pub enum FamilyKind {
    Named,
    Serif,
    SansSerif,
    Monospace,
    Cursive,
    Fantasy,
}

/// Whether some requested family is generic.
pub open spec fn asks_generic(families: Seq<FamilyKind>) -> bool {
    exists|i: int| 0 <= i < families.len() && families[i] != FamilyKind::Named
}

/// The face a query falls back to when the font database matched none of
/// the requested families: when a generic family was asked for, the first
/// face of normal style, else the first face; when only named families were
/// asked for, none. `is_normal[i]` tells whether face `i` has normal style.
pub fn unmatched_query_face(families: &[FamilyKind], is_normal: &[bool]) -> (res: Option<usize>)
    ensures
        !asks_generic(families@) ==> res is None,
        asks_generic(families@) ==> {
            &&& res is None <==> is_normal@.len() == 0
            &&& res matches Some(i) ==> i < is_normal@.len()
            &&& (exists|j: int| 0 <= j < is_normal@.len() && is_normal@[j]) ==> (res matches Some(i)
                && is_normal@[i as int] && forall|j: int| 0 <= j < i ==> !is_normal@[j])
            &&& (forall|j: int| 0 <= j < is_normal@.len() ==> !is_normal@[j]) && is_normal@.len() > 0
                ==> res == Some(0usize)
        },
{
    let n = families.len();
    let mut i: usize = 0;
    while i < n
        invariant
            n == families@.len(),
            i <= n,
            forall|j: int| 0 <= j < i ==> families@[j] == FamilyKind::Named,
        decreases n - i,
    {
        if families[i] != FamilyKind::Named {
            return preferred_face(is_normal);
        }
        i = i + 1;
    }
    None
}

/// What the last-resort scan for a font covering a character does after
/// looking at one face of the database.
#[derive(Debug, Clone, Copy, PartialEq, Eq, Structural)]
pub enum ScanStep {
    /// Stop: the face at this position is the answer.
    Found(usize),
    /// Look at the next face.
    Continue,
}

/// The scan's decision at face `pos`, given whether the face is usable (it
/// maps the character to a real glyph and its shaping face could be built).
pub open spec fn scan_decision(pos: usize, usable: bool) -> ScanStep {
    if usable {
        ScanStep::Found(pos)
    } else {
        ScanStep::Continue
    }
}

/// Where the scan stands after the faces `0..k`, when face `j` is usable
/// iff `usable[j]`.
pub open spec fn scan_after(usable: Seq<bool>, k: nat) -> ScanStep
    decreases k,
{
    if k == 0 {
        ScanStep::Continue
    } else {
        match scan_after(usable, (k - 1) as nat) {
            ScanStep::Found(i) => ScanStep::Found(i),
            ScanStep::Continue => scan_decision((k - 1) as usize, usable[k - 1]),
        }
    }
}

/// One step of the scan for a face covering a character: the first usable
/// face ends the scan.
pub fn scan_step(pos: usize, usable: bool) -> (step: ScanStep)
    ensures
        step == scan_decision(pos, usable),
{
    if usable {
        ScanStep::Found(pos)
    } else {
        ScanStep::Continue
    }
}

/// The scan settles on the first usable face, and finds nothing when no
/// face is usable.
pub proof fn lemma_scan_finds_first_usable(usable: Seq<bool>, k: nat)
    requires
        k <= usable.len(),
        k <= usize::MAX,
    ensures
        match scan_after(usable, k) {
            ScanStep::Found(i) => {
                &&& i < k
                &&& usable[i as int]
                &&& forall|j: int| 0 <= j < i ==> !usable[j]
            },
            ScanStep::Continue => forall|j: int| 0 <= j < k ==> !usable[j],
        },
    decreases k,
{
    if k > 0 {
        lemma_scan_finds_first_usable(usable, (k - 1) as nat);
    }
}

/// The weight classes of a system font-fallback query, lightest first.
#[derive(Debug, Clone, Copy, PartialEq, Eq, Structural)]
pub enum WeightClass {
    Thin,
    ExtraLight,
    Light,
    SemiLight,
    Regular,
    Medium,
    SemiBold,
    Bold,
    ExtraBold,
    Black,
    ExtraBlack,
}

/// The weight on the 100–900 scale that each class stands for: thin 100,
/// extra-light 200, light 300, semi-light 350, regular 400, medium 500,
/// semi-bold 600, bold 700, extra-bold 800, black 900, extra-black 950.
pub open spec fn class_weight(c: WeightClass) -> int {
    match c {
        WeightClass::Thin => 100,
        WeightClass::ExtraLight => 200,
        WeightClass::Light => 300,
        WeightClass::SemiLight => 350,
        WeightClass::Regular => 400,
        WeightClass::Medium => 500,
        WeightClass::SemiBold => 600,
        WeightClass::Bold => 700,
        WeightClass::ExtraBold => 800,
        WeightClass::Black => 900,
        WeightClass::ExtraBlack => 950,
    }
}

/// The weight class asked of the system fallback for weight `w`: the
/// heaviest class whose weight is at most `w`, and thin below 100.
pub open spec fn weight_class_of(w: u16) -> WeightClass {
    if w < 200 {
        WeightClass::Thin
    } else if w < 300 {
        WeightClass::ExtraLight
    } else if w < 350 {
        WeightClass::Light
    } else if w < 400 {
        WeightClass::SemiLight
    } else if w < 500 {
        WeightClass::Regular
    } else if w < 600 {
        WeightClass::Medium
    } else if w < 700 {
        WeightClass::SemiBold
    } else if w < 800 {
        WeightClass::Bold
    } else if w < 900 {
        WeightClass::ExtraBold
    } else if w < 950 {
        WeightClass::Black
    } else {
        WeightClass::ExtraBlack
    }
}

/// The weight class that a fallback query for `weight` asks for.
pub fn weight_class(weight: FontWeight) -> (class: WeightClass)
    ensures
        class == weight_class_of(weight.0),
        weight.0 >= 100 ==> class_weight(class) <= weight.0,
        forall|c: WeightClass| class_weight(c) <= weight.0 ==> class_weight(c) <= class_weight(class),
{
    let w = weight.0;
    if w < 200 {
        WeightClass::Thin
    } else if w < 300 {
        WeightClass::ExtraLight
    } else if w < 350 {
        WeightClass::Light
    } else if w < 400 {
        WeightClass::SemiLight
    } else if w < 500 {
        WeightClass::Regular
    } else if w < 600 {
        WeightClass::Medium
    } else if w < 700 {
        WeightClass::SemiBold
    } else if w < 800 {
        WeightClass::Bold
    } else if w < 900 {
        WeightClass::ExtraBold
    } else if w < 950 {
        WeightClass::Black
    } else {
        WeightClass::ExtraBlack
    }
}

/// Specifies the platform-specific font fallback strategy.
///
/// On Linux, the operating system's font configuration resolves generic CSS
/// families (sans-serif, serif, monospace) to the user's default fonts and
/// finds the best font covering a given character. On other platforms the
/// font database's own resolution is used.
#[derive(Clone, Debug)]
pub struct PlatformFallback;

} // verus!
