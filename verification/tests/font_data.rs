use orinium_text::font_system::{
    extract_ttc_face, face_offset_fits, preferred_face, scan_step, unmatched_query_face,
    weight_class, FamilyKind, ScanStep, WeightClass,
};
use orinium_text::font_system::FamilyKind::{Monospace, Named, Serif};
use orinium_text::FontWeight;

/// A collection with one face at byte 16; the face declares two tables whose
/// records hold the absolute offsets 100 and 200.
fn sample_collection() -> Vec<u8> {
    let mut data = vec![b't', b't', b'c', b'f', 0, 1, 0, 0, 0, 0, 0, 1, 0, 0, 0, 16];
    // face: sfnt version, num_tables = 2, search fields
    data.extend_from_slice(&[0, 1, 0, 0, 0, 2, 0, 0, 0, 0, 0, 0]);
    // record 0: tag, checksum, offset 100, length
    data.extend_from_slice(&[b'h', b'e', b'a', b'd', 0, 0, 0, 0, 0, 0, 0, 100, 0, 0, 0, 4]);
    // record 1: tag, checksum, offset 200 (0x00C8), length
    data.extend_from_slice(&[b'c', b'm', b'a', b'p', 0, 0, 0, 0, 0, 0, 0, 0xC8, 0, 0, 0, 4]);
    data
}

#[test]
fn plain_font_is_returned_unchanged() {
    let data = vec![0, 1, 0, 0, 5, 6, 7];
    assert_eq!(extract_ttc_face(&data, 3), Some(data.clone()));
    assert_eq!(extract_ttc_face(&[], 0), Some(vec![]));
    assert_eq!(extract_ttc_face(b"ttc", 0), Some(b"ttc".to_vec()));
}

#[test]
fn collection_face_is_rebased() {
    let data = sample_collection();
    let face = extract_ttc_face(&data, 0).expect("face 0 exists");
    assert_eq!(face.len(), data.len() - 16);
    // the offsets move from 100 and 200 to 84 and 184
    assert_eq!(&face[20..24], &[0, 0, 0, 84]);
    assert_eq!(&face[36..40], &[0, 0, 0, 184]);
    // everything else is copied as is
    assert_eq!(&face[0..20], &data[16..36]);
    assert_eq!(&face[24..36], &data[40..52]);
    assert_eq!(&face[40..], &data[56..]);
}

#[test]
fn collection_errors_give_none() {
    let data = sample_collection();
    // face index not listed
    assert_eq!(extract_ttc_face(&data, 1), None);
    // header shorter than 12 bytes
    assert_eq!(extract_ttc_face(b"ttcf\0\x01\0\0", 0), None);
    // header lists a face but has no room for its offset
    assert_eq!(extract_ttc_face(b"ttcf\0\x01\0\0\0\0\0\x01", 0), None);
    // face shorter than six bytes
    let mut short = vec![b't', b't', b'c', b'f', 0, 1, 0, 0, 0, 0, 0, 1, 0, 0, 0, 16];
    short.extend_from_slice(&[0, 1, 0]);
    assert_eq!(extract_ttc_face(&short, 0), None);
    // a table offset below the face start
    let mut below = sample_collection();
    below[16 + 20 + 3] = 10;
    assert_eq!(extract_ttc_face(&below, 0), None);
}

#[test]
fn records_past_the_end_are_left_alone() {
    // declares 5 tables but only two records fit
    let mut data = sample_collection();
    data[16 + 5] = 5;
    let face = extract_ttc_face(&data, 0).expect("face 0 exists");
    assert_eq!(&face[20..24], &[0, 0, 0, 84]);
    assert_eq!(&face[36..40], &[0, 0, 0, 184]);
}

#[test]
fn face_offset_check() {
    let data = sample_collection();
    assert!(face_offset_fits(&data, 0));
    assert!(face_offset_fits(&[1, 2, 3], 0));
    let mut far = sample_collection();
    far[15] = 0xFF;
    far[14] = 0xFF;
    assert!(!face_offset_fits(&far, 0));
}

#[test]
fn preferred_face_prefers_normal_style() {
    assert_eq!(preferred_face(&[false, true, true]), Some(1));
    assert_eq!(preferred_face(&[false, false]), Some(0));
    assert_eq!(preferred_face(&[]), None);
}

/// Runs the coverage scan over faces described by whether each is usable.
fn scan(faces: &[bool]) -> Option<usize> {
    for (pos, &usable) in faces.iter().enumerate() {
        if let ScanStep::Found(i) = scan_step(pos, usable) {
            return Some(i);
        }
    }
    None
}

#[test]
fn scan_step_decisions() {
    assert_eq!(scan_step(3, true), ScanStep::Found(3));
    assert_eq!(scan_step(3, false), ScanStep::Continue);
}

#[test]
fn scan_returns_first_usable_face() {
    assert_eq!(scan(&[false, true, true]), Some(1));
    assert_eq!(scan(&[true, false]), Some(0));
    assert_eq!(scan(&[false, false]), None);
    assert_eq!(scan(&[]), None);
}

#[test]
fn weight_classes_follow_the_weight_scale() {
    assert_eq!(weight_class(FontWeight(0)), WeightClass::Thin);
    assert_eq!(weight_class(FontWeight(100)), WeightClass::Thin);
    assert_eq!(weight_class(FontWeight(199)), WeightClass::Thin);
    assert_eq!(weight_class(FontWeight(200)), WeightClass::ExtraLight);
    assert_eq!(weight_class(FontWeight(300)), WeightClass::Light);
    assert_eq!(weight_class(FontWeight(350)), WeightClass::SemiLight);
    assert_eq!(weight_class(FontWeight(400)), WeightClass::Regular);
    assert_eq!(weight_class(FontWeight(499)), WeightClass::Regular);
    assert_eq!(weight_class(FontWeight(500)), WeightClass::Medium);
    assert_eq!(weight_class(FontWeight(600)), WeightClass::SemiBold);
    assert_eq!(weight_class(FontWeight(700)), WeightClass::Bold);
    assert_eq!(weight_class(FontWeight(800)), WeightClass::ExtraBold);
    assert_eq!(weight_class(FontWeight(900)), WeightClass::Black);
    assert_eq!(weight_class(FontWeight(950)), WeightClass::ExtraBlack);
    assert_eq!(weight_class(FontWeight(u16::MAX)), WeightClass::ExtraBlack);
}

#[test]
fn unmatched_query_falls_back_only_for_generic_families() {
    // only named families: no fallback
    assert_eq!(unmatched_query_face(&[Named, Named], &[false, true]), None);
    assert_eq!(unmatched_query_face(&[], &[true]), None);
    // a generic family: the first normal face, else the first face
    assert_eq!(unmatched_query_face(&[Named, Serif], &[false, true, true]), Some(1));
    assert_eq!(unmatched_query_face(&[Monospace], &[false, false]), Some(0));
    assert_eq!(unmatched_query_face(&[Serif], &[]), None);
}

#[test]
fn packed_font_extracts_back() {
    // a font with one table record whose table sits at byte 100
    let mut font = vec![0, 1, 0, 0, 0, 1, 0, 0, 0, 0, 0, 0];
    font.extend_from_slice(&[b'h', b'e', b'a', b'd', 1, 2, 3, 4, 0, 0, 0, 100, 0, 0, 0, 4]);
    // packed into a one-face collection at byte 16, the table moves to 116
    let mut packed = vec![b't', b't', b'c', b'f', 0, 1, 0, 0, 0, 0, 0, 1, 0, 0, 0, 16];
    let mut moved = font.clone();
    moved[23] = 116;
    packed.extend_from_slice(&moved);
    assert_eq!(extract_ttc_face(&packed, 0), Some(font));
}
