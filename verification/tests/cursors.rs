use binary_page_decode::array::ArrayKind;
use binary_page_decode::decode::{BinaryDecoder, DataPage, PageValues};
use binary_page_decode::cursor::BinaryStateTranslation;

fn encode(vals: &[&[u8]]) -> Vec<u8> {
    let mut out = Vec::new();
    for v in vals {
        let l = v.len() as u32;
        out.extend_from_slice(&l.to_le_bytes());
        out.extend_from_slice(v);
    }
    out
}

fn plain_data_page(vals: &[&[u8]]) -> DataPage {
    DataPage {
        values: PageValues::Plain { bytes: encode(vals) },
        num_rows: vals.len(),
        validity: None,
        is_string: false,
    }
}

#[test]
fn split_extend_equals_single_extend() {
    let vals: &[&[u8]] = &[b"a", b"bb", b"", b"dddd", b"e"];
    let mut dec1 = BinaryDecoder::new(ArrayKind::Binary);
    let (mut c1, mut pv1) =
        BinaryStateTranslation::new(&mut dec1, plain_data_page(vals), &None).unwrap();
    let mut one = dec1.with_capacity(0);
    c1.extend_from_state(&mut dec1, &mut one, &mut pv1, 5).unwrap();

    let mut dec2 = BinaryDecoder::new(ArrayKind::Binary);
    let (mut c2, mut pv2) =
        BinaryStateTranslation::new(&mut dec2, plain_data_page(vals), &None).unwrap();
    let mut two = dec2.with_capacity(0);
    c2.extend_from_state(&mut dec2, &mut two, &mut pv2, 2).unwrap();
    c2.extend_from_state(&mut dec2, &mut two, &mut pv2, 3).unwrap();

    assert_eq!(one.values.offsets, two.values.offsets);
    assert_eq!(one.values.values, two.values.values);
    assert_eq!(one.validity, two.validity);
}

#[test]
fn split_extend_with_validity_matches() {
    let vals: &[&[u8]] = &[b"x", b"yy"];
    let bits = vec![true, false, false, true];
    let page = || DataPage {
        values: PageValues::Plain { bytes: encode(vals) },
        num_rows: 4,
        validity: Some(bits.clone()),
        is_string: false,
    };
    let mut dec1 = BinaryDecoder::new(ArrayKind::Binary);
    let (mut c1, mut pv1) = BinaryStateTranslation::new(&mut dec1, page(), &None).unwrap();
    let mut one = dec1.with_capacity(0);
    c1.extend_from_state(&mut dec1, &mut one, &mut pv1, 4).unwrap();

    let mut dec2 = BinaryDecoder::new(ArrayKind::Binary);
    let (mut c2, mut pv2) = BinaryStateTranslation::new(&mut dec2, page(), &None).unwrap();
    let mut two = dec2.with_capacity(0);
    c2.extend_from_state(&mut dec2, &mut two, &mut pv2, 1).unwrap();
    c2.extend_from_state(&mut dec2, &mut two, &mut pv2, 3).unwrap();

    assert_eq!(one.values.offsets, two.values.offsets);
    assert_eq!(one.values.values, two.values.values);
    assert_eq!(one.validity, two.validity);
    assert_eq!(one.validity, bits);
}

#[test]
fn skip_in_place_advances_all_streams() {
    let vals: &[&[u8]] = &[b"a", b"bb", b"ccc"];
    let mut dec = BinaryDecoder::new(ArrayKind::Binary);
    let (mut c, mut pv) =
        BinaryStateTranslation::new(&mut dec, plain_data_page(vals), &None).unwrap();
    c.skip_in_place(2).unwrap();
    let mut out = dec.with_capacity(0);
    // The flag was set by the translation construction; consume one row.
    c.extend_from_state(&mut dec, &mut out, &mut pv, 1).unwrap();
    assert_eq!(out.values.values, b"ccc".to_vec());
    assert_eq!(out.values.offsets, vec![0, 3]);
}

#[test]
fn skip_in_place_rederives_delta_bytes_prefix_state() {
    let page = DataPage {
        values: PageValues::DeltaBytes {
            prefixes: vec![0, 1, 2],
            suffixes: vec![2, 2, 1],
            bytes: b"abxyz".to_vec(),
        },
        num_rows: 3,
        validity: None,
        is_string: false,
    };
    let mut dec = BinaryDecoder::new(ArrayKind::Binary);
    let (mut c, mut pv) = BinaryStateTranslation::new(&mut dec, page, &None).unwrap();
    c.skip_in_place(2).unwrap();
    let mut out = dec.with_capacity(0);
    c.extend_from_state(&mut dec, &mut out, &mut pv, 1).unwrap();
    // Third value shares two bytes with the skipped second value "axy".
    assert_eq!(out.values.values, b"axz".to_vec());
}

#[test]
fn len_when_not_nullable_reports_remaining_rows() {
    let vals: &[&[u8]] = &[b"a", b"bb", b"ccc"];
    let mut dec = BinaryDecoder::new(ArrayKind::Binary);
    let (mut c, _pv) =
        BinaryStateTranslation::new(&mut dec, plain_data_page(vals), &None).unwrap();
    assert_eq!(c.len_when_not_nullable(), 3);
    c.skip_in_place(1).unwrap();
    assert_eq!(c.len_when_not_nullable(), 2);
}

#[test]
fn utf8_flag_is_consumed_by_extend() {
    let vals: &[&[u8]] = &[b"ok"];
    let page = DataPage {
        values: PageValues::Plain { bytes: encode(vals) },
        num_rows: 1,
        validity: None,
        is_string: true,
    };
    let mut dec = BinaryDecoder::new(ArrayKind::Utf8);
    let (mut c, mut pv) = BinaryStateTranslation::new(&mut dec, page, &None).unwrap();
    assert!(dec.check_utf8);
    let mut out = dec.with_capacity(0);
    c.extend_from_state(&mut dec, &mut out, &mut pv, 1).unwrap();
    assert!(!dec.check_utf8);
}
