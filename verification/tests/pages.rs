use binary_page_decode::array::ArrayKind;
use binary_page_decode::chunks::BinaryArrayIter;
use binary_page_decode::decode::{DataPage, DictPage, Page, PageValues};
use binary_page_decode::error::DecodeError;

fn plain_encode(vals: &[&[u8]]) -> Vec<u8> {
    let mut out = Vec::new();
    for v in vals {
        let l = v.len() as u32;
        out.extend_from_slice(&l.to_le_bytes());
        out.extend_from_slice(v);
    }
    out
}

fn plain_page(vals: &[&[u8]], validity: Option<Vec<bool>>, is_string: bool) -> Page {
    let num_rows = match &validity {
        Some(bits) => bits.len(),
        None => vals.len(),
    };
    Page::Data(DataPage {
        values: PageValues::Plain { bytes: plain_encode(vals) },
        num_rows,
        validity,
        is_string,
    })
}

#[test]
fn plain_non_nullable_counts() {
    let pages = vec![plain_page(&[b"ab", b"", b"xyz"], None, false)];
    let mut it = BinaryArrayIter::new(pages, ArrayKind::Binary, None, 3);
    let a = it.next().unwrap().unwrap();
    assert_eq!(a.offsets.len(), 4);
    assert_eq!(a.offsets, vec![0, 2, 2, 5]);
    assert_eq!(a.values, b"abxyz".to_vec());
    assert!(a.validity.is_none());
    for w in a.offsets.windows(2) {
        assert!(w[0] <= w[1]);
    }
    assert!(it.next().is_none());
}

#[test]
fn null_runs_set_bits_and_empty_spans() {
    let bits = vec![true, false, true, false, false];
    let pages = vec![plain_page(&[b"aa", b"b"], Some(bits.clone()), false)];
    let mut it = BinaryArrayIter::new(pages, ArrayKind::Binary, None, 5);
    let a = it.next().unwrap().unwrap();
    let validity = a.validity.expect("validity expected");
    assert_eq!(validity, bits);
    let set = validity.iter().filter(|b| **b).count();
    assert_eq!(set, 2);
    assert_eq!(a.offsets, vec![0, 2, 2, 3, 3, 3]);
    for (i, b) in validity.iter().enumerate() {
        if !b {
            assert_eq!(a.offsets[i], a.offsets[i + 1]);
        }
    }
    assert_eq!(a.values, b"aab".to_vec());
}

#[test]
fn dictionary_round_trip() {
    let dict = Page::Dict(DictPage { buffer: plain_encode(&[b"a", b"bb", b"ccc"]), num_values: 3 });
    let data = Page::Data(DataPage {
        values: PageValues::Dictionary { indices: vec![0, 1, 2, 1, 0] },
        num_rows: 5,
        validity: None,
        is_string: true,
    });
    let mut it = BinaryArrayIter::new(vec![dict, data], ArrayKind::Utf8, None, 5);
    let a = it.next().unwrap().unwrap();
    assert_eq!(a.offsets, vec![0, 1, 3, 6, 8, 9]);
    assert_eq!(a.values, b"abbcccbba".to_vec());
    assert!(it.next().is_none());
}

#[test]
fn dictionary_path_skips_validation() {
    // Non-UTF-8 dictionary entries are fine for a binary-typed column,
    // and the dictionary decode path never runs a UTF-8 check.
    let dict = Page::Dict(DictPage {
        buffer: plain_encode(&[&[0xFF, 0xFE], b"ok"]),
        num_values: 2,
    });
    let data = Page::Data(DataPage {
        values: PageValues::Dictionary { indices: vec![0, 1] },
        num_rows: 2,
        validity: None,
        is_string: false,
    });
    let mut it = BinaryArrayIter::new(vec![dict, data], ArrayKind::Binary, None, 2);
    let a = it.next().unwrap().unwrap();
    assert_eq!(a.values, vec![0xFF, 0xFE, b'o', b'k']);
}

#[test]
fn dictionary_string_column_validated_at_construction() {
    let dict = Page::Dict(DictPage {
        buffer: plain_encode(&[&[0xFF, 0xFE]]),
        num_values: 1,
    });
    let data = Page::Data(DataPage {
        values: PageValues::Dictionary { indices: vec![0] },
        num_rows: 1,
        validity: None,
        is_string: true,
    });
    let mut it = BinaryArrayIter::new(vec![dict, data], ArrayKind::Utf8, None, 1);
    let e = it.next().unwrap().unwrap_err();
    assert_eq!(e, DecodeError::InvalidUtf8);
    assert!(it.next().is_none());
}

#[test]
fn delta_length_round_trip() {
    let data = Page::Data(DataPage {
        values: PageValues::DeltaLength { lengths: vec![1, 2, 3], bytes: b"xyzzzyy".to_vec() },
        num_rows: 3,
        validity: None,
        is_string: true,
    });
    let mut it = BinaryArrayIter::new(vec![data], ArrayKind::Utf8, None, 3);
    let a = it.next().unwrap().unwrap();
    // The slab is partitioned exactly: cumulative lengths 1, 3, 6.
    assert_eq!(a.offsets, vec![0, 1, 3, 6]);
    assert_eq!(a.values, b"xyzzzy".to_vec());
    assert_eq!(&a.values[a.offsets[0]..a.offsets[1]], b"x");
    assert_eq!(&a.values[a.offsets[1]..a.offsets[2]], b"yz");
    assert_eq!(&a.values[a.offsets[2]..a.offsets[3]], b"zzy");
}

#[test]
fn delta_bytes_prefix_sharing() {
    let data = Page::Data(DataPage {
        values: PageValues::DeltaBytes {
            prefixes: vec![0, 1, 2],
            suffixes: vec![2, 2, 1],
            bytes: b"abxyz".to_vec(),
        },
        num_rows: 3,
        validity: None,
        is_string: false,
    });
    let mut it = BinaryArrayIter::new(vec![data], ArrayKind::Binary, None, 3);
    let a = it.next().unwrap().unwrap();
    // "ab", "a"+"xy" = "axy", "ax"+"z" = "axz"
    assert_eq!(a.offsets, vec![0, 2, 5, 8]);
    assert_eq!(a.values, b"abaxyaxz".to_vec());
}

#[test]
fn chunking_two_two_one() {
    let pages = vec![plain_page(&[b"a", b"b", b"c", b"d", b"e"], None, false)];
    let mut it = BinaryArrayIter::new(pages, ArrayKind::Binary, Some(2), 5);
    let a1 = it.next().unwrap().unwrap();
    assert_eq!(a1.offsets.len() - 1, 2);
    assert_eq!(a1.values, b"ab".to_vec());
    let a2 = it.next().unwrap().unwrap();
    assert_eq!(a2.offsets.len() - 1, 2);
    assert_eq!(a2.values, b"cd".to_vec());
    let a3 = it.next().unwrap().unwrap();
    assert_eq!(a3.offsets.len() - 1, 1);
    assert_eq!(a3.values, b"e".to_vec());
    assert!(it.next().is_none());
    assert!(it.next().is_none());
}

#[test]
fn chunk_spans_page_boundary() {
    let pages = vec![
        plain_page(&[b"a", b"b"], None, false),
        plain_page(&[b"c", b"d", b"e"], None, false),
    ];
    let mut it = BinaryArrayIter::new(pages, ArrayKind::Binary, Some(3), 5);
    let a1 = it.next().unwrap().unwrap();
    assert_eq!(a1.values, b"abc".to_vec());
    let a2 = it.next().unwrap().unwrap();
    assert_eq!(a2.values, b"de".to_vec());
    assert!(it.next().is_none());
}

#[test]
fn budget_truncates_early() {
    let pages = vec![plain_page(&[b"a", b"b", b"c", b"d", b"e"], None, false)];
    let mut it = BinaryArrayIter::new(pages, ArrayKind::Binary, None, 3);
    let a = it.next().unwrap().unwrap();
    assert_eq!(a.values, b"abc".to_vec());
    assert!(it.next().is_none());
}

#[test]
fn invalid_utf8_surfaces_as_error_for_strings() {
    let bad: &[u8] = &[0xFF, 0x61];
    let pages = vec![plain_page(&[b"ok", bad], None, true)];
    let mut it = BinaryArrayIter::new(pages, ArrayKind::Utf8, None, 2);
    let e = it.next().unwrap().unwrap_err();
    assert_eq!(e, DecodeError::InvalidUtf8);
    assert!(it.next().is_none());
}

#[test]
fn same_bytes_succeed_as_binary() {
    let bad: &[u8] = &[0xFF, 0x61];
    let pages = vec![plain_page(&[b"ok", bad], None, false)];
    let mut it = BinaryArrayIter::new(pages, ArrayKind::Binary, None, 2);
    let a = it.next().unwrap().unwrap();
    assert_eq!(a.values, vec![b'o', b'k', 0xFF, 0x61]);
}

#[test]
fn missing_dictionary_is_an_error() {
    let data = Page::Data(DataPage {
        values: PageValues::Dictionary { indices: vec![0] },
        num_rows: 1,
        validity: None,
        is_string: false,
    });
    let mut it = BinaryArrayIter::new(vec![data], ArrayKind::Binary, None, 1);
    let e = it.next().unwrap().unwrap_err();
    assert_eq!(e, DecodeError::MissingDictionary);
}

#[test]
fn out_of_bounds_index_is_an_error() {
    let dict = Page::Dict(DictPage { buffer: plain_encode(&[b"a"]), num_values: 1 });
    let data = Page::Data(DataPage {
        values: PageValues::Dictionary { indices: vec![0, 7] },
        num_rows: 2,
        validity: None,
        is_string: false,
    });
    let mut it = BinaryArrayIter::new(vec![dict, data], ArrayKind::Binary, None, 2);
    let e = it.next().unwrap().unwrap_err();
    assert_eq!(e, DecodeError::OutOfBoundsIndex);
}

#[test]
fn slab_too_short_is_an_error() {
    let data = Page::Data(DataPage {
        values: PageValues::DeltaLength { lengths: vec![5], bytes: b"ab".to_vec() },
        num_rows: 1,
        validity: None,
        is_string: false,
    });
    let mut it = BinaryArrayIter::new(vec![data], ArrayKind::Binary, None, 1);
    let e = it.next().unwrap().unwrap_err();
    assert_eq!(e, DecodeError::SlabTooShort);
}

#[test]
fn prefix_too_long_is_an_error() {
    let data = Page::Data(DataPage {
        values: PageValues::DeltaBytes {
            prefixes: vec![3],
            suffixes: vec![1],
            bytes: b"x".to_vec(),
        },
        num_rows: 1,
        validity: None,
        is_string: false,
    });
    let mut it = BinaryArrayIter::new(vec![data], ArrayKind::Binary, None, 1);
    let e = it.next().unwrap().unwrap_err();
    assert_eq!(e, DecodeError::PrefixTooLong);
}

#[test]
fn truncated_value_is_an_error() {
    // Declared length 9 but only 2 value bytes follow the prefix.
    let mut bytes = Vec::new();
    bytes.extend_from_slice(&9u32.to_le_bytes());
    bytes.extend_from_slice(b"ab");
    let data = Page::Data(DataPage {
        values: PageValues::Plain { bytes },
        num_rows: 1,
        validity: None,
        is_string: false,
    });
    let mut it = BinaryArrayIter::new(vec![data], ArrayKind::Binary, None, 1);
    let e = it.next().unwrap().unwrap_err();
    assert_eq!(e, DecodeError::TruncatedValue);
}

#[test]
fn exhausted_values_is_an_error() {
    // The page declares three rows but the stream holds one value.
    let data = Page::Data(DataPage {
        values: PageValues::Plain { bytes: plain_encode(&[b"a"]) },
        num_rows: 3,
        validity: None,
        is_string: false,
    });
    let mut it = BinaryArrayIter::new(vec![data], ArrayKind::Binary, None, 3);
    let e = it.next().unwrap().unwrap_err();
    assert_eq!(e, DecodeError::ExhaustedValues);
}

#[test]
fn exhausted_validity_is_an_error() {
    // The page declares three rows but the descriptor holds two bits.
    let data = Page::Data(DataPage {
        values: PageValues::Plain { bytes: plain_encode(&[b"a", b"b", b"c"]) },
        num_rows: 3,
        validity: Some(vec![true, true]),
        is_string: false,
    });
    let mut it = BinaryArrayIter::new(vec![data], ArrayKind::Binary, None, 3);
    let e = it.next().unwrap().unwrap_err();
    assert_eq!(e, DecodeError::ExhaustedValidity);
}

#[test]
fn no_items_after_error() {
    let data = Page::Data(DataPage {
        values: PageValues::DeltaLength { lengths: vec![5], bytes: b"ab".to_vec() },
        num_rows: 1,
        validity: None,
        is_string: false,
    });
    let good = plain_page(&[b"fine"], None, false);
    let mut it = BinaryArrayIter::new(vec![data, good], ArrayKind::Binary, None, 2);
    assert!(it.next().unwrap().is_err());
    assert!(it.next().is_none());
    assert!(it.next().is_none());
}

#[test]
fn newer_dictionary_replaces_cached_one() {
    let dict1 = Page::Dict(DictPage { buffer: plain_encode(&[b"old"]), num_values: 1 });
    let dict2 = Page::Dict(DictPage { buffer: plain_encode(&[b"new"]), num_values: 1 });
    let data = Page::Data(DataPage {
        values: PageValues::Dictionary { indices: vec![0] },
        num_rows: 1,
        validity: None,
        is_string: false,
    });
    let mut it = BinaryArrayIter::new(vec![dict1, dict2, data], ArrayKind::Binary, None, 1);
    let a = it.next().unwrap().unwrap();
    assert_eq!(a.values, b"new".to_vec());
}

#[test]
fn wide_kind_decodes_like_narrow() {
    let pages = vec![plain_page(&[b"ab", b"c"], None, false)];
    let mut it = BinaryArrayIter::new(pages, ArrayKind::LargeBinary, None, 2);
    let a = it.next().unwrap().unwrap();
    assert_eq!(a.offsets, vec![0, 2, 3]);
    assert_eq!(a.values, b"abc".to_vec());
    assert_eq!(a.kind, ArrayKind::LargeBinary);
}

#[test]
fn mixed_nullable_and_plain_pages_share_one_chunk() {
    let pages = vec![
        plain_page(&[b"a"], None, false),
        plain_page(&[b"b"], Some(vec![true, false]), false),
    ];
    let mut it = BinaryArrayIter::new(pages, ArrayKind::Binary, None, 3);
    let a = it.next().unwrap().unwrap();
    assert_eq!(a.offsets, vec![0, 1, 2, 2]);
    assert_eq!(a.validity, Some(vec![true, true, false]));
    assert_eq!(a.values, b"ab".to_vec());
}

#[test]
fn empty_page_yields_nothing() {
    let pages = vec![plain_page(&[], None, false)];
    let mut it = BinaryArrayIter::new(pages, ArrayKind::Binary, Some(2), 5);
    assert!(it.next().is_none());
}

#[test]
fn truncated_dictionary_page_is_an_error() {
    let dict = Page::Dict(DictPage { buffer: plain_encode(&[b"a"]), num_values: 2 });
    let data = Page::Data(DataPage {
        values: PageValues::Dictionary { indices: vec![0] },
        num_rows: 1,
        validity: None,
        is_string: false,
    });
    let mut it = BinaryArrayIter::new(vec![dict, data], ArrayKind::Binary, None, 1);
    let e = it.next().unwrap().unwrap_err();
    assert_eq!(e, DecodeError::ExhaustedValues);
}
