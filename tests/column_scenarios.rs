use segment_store::encoding::Encoding;
use segment_store::rle::{Error, RLE, MAX_ROWS};
use segment_store::row_ids::{Operator, RowIDs};

fn regions() -> Encoding {
    let mut enc = Encoding::RLE(RLE::default());
    enc.push_additional(Some("east".to_string()), 3);
    enc.push_additional(Some("north".to_string()), 1);
    enc.push_additional(Some("east".to_string()), 5);
    enc.push_additional(Some("south".to_string()), 2);
    enc.push_additional(None, 1);
    enc
}

fn all_rows(n: u32) -> Vec<u32> {
    (0..n).collect()
}

fn as_vec(ids: RowIDs) -> Vec<u32> {
    match ids {
        RowIDs::Vector(v) => v,
        RowIDs::Bitmap(b) => b.to_vec(),
    }
}

#[test]
fn scenario_regions_equal_and_aggregates() {
    let enc = regions();
    assert_eq!(
        enc.dictionary(),
        &["east".to_string(), "north".to_string(), "south".to_string()]
    );
    let ids = enc.row_ids_filter("east", &Operator::Equal, RowIDs::Vector(vec![]));
    assert_eq!(ids, RowIDs::Vector(vec![0, 1, 2, 4, 5, 6, 7, 8]));
    let ids = enc.row_ids_filter("east", &Operator::NotEqual, RowIDs::Vector(vec![]));
    assert_eq!(ids, RowIDs::Vector(vec![3, 9, 10]));
    let ids = enc.row_ids_null(RowIDs::Vector(vec![]));
    assert_eq!(ids, RowIDs::Vector(vec![11]));
    let rows = all_rows(12);
    assert_eq!(enc.min(&rows), Some(&"east".to_string()));
    assert_eq!(enc.max(&rows), Some(&"south".to_string()));
    assert_eq!(enc.count(&rows), 11);
}

#[test]
fn scenario_greater_than_absent_value() {
    let mut enc = Encoding::RLE(RLE::default());
    enc.push_additional(Some("east".to_string()), 3);
    enc.push_additional(Some("north".to_string()), 1);
    enc.push_additional(Some("east".to_string()), 5);
    enc.push_additional(Some("south".to_string()), 2);
    enc.push_additional(Some("west".to_string()), 1);
    enc.push_additional(Some("north".to_string()), 1);
    enc.push_additional(None, 1);
    enc.push_additional(Some("west".to_string()), 5);
    let ids = enc.row_ids_filter("north", &Operator::GT, RowIDs::Vector(vec![]));
    assert_eq!(ids, RowIDs::Vector(vec![9, 10, 11, 14, 15, 16, 17, 18]));
    let ids = enc.row_ids_filter("east1", &Operator::GTE, RowIDs::Vector(vec![]));
    assert_eq!(
        ids,
        RowIDs::Vector(vec![3, 9, 10, 11, 12, 14, 15, 16, 17, 18])
    );
}

#[test]
fn scenario_null_and_not_null() {
    let mut enc = Encoding::RLE(RLE::default());
    enc.push_additional(Some("east".to_string()), 3);
    enc.push_additional(None, 3);
    enc.push_additional(Some("north".to_string()), 1);
    enc.push_additional(None, 2);
    enc.push_additional(Some("south".to_string()), 2);
    let ids = enc.row_ids_null(RowIDs::Vector(vec![]));
    assert_eq!(ids, RowIDs::Vector(vec![3, 4, 5, 7, 8]));
    let ids = enc.row_ids_not_null(RowIDs::Vector(vec![]));
    assert_eq!(ids, RowIDs::Vector(vec![0, 1, 2, 6, 9, 10]));
    let ids = enc.row_ids_is_null(true, RowIDs::Vector(vec![]));
    assert_eq!(ids, RowIDs::Vector(vec![3, 4, 5, 7, 8]));
    let ids = enc.row_ids_is_null(false, RowIDs::Vector(vec![]));
    assert_eq!(ids, RowIDs::Vector(vec![0, 1, 2, 6, 9, 10]));
    assert!(enc.contains_null());
}

#[test]
fn scenario_preseeded_dictionary_order() {
    let mut enc = Encoding::RLE(RLE::with_dictionary(vec![
        "hello".to_string(),
        "world".to_string(),
    ]));
    enc.push_additional(Some("world".to_string()), 1);
    enc.push_additional(Some("hello".to_string()), 1);
    assert_eq!(enc.all_encoded_values(vec![]), vec![2, 1]);
    assert_eq!(
        enc.all_values(vec![]),
        vec![Some(&"world".to_string()), Some(&"hello".to_string())]
    );
}

#[test]
fn scenario_min_max_count_with_nulls() {
    let mut enc = Encoding::RLE(RLE::default());
    enc.push_additional(Some("east".to_string()), 3);
    enc.push_additional(None, 2);
    enc.push_additional(Some("north".to_string()), 2);
    assert_eq!(enc.min(&[3]), None);
    assert_eq!(enc.min(&[3, 4]), None);
    assert_eq!(enc.min(&all_rows(7)), Some(&"east".to_string()));
    assert_eq!(enc.max(&all_rows(7)), Some(&"north".to_string()));
    assert_eq!(enc.count(&all_rows(7)), 5);
    assert_eq!(enc.count(&[3, 4]), 0);
}

#[test]
fn scenario_push_out_of_order_is_refused() {
    let mut enc = Encoding::RLE(RLE::default());
    assert_eq!(enc.push("b".to_string()), Ok(()));
    let before = enc.all_encoded_values(vec![]);
    let dict_before = enc.dictionary().to_vec();
    assert_eq!(enc.push("a".to_string()), Err(Error::OrderViolation));
    assert_eq!(enc.all_encoded_values(vec![]), before);
    assert_eq!(enc.dictionary().to_vec(), dict_before);
    assert_eq!(enc.all_values(vec![]), vec![Some(&"b".to_string())]);
}

#[test]
fn push_after_null_compares_with_last_value() {
    let mut enc = Encoding::RLE(RLE::default());
    assert_eq!(enc.push("m".to_string()), Ok(()));
    enc.push_none();
    assert_eq!(enc.push("a".to_string()), Err(Error::OrderViolation));
    assert_eq!(enc.push("m".to_string()), Ok(()));
    assert_eq!(enc.push("z".to_string()), Ok(()));
    assert_eq!(enc.all_encoded_values(vec![]), vec![1, 0, 1, 2]);
}

#[test]
fn reindex_keeps_rows() {
    let mut enc = Encoding::RLE(RLE::default());
    enc.push_additional(Some("c".to_string()), 2);
    enc.push_additional(Some("a".to_string()), 1);
    enc.push_additional(None, 1);
    enc.push_additional(Some("b".to_string()), 2);
    assert_eq!(enc.all_encoded_values(vec![]), vec![3, 3, 1, 0, 2, 2]);
    assert_eq!(
        enc.dictionary(),
        &["a".to_string(), "b".to_string(), "c".to_string()]
    );
    let ids = enc.row_ids_filter("c", &Operator::Equal, RowIDs::Vector(vec![]));
    assert_eq!(ids, RowIDs::Vector(vec![0, 1]));
    let ids = enc.row_ids_filter("b", &Operator::GTE, RowIDs::Vector(vec![]));
    assert_eq!(ids, RowIDs::Vector(vec![0, 1, 4, 5]));
}

#[test]
fn filter_into_bitmap() {
    let enc = regions();
    let ids = enc.row_ids_filter("north", &Operator::LTE, RowIDs::Bitmap(croaring::Bitmap::new()));
    assert!(matches!(ids, RowIDs::Bitmap(_)));
    assert_eq!(ids.to_vec(), vec![0, 1, 2, 3, 4, 5, 6, 7, 8]);
    let ids = enc.row_ids_null(RowIDs::Bitmap(croaring::Bitmap::of(&[40, 41])));
    assert_eq!(as_vec(ids), vec![11]);
}

#[test]
fn empty_column() {
    let enc = Encoding::RLE(RLE::default());
    assert!(enc.row_ids_filter("x", &Operator::NotEqual, RowIDs::Vector(vec![])).is_empty());
    assert!(enc.row_ids_not_null(RowIDs::Vector(vec![])).is_empty());
    assert!(enc.all_encoded_values(vec![]).is_empty());
    assert_eq!(enc.value(0), None);
    assert!(!enc.contains_null());
    assert!(!enc.contains_other_values(&[]));
}

#[test]
fn all_null_column() {
    let mut enc = Encoding::RLE(RLE::default());
    enc.push_additional(None, 4);
    for op in [
        Operator::Equal,
        Operator::NotEqual,
        Operator::LT,
        Operator::LTE,
        Operator::GT,
        Operator::GTE,
    ] {
        assert!(enc.row_ids_filter("a", &op, RowIDs::Vector(vec![])).is_empty());
    }
    assert_eq!(as_vec(enc.row_ids_null(RowIDs::Vector(vec![]))), vec![0, 1, 2, 3]);
}

#[test]
fn lt_of_minimum_is_empty() {
    let enc = regions();
    assert!(enc.row_ids_filter("east", &Operator::LT, RowIDs::Vector(vec![])).is_empty());
}

#[test]
fn decode_ids() {
    let enc = regions();
    assert_eq!(enc.decode_id(0), None);
    assert_eq!(enc.decode_id(1), Some("east".to_string()));
    assert_eq!(enc.decode_id(2), Some("north".to_string()));
    assert_eq!(enc.decode_id(3), Some("south".to_string()));
}

#[test]
fn row_count_matches_runs_and_bitmaps() {
    let enc = regions();
    let total: u64 = enc.group_row_ids().iter().map(|b| b.cardinality()).sum();
    assert_eq!(total, 12);
    assert_eq!(enc.all_encoded_values(vec![]).len(), 12);
    let groups = enc.group_row_ids();
    assert_eq!(groups[0].to_vec(), vec![11]);
    assert_eq!(groups[1].to_vec(), vec![0, 1, 2, 4, 5, 6, 7, 8]);
    for (k, b) in groups.iter().enumerate().skip(1) {
        for r in b.to_vec() {
            assert_eq!(enc.value(r), Some(&enc.dictionary()[k - 1]));
        }
    }
}

#[test]
fn equal_not_equal_null_partition() {
    let enc = regions();
    for v in ["east", "north", "south", "absent"] {
        let mut all = as_vec(enc.row_ids_filter(v, &Operator::Equal, RowIDs::Vector(vec![])));
        all.extend(as_vec(enc.row_ids_filter(v, &Operator::NotEqual, RowIDs::Vector(vec![]))));
        all.extend(as_vec(enc.row_ids_null(RowIDs::Vector(vec![]))));
        all.sort();
        assert_eq!(all, all_rows(12));
    }
}

#[test]
fn count_plus_nulls_is_selection_size() {
    let enc = regions();
    let rows = vec![0, 3, 9, 11, 12, 40];
    let nulls = rows.iter().filter(|r| enc.value(**r).is_none()).count() as u32;
    assert_eq!(enc.count(&rows) + nulls, rows.len() as u32);
    assert_eq!(enc.count(&rows), 3);
}

#[test]
fn min_not_after_max() {
    let enc = regions();
    for rows in [vec![0, 3], vec![3, 9], vec![9, 10, 11], vec![1]] {
        let lo = enc.min(&rows).unwrap();
        let hi = enc.max(&rows).unwrap();
        assert!(lo <= hi);
    }
}

#[test]
fn contains_other_values_exactly_when_missing() {
    let enc = regions();
    let east = "east".to_string();
    let north = "north".to_string();
    let south = "south".to_string();
    assert!(!enc.contains_other_values(&[Some(&east), Some(&north), Some(&south)]));
    assert!(enc.contains_other_values(&[Some(&east), Some(&south), None]));
    let seeded = Encoding::RLE(RLE::with_dictionary(vec!["unused".to_string()]));
    assert!(!seeded.contains_other_values(&[]));
}

#[test]
fn encoded_values_of_all_rows_match() {
    let enc = regions();
    assert_eq!(
        enc.encoded_values(&all_rows(12), vec![]),
        enc.all_encoded_values(vec![])
    );
    assert_eq!(enc.encoded_values(&[11, 12, 99], vec![7]), vec![0]);
}

#[test]
fn push_additional_zero_rows_only_adds_to_dictionary() {
    let mut enc = Encoding::RLE(RLE::default());
    enc.push_additional(Some("k".to_string()), 0);
    assert_eq!(enc.dictionary(), &["k".to_string()]);
    assert!(enc.all_encoded_values(vec![]).is_empty());
}

#[test]
fn from_values_keeps_order() {
    let rle = RLE::from_values(&["b", "a", "b"]);
    assert_eq!(
        rle.all_values(vec![]),
        vec![
            Some(&"b".to_string()),
            Some(&"a".to_string()),
            Some(&"b".to_string())
        ]
    );
    assert_eq!(rle.all_encoded_values(vec![]), vec![2, 1, 2]);
    assert!(MAX_ROWS > 0);
}

#[test]
fn non_ascii_order_is_byte_order() {
    let mut enc = Encoding::RLE(RLE::default());
    enc.push_additional(Some("é".to_string()), 1);
    enc.push_additional(Some("z".to_string()), 1);
    enc.push_additional(Some("Z".to_string()), 1);
    assert_eq!(
        enc.dictionary(),
        &["Z".to_string(), "z".to_string(), "é".to_string()]
    );
    let ids = enc.row_ids_filter("z", &Operator::GT, RowIDs::Vector(vec![]));
    assert_eq!(ids, RowIDs::Vector(vec![0]));
}

#[test]
fn size_grows_with_rows() {
    let mut enc = regions();
    let before = enc.size();
    enc.push_additional(Some("west".to_string()), 3);
    assert!(enc.size() > before);
}
