use segment_store::encoding::Encoding;
use segment_store::rle::RLE;
use segment_store::row_ids::{Operator, RowIDs};

#[test]
fn size() {
    let mut enc = Encoding::RLE(RLE::default());
    enc.push_additional(Some("east".to_string()), 3);
    enc.push_additional(Some("north".to_string()), 1);
    enc.push_additional(Some("east".to_string()), 5);
    enc.push_additional(Some("south".to_string()), 2);
    enc.push_none();
    enc.push_none();
    enc.push_none();
    enc.push_none();

    // dictionary: 24 + (24 * 3) + 14 bytes of keys
    // runs: 24 + (8 * 5)
    // bitmaps: 24 + their serialized bytes
    // flag and row count: 5
    let bitmap_bytes: usize = enc
        .group_row_ids()
        .iter()
        .map(|b| b.get_serialized_size_in_bytes::<croaring::Portable>())
        .sum();
    let expected = 110 + 64 + 24 + bitmap_bytes as u64 + 5;
    assert_eq!(enc.size(), expected);
    assert_eq!(enc.size(), enc.size());
}

#[test]
fn rle_push() {
    let mut enc = Encoding::RLE(RLE::from(vec!["hello", "hello", "hello", "hello"]));
    enc.push_additional(Some("hello".to_string()), 1);
    enc.push_additional(None, 3);
    enc.push("world".to_string()).unwrap();

    assert_eq!(
        enc.all_values(vec![]),
        [
            Some(&"hello".to_string()),
            Some(&"hello".to_string()),
            Some(&"hello".to_string()),
            Some(&"hello".to_string()),
            Some(&"hello".to_string()),
            None,
            None,
            None,
            Some(&"world".to_string()),
        ]
    );

    enc.push_additional(Some("zoo".to_string()), 3);
    enc.push_none();
    assert_eq!(
        enc.all_values(vec![]),
        [
            Some(&"hello".to_string()),
            Some(&"hello".to_string()),
            Some(&"hello".to_string()),
            Some(&"hello".to_string()),
            Some(&"hello".to_string()),
            None,
            None,
            None,
            Some(&"world".to_string()),
            Some(&"zoo".to_string()),
            Some(&"zoo".to_string()),
            Some(&"zoo".to_string()),
            None,
        ]
    );
}

#[test]
fn push_additional_first_run_length() {
    let arr = vec!["world".to_string(), "hello".to_string()];

    let mut enc = Encoding::RLE(RLE::with_dictionary(arr));
    enc.push_additional(Some("world".to_string()), 1);
    enc.push_additional(Some("hello".to_string()), 1);

    assert_eq!(
        enc.all_values(vec![]),
        vec![Some(&"world".to_string()), Some(&"hello".to_string())]
    );
    assert_eq!(enc.all_encoded_values(vec![]), vec![2, 1]);

    enc = Encoding::RLE(RLE::default());
    enc.push_additional(Some("hello".to_string()), 1);
    enc.push_additional(Some("world".to_string()), 1);

    assert_eq!(
        enc.all_values(vec![]),
        vec![Some(&"hello".to_string()), Some(&"world".to_string())]
    );
    assert_eq!(enc.all_encoded_values(vec![]), vec![1, 2]);
}

#[test]
fn row_ids_filter_equal() {
    let mut enc = Encoding::RLE(RLE::default());
    enc.push_additional(Some("east".to_string()), 3); // 0, 1, 2
    enc.push_additional(Some("north".to_string()), 1); // 3
    enc.push_additional(Some("east".to_string()), 5); // 4, 5, 6, 7, 8
    enc.push_none(); // 9
    enc.push_additional(Some("south".to_string()), 2); // 10, 11

    let ids = enc.row_ids_filter(&"east", &Operator::Equal, RowIDs::Vector(vec![]));
    assert_eq!(ids, RowIDs::Vector(vec![0, 1, 2, 4, 5, 6, 7, 8]));

    let ids = enc.row_ids_filter(&"south", &Operator::Equal, RowIDs::Vector(vec![]));
    assert_eq!(ids, RowIDs::Vector(vec![10, 11]));

    let ids = enc.row_ids_filter(&"foo", &Operator::Equal, RowIDs::Vector(vec![]));
    assert!(ids.is_empty());

    // != some value not in the column should exclude the NULL value.
    let ids = enc.row_ids_filter(&"foo", &Operator::NotEqual, RowIDs::Vector(vec![]));
    assert_eq!(ids, RowIDs::Vector(vec![0, 1, 2, 3, 4, 5, 6, 7, 8, 10, 11]));

    let ids = enc.row_ids_filter(&"east", &Operator::NotEqual, RowIDs::Vector(vec![]));
    assert_eq!(ids, RowIDs::Vector(vec![3, 10, 11]));
}

#[test]
fn row_ids_filter_equal_no_null() {
    let mut enc = Encoding::RLE(RLE::default());
    enc.push_additional(Some("east".to_string()), 2);
    enc.push_additional(Some("west".to_string()), 1);

    let ids = enc.row_ids_filter(&"abba", &Operator::NotEqual, RowIDs::Vector(vec![]));
    assert_eq!(ids, RowIDs::Vector(vec![0, 1, 2]));
}

#[test]
fn row_ids_filter_cmp() {
    let mut enc = Encoding::RLE(RLE::default());
    enc.push_additional(Some("east".to_string()), 3); // 0, 1, 2
    enc.push_additional(Some("north".to_string()), 1); // 3
    enc.push_additional(Some("east".to_string()), 5); // 4, 5, 6, 7, 8
    enc.push_additional(Some("south".to_string()), 2); // 9, 10
    enc.push_additional(Some("west".to_string()), 1); // 11
    enc.push_additional(Some("north".to_string()), 1); // 12
    enc.push_none(); // 13
    enc.push_additional(Some("west".to_string()), 5); // 14, 15, 16, 17, 18

    let ids = enc.row_ids_filter(&"east", &Operator::LTE, RowIDs::Vector(vec![]));
    assert_eq!(ids, RowIDs::Vector(vec![0, 1, 2, 4, 5, 6, 7, 8]));

    let ids = enc.row_ids_filter(&"east", &Operator::LT, RowIDs::Vector(vec![]));
    assert!(ids.is_empty());

    let ids = enc.row_ids_filter(&"north", &Operator::GT, RowIDs::Vector(vec![]));
    assert_eq!(ids, RowIDs::Vector(vec![9, 10, 11, 14, 15, 16, 17, 18]));

    let ids = enc.row_ids_filter(&"north", &Operator::GTE, RowIDs::Vector(vec![]));
    assert_eq!(
        ids,
        RowIDs::Vector(vec![3, 9, 10, 11, 12, 14, 15, 16, 17, 18])
    );

    // The encoding also supports comparisons on values that don't directly exist in the column.
    let ids = enc.row_ids_filter(&"abba", &Operator::GT, RowIDs::Vector(vec![]));
    assert_eq!(
        ids,
        RowIDs::Vector(vec![
            0, 1, 2, 3, 4, 5, 6, 7, 8, 9, 10, 11, 12, 14, 15, 16, 17, 18
        ])
    );

    let ids = enc.row_ids_filter(&"east1", &Operator::GT, RowIDs::Vector(vec![]));
    assert_eq!(
        ids,
        RowIDs::Vector(vec![3, 9, 10, 11, 12, 14, 15, 16, 17, 18])
    );

    let ids = enc.row_ids_filter(&"east1", &Operator::GTE, RowIDs::Vector(vec![]));
    assert_eq!(
        ids,
        RowIDs::Vector(vec![3, 9, 10, 11, 12, 14, 15, 16, 17, 18])
    );

    let ids = enc.row_ids_filter(&"east1", &Operator::LTE, RowIDs::Vector(vec![]));
    assert_eq!(ids, RowIDs::Vector(vec![0, 1, 2, 4, 5, 6, 7, 8]));

    let ids = enc.row_ids_filter(&"region", &Operator::LT, RowIDs::Vector(vec![]));
    assert_eq!(ids, RowIDs::Vector(vec![0, 1, 2, 3, 4, 5, 6, 7, 8, 12]));

    let ids = enc.row_ids_filter(&"zoo", &Operator::LTE, RowIDs::Vector(vec![]));
    assert_eq!(
        ids,
        RowIDs::Vector(vec![
            0, 1, 2, 3, 4, 5, 6, 7, 8, 9, 10, 11, 12, 14, 15, 16, 17, 18
        ])
    );
}

#[test]
fn row_ids_not_null() {
    let mut enc = Encoding::RLE(RLE::default());
    enc.push_additional(Some("east".to_string()), 3); // 0, 1, 2
    enc.push_additional(None, 3); // 3, 4, 5
    enc.push_additional(Some("north".to_string()), 1); // 6
    enc.push_additional(None, 2); // 7, 8
    enc.push_additional(Some("south".to_string()), 2); // 9, 10

    // essentially `WHERE value IS NULL`
    let ids = enc.row_ids_null(RowIDs::Vector(vec![]));
    assert_eq!(ids, RowIDs::Vector(vec![3, 4, 5, 7, 8]));

    // essentially `WHERE value IS NOT NULL`
    let ids = enc.row_ids_not_null(RowIDs::Vector(vec![]));
    assert_eq!(ids, RowIDs::Vector(vec![0, 1, 2, 6, 9, 10]));
}

#[test]
fn value() {
    let mut drle = Encoding::RLE(RLE::default());
    drle.push_additional(Some("east".to_string()), 3); // 0, 1, 2
    drle.push_additional(Some("north".to_string()), 1); // 3
    drle.push_additional(Some("east".to_string()), 5); // 4, 5, 6, 7, 8
    drle.push_additional(Some("south".to_string()), 2); // 9, 10
    drle.push_none(); // 11

    assert_eq!(drle.value(3), Some(&"north".to_string()));
    assert_eq!(drle.value(0), Some(&"east".to_string()));
    assert_eq!(drle.value(10), Some(&"south".to_string()));

    assert_eq!(drle.value(11), None);
    assert_eq!(drle.value(22), None);
}

#[test]
fn dictionary() {
    let mut enc = Encoding::RLE(RLE::default());
    assert!(enc.dictionary().is_empty());

    enc.push_additional(Some("east".to_string()), 23);
    enc.push_additional(Some("west".to_string()), 2);
    enc.push_none();
    enc.push_additional(Some("zoo".to_string()), 1);

    assert_eq!(
        enc.dictionary(),
        &["east".to_string(), "west".to_string(), "zoo".to_string()]
    );
}

#[test]
fn values() {
    let mut enc = Encoding::RLE(RLE::default());
    enc.push_additional(Some("east".to_string()), 3); // 0, 1, 2
    enc.push_additional(Some("north".to_string()), 1); // 3
    enc.push_additional(Some("east".to_string()), 5); // 4, 5, 6, 7, 8
    enc.push_additional(Some("south".to_string()), 2); // 9, 10
    enc.push_none(); // 11

    let mut dst = Vec::with_capacity(1000);
    dst = enc.values(&[0, 1, 3, 4], dst);
    assert_eq!(
        dst,
        vec![Some("east"), Some("east"), Some("north"), Some("east"),]
    );

    dst = enc.values(&[8, 10, 11], dst);
    assert_eq!(dst, vec![Some("east"), Some("south"), None]);

    assert_eq!(dst.capacity(), 1000);

    assert!(enc.values(&[1000], dst).is_empty());
}

#[test]
fn all_values() {
    let mut enc = Encoding::RLE(RLE::from(vec!["hello", "zoo"]));
    enc.push_none();

    let zoo = "zoo".to_string();
    let dst = vec![Some(&zoo), Some(&zoo), Some(&zoo), Some(&zoo)];
    let got = enc.all_values(dst);

    assert_eq!(
        got,
        [Some(&"hello".to_string()), Some(&"zoo".to_string()), None]
    );
    assert_eq!(got.capacity(), 4);
}

#[test]
fn distinct_values() {
    let east = "east".to_string();
    let north = "north".to_string();
    let south = "south".to_string();

    let mut enc = Encoding::RLE(RLE::default());
    enc.push_additional(Some("east".to_string()), 100);

    let values = enc.distinct_values((0..100).collect::<Vec<_>>().as_slice(), Vec::new());
    assert_eq!(values, vec![Some(&east)]);

    enc = Encoding::RLE(RLE::default());
    enc.push_additional(Some("east".to_string()), 3); // 0, 1, 2
    enc.push_additional(Some("north".to_string()), 1); // 3
    enc.push_additional(Some("east".to_string()), 5); // 4, 5, 6, 7, 8
    enc.push_additional(Some("south".to_string()), 2); // 9, 10
    enc.push_none(); // 11

    let values = enc.distinct_values((0..12).collect::<Vec<_>>().as_slice(), Vec::new());
    assert_eq!(values, vec![None, Some(&east), Some(&north), Some(&south)]);

    let values = enc.distinct_values((0..4).collect::<Vec<_>>().as_slice(), Vec::new());
    assert_eq!(values, vec![Some(&east), Some(&north)]);

    let values = enc.distinct_values(&[3, 10], Vec::new());
    assert_eq!(values, vec![Some(&north), Some(&south)]);

    let values = enc.distinct_values(&[100], Vec::new());
    assert!(values.is_empty());
}

#[test]
fn contains_other_values() {
    let mut enc = Encoding::RLE(RLE::default());
    enc.push_additional(Some("east".to_string()), 3); // 0, 1, 2
    enc.push_additional(Some("north".to_string()), 1); // 3
    enc.push_additional(Some("east".to_string()), 5); // 4, 5, 6, 7, 8
    enc.push_additional(Some("south".to_string()), 2); // 9, 10
    enc.push_none(); // 11

    let east = &"east".to_string();
    let north = &"north".to_string();
    let south = &"south".to_string();

    let mut others = Vec::new();
    others.push(Some(east));
    others.push(Some(north));

    assert!(enc.contains_other_values(&others));

    let f1 = "foo".to_string();
    others.push(Some(&f1));
    assert!(enc.contains_other_values(&others));

    others.push(Some(&south));
    others.push(None);
    assert!(!enc.contains_other_values(&others));

    let f2 = "bar".to_string();
    others.push(Some(&f2));
    assert!(!enc.contains_other_values(&others));

    assert!(enc.contains_other_values(&[]));
}

#[test]
fn has_non_null_value() {
    let mut enc = Encoding::RLE(RLE::default());
    enc.push_additional(Some("east".to_string()), 3); // 0, 1, 2
    enc.push_additional(Some("north".to_string()), 1); // 3
    enc.push_additional(Some("east".to_string()), 5); // 4, 5, 6, 7, 8
    enc.push_additional(Some("south".to_string()), 2); // 9, 10
    enc.push_none(); // 11

    assert!(enc.has_non_null_value(&[0]));
    assert!(enc.has_non_null_value(&[0, 1, 2]));
    assert!(enc.has_non_null_value(&[10]));

    assert!(!enc.has_non_null_value(&[11]));
    assert!(!enc.has_non_null_value(&[11, 12, 100]));

    // Pure NULL column...
    enc = Encoding::RLE(RLE::default());
    enc.push_additional(None, 10);
    assert!(!enc.has_non_null_value(&[0]));
    assert!(!enc.has_non_null_value(&[4, 7]));
}

#[test]
fn encoded_values() {
    let mut enc = Encoding::RLE(RLE::default());
    enc.push_additional(Some("east".to_string()), 3); // 0, 1, 2
    enc.push_additional(Some("north".to_string()), 1); // 3
    enc.push_additional(Some("east".to_string()), 5); // 4, 5, 6, 7, 8
    enc.push_additional(Some("south".to_string()), 2); // 9, 10
    enc.push_none(); // 11

    let mut encoded = enc.encoded_values(&[0], vec![]);
    assert_eq!(encoded, vec![1]);

    encoded = enc.encoded_values(&[1, 3, 5, 6], vec![]);
    assert_eq!(encoded, vec![1, 2, 1, 1]);

    encoded = enc.encoded_values(&[9, 10, 11], vec![]);
    assert_eq!(encoded, vec![3, 3, 0]);
}

#[test]
fn all_encoded_values() {
    let mut enc = Encoding::RLE(RLE::default());
    enc.push_additional(Some("east".to_string()), 3);
    enc.push_additional(None, 2);
    enc.push_additional(Some("north".to_string()), 2);

    let dst = Vec::with_capacity(100);
    let dst = enc.all_encoded_values(dst);
    assert_eq!(dst, vec![1, 1, 1, 0, 0, 2, 2]);
    assert_eq!(dst.capacity(), 100);
}

#[test]
fn min() {
    let mut enc = Encoding::RLE(RLE::default());
    enc.push_additional(Some("east".to_string()), 3); // 0, 1, 2
    enc.push_additional(None, 2); // 3, 4
    enc.push_additional(Some("north".to_string()), 2); // 5, 6

    assert_eq!(enc.min(&[0, 1, 2]), Some(&"east".to_string()));
    assert_eq!(enc.min(&[0, 1, 2, 3, 4, 5, 6]), Some(&"east".to_string()));
    assert_eq!(enc.min(&[4, 5, 6]), Some(&"north".to_string()));
    assert_eq!(enc.min(&[3]), None);
    assert_eq!(enc.min(&[3, 4]), None);

    let mut drle = Encoding::RLE(RLE::default());
    drle.push_additional(None, 10);
    assert_eq!(drle.min(&[2, 3, 6, 8]), None);
}

#[test]
fn max() {
    let mut enc = Encoding::RLE(RLE::default());
    enc.push_additional(Some("east".to_string()), 3); // 0, 1, 2
    enc.push_additional(None, 2); // 3, 4
    enc.push_additional(Some("north".to_string()), 2); // 5, 6

    assert_eq!(enc.max(&[0, 1, 2]), Some(&"east".to_string()));
    assert_eq!(enc.max(&[0, 1, 2, 3, 4, 5, 6]), Some(&"north".to_string()));
    assert_eq!(enc.max(&[4, 5, 6]), Some(&"north".to_string()));
    assert_eq!(enc.max(&[3]), None);
    assert_eq!(enc.max(&[3, 4]), None);

    let drle = Encoding::RLE(RLE::default());
    assert_eq!(drle.max(&[0]), None);

    let mut drle = Encoding::RLE(RLE::default());
    drle.push_additional(None, 10);
    assert_eq!(drle.max(&[2, 3, 6, 8]), None);
}

#[test]
fn count() {
    let mut enc = Encoding::RLE(RLE::default());
    enc.push_additional(Some("east".to_string()), 3); // 0, 1, 2
    enc.push_additional(None, 2); // 3, 4
    enc.push_additional(Some("north".to_string()), 2); // 5, 6

    assert_eq!(enc.count(&[0, 1, 2]), 3);
    assert_eq!(enc.count(&[0, 1, 2, 3, 4, 5, 6]), 5);
    assert_eq!(enc.count(&[4, 5, 6]), 2);
    assert_eq!(enc.count(&[3]), 0);
    assert_eq!(enc.count(&[3, 4]), 0);

    let mut drle = Encoding::RLE(RLE::default());
    drle.push_additional(None, 10);
    assert_eq!(drle.count(&[2, 3, 6, 8]), 0);
}
