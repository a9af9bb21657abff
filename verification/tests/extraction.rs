use loginitems::extract::{extract_bookmarks, ExtractionError};
use loginitems::value::{PlistValue, MIN_BOOKMARK_SIZE};

fn dict(entries: Vec<(&str, PlistValue)>) -> PlistValue {
    PlistValue::Dictionary(entries.into_iter().map(|(k, v)| (k.to_string(), v)).collect())
}

fn data(bytes: Vec<u8>) -> PlistValue {
    PlistValue::Data(bytes)
}

#[test]
fn missing_objects_key_yields_empty() {
    let root = dict(vec![
        ("$version", PlistValue::Other),
        ("$top", PlistValue::Dictionary(Vec::new())),
    ]);
    let r = extract_bookmarks(&root).unwrap();
    assert!(r.is_empty());
}

#[test]
fn empty_dictionary_yields_empty() {
    let root = dict(Vec::new());
    let r = extract_bookmarks(&root).unwrap();
    assert!(r.is_empty());
}

#[test]
fn objects_not_array_is_unexpected_type() {
    let root = dict(vec![("$objects", data(vec![1, 2, 3]))]);
    match extract_bookmarks(&root) {
        Err(ExtractionError::UnexpectedType { expected, found }) => {
            assert_eq!(expected.as_str(), "array");
            assert_eq!(found.as_str(), "data");
        }
        Ok(_) => panic!("a non-array $objects entry must be refused"),
    }
}

#[test]
fn objects_dictionary_is_unexpected_type() {
    let root = dict(vec![("$objects", dict(vec![("k", PlistValue::Other)]))]);
    match extract_bookmarks(&root) {
        Err(ExtractionError::UnexpectedType { expected, found }) => {
            assert_eq!(expected.as_str(), "array");
            assert_eq!(found.as_str(), "dictionary");
        }
        Ok(_) => panic!("a non-array $objects entry must be refused"),
    }
}

#[test]
fn top_level_data_unfiltered() {
    // 10 bytes, far below the minimum: still included at the top level.
    let blob = vec![9u8; 10];
    let root = dict(vec![("$objects", PlistValue::Array(vec![data(blob.clone())]))]);
    let r = extract_bookmarks(&root).unwrap();
    assert_eq!(r, vec![blob]);
}

#[test]
fn nested_data_boundary() {
    assert_eq!(MIN_BOOKMARK_SIZE, 48);
    let short = vec![1u8; MIN_BOOKMARK_SIZE - 1];
    let exact = vec![2u8; MIN_BOOKMARK_SIZE];
    let nested = dict(vec![("too-small", data(short)), ("bookmark", data(exact.clone()))]);
    let root = dict(vec![("$objects", PlistValue::Array(vec![nested]))]);
    let r = extract_bookmarks(&root).unwrap();
    assert_eq!(r, vec![exact]);
}

#[test]
fn single_qualifying_bookmark() {
    // The shape of a background-items container holding one real bookmark:
    // scalar noise, then a dictionary with one large Data entry beside
    // metadata, then a dictionary whose Data entry is below the minimum.
    let bookmark = vec![0x62u8; 64];
    let root = dict(vec![
        ("$version", PlistValue::Other),
        (
            "$objects",
            PlistValue::Array(vec![
                PlistValue::Other,
                dict(vec![("name", PlistValue::Other), ("bookmark", data(bookmark.clone()))]),
                dict(vec![("icon", data(vec![3u8; 16]))]),
            ]),
        ),
        ("$top", PlistValue::Dictionary(Vec::new())),
    ]);
    let r = extract_bookmarks(&root).unwrap();
    assert_eq!(r.len(), 1);
    assert_eq!(r[0], bookmark);
}

#[test]
fn order_follows_array() {
    let first = vec![0xAAu8; 3];
    let second = vec![0xBBu8; MIN_BOOKMARK_SIZE];
    let root = dict(vec![(
        "$objects",
        PlistValue::Array(vec![
            data(first.clone()),
            dict(vec![("bookmark", data(second.clone()))]),
        ]),
    )]);
    let r = extract_bookmarks(&root).unwrap();
    assert_eq!(r, vec![first, second]);
}

#[test]
fn empty_objects_array_yields_empty() {
    let root = dict(vec![("$objects", PlistValue::Array(Vec::new()))]);
    let r = extract_bookmarks(&root).unwrap();
    assert!(r.is_empty());
}

#[test]
fn non_data_elements_are_skipped() {
    let root = dict(vec![(
        "$objects",
        PlistValue::Array(vec![
            PlistValue::Other,
            PlistValue::Array(vec![data(vec![1u8; 64])]),
            dict(vec![
                ("arr", PlistValue::Array(Vec::new())),
                ("other", PlistValue::Other),
                ("sub", dict(vec![("deep", data(vec![2u8; 64]))])),
            ]),
        ]),
    )]);
    // Nested arrays and doubly-nested dictionaries are not walked: only
    // top-level Data and Data directly inside a first-level dictionary count.
    let r = extract_bookmarks(&root).unwrap();
    assert!(r.is_empty());
}

#[test]
fn first_objects_entry_decides() {
    // Should the key ever repeat, the first entry is the one that counts.
    let root = dict(vec![
        ("$objects", data(vec![1, 2, 3])),
        ("$objects", PlistValue::Array(vec![data(vec![4u8; 64])])),
    ]);
    assert!(extract_bookmarks(&root).is_err());
}

#[test]
fn variant_names_for_diagnostics() {
    assert_eq!(PlistValue::Other.variant_name(), "other");
    assert_eq!(data(Vec::new()).variant_name(), "data");
    assert_eq!(PlistValue::Array(Vec::new()).variant_name(), "array");
    assert_eq!(PlistValue::Dictionary(Vec::new()).variant_name(), "dictionary");
}
