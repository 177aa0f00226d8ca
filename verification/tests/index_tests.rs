use mdict_web::index::{
    absorb_resolved_keys, can_reuse_index, group_postings, normalize_key,
    normalized_pairs, pack_posting_range, posting_ordinal_at, sort_pairs, suggest_batch_size,
    unpack_posting_range, DictionaryIndexMetadata, DictionarySuggestIndex, IndexError, IndexPaths,
    KEYS_AT_BATCH_THRESHOLD,
};

fn chars(s: &str) -> Vec<char> {
    s.chars().collect()
}

fn metadata() -> DictionaryIndexMetadata {
    DictionaryIndexMetadata::expected("demo", 10, 20, 3)
}

#[test]
fn normalize_key_respects_case_and_strip_flags() {
    assert_eq!(normalize_key(" Apple ", false, true), "apple");
    assert_eq!(normalize_key(" Apple ", true, false), " Apple ");
}

#[test]
fn posting_range_round_trip_works() {
    let packed = pack_posting_range(42, 7);
    assert_eq!(unpack_posting_range(packed), (42, 7));
}

#[test]
fn posting_ordinal_round_trip_works() {
    let mut postings = Vec::new();
    postings.extend_from_slice(&12u32.to_le_bytes());
    postings.extend_from_slice(&34u32.to_le_bytes());
    assert_eq!(posting_ordinal_at(&postings, 0), Some(12));
    assert_eq!(posting_ordinal_at(&postings, 1), Some(34));
    assert_eq!(posting_ordinal_at(&postings, 2), None);
}

#[test]
fn suggest_batch_size_scales_with_limit() {
    assert_eq!(suggest_batch_size(1), 64);
    assert_eq!(suggest_batch_size(20), 80);
}

#[test]
fn keys_at_batch_threshold_prefers_small_inline_path() {
    assert!(KEYS_AT_BATCH_THRESHOLD > 1);
}

#[test]
fn normalize_key_trims_nuls_and_lowercases_unicode() {
    assert_eq!(normalize_key("\0ÄPFEL\0", false, false), "äpfel");
    assert_eq!(normalize_key("  \0Key\0  ", true, true), "Key");
    assert_eq!(normalize_key("  ", false, true), "");
}

#[test]
fn packed_range_keeps_start_high_and_count_low() {
    assert_eq!(pack_posting_range(1, 2), (1u64 << 32) | 2);
    assert_eq!(unpack_posting_range(u64::MAX), (u32::MAX as usize, u32::MAX as usize));
}

#[test]
fn posting_ordinal_refuses_out_of_range_and_overflowing_indexes() {
    let postings = vec![1u8, 0, 0, 0, 9];
    assert_eq!(posting_ordinal_at(&postings, 0), Some(1));
    assert_eq!(posting_ordinal_at(&postings, 1), None);
    assert_eq!(posting_ordinal_at(&postings, usize::MAX), None);
}

#[test]
fn suggest_batch_size_saturates() {
    assert_eq!(suggest_batch_size(0), 64);
    assert_eq!(suggest_batch_size(usize::MAX), usize::MAX);
}

#[test]
fn index_paths_sit_in_the_index_directory() {
    let paths = IndexPaths::new("/var/index", "demo");
    assert_eq!(paths.map, "/var/index/demo.suggest.fst");
    assert_eq!(paths.postings, "/var/index/demo.suggest.ordinals.bin");
    assert_eq!(paths.meta, "/var/index/demo.suggest.meta.json");
}

#[test]
fn stored_index_is_reused_only_when_it_matches() {
    let expected = metadata();
    let same = Some(metadata());
    let other = Some(DictionaryIndexMetadata::expected("demo", 11, 20, 3));
    assert!(can_reuse_index(false, true, &same, &expected));
    assert!(!can_reuse_index(true, true, &same, &expected));
    assert!(!can_reuse_index(false, false, &same, &expected));
    assert!(!can_reuse_index(false, true, &other, &expected));
    assert!(!can_reuse_index(false, true, &None, &expected));
    assert_eq!(expected.format_version, 2);
}

#[test]
fn normalized_pairs_skip_empty_keys_and_refuse_wide_ordinals() {
    let entries = vec![
        ("Apple".to_owned(), 0u64),
        ("  ".to_owned(), 1),
        ("Pear".to_owned(), 2),
    ];
    let pairs = normalized_pairs(&entries, false, true).expect("pairs");
    assert_eq!(pairs, vec![(chars("apple"), 0), (chars("pear"), 2)]);

    let wide = vec![("".to_owned(), 5_000_000_000u64), ("x".to_owned(), 4_294_967_296u64)];
    match normalized_pairs(&wide, false, false) {
        Err(IndexError::InvalidData(m)) => assert_eq!(m, "key ordinal 4294967296 exceeds u32 range"),
        other => panic!("unexpected {other:?}"),
    }
}

#[test]
fn sort_pairs_orders_by_key_then_ordinal() {
    let v = vec![(chars("b"), 1u32), (chars("a"), 9), (chars("b"), 0), (chars("ab"), 3)];
    let sorted = sort_pairs(v);
    assert_eq!(
        sorted,
        vec![(chars("a"), 9), (chars("ab"), 3), (chars("b"), 0), (chars("b"), 1)]
    );
}

#[test]
fn group_postings_builds_one_entry_per_key() {
    let sorted = vec![(chars("a"), 9u32), (chars("b"), 0), (chars("b"), 1)];
    let (entries, postings) = group_postings(&sorted).expect("grouped");
    assert_eq!(
        entries,
        vec![("a".to_owned(), pack_posting_range(0, 1)), ("b".to_owned(), pack_posting_range(1, 2))]
    );
    assert_eq!(posting_ordinal_at(&postings, 0), Some(9));
    assert_eq!(posting_ordinal_at(&postings, 1), Some(0));
    assert_eq!(posting_ordinal_at(&postings, 2), Some(1));
}

#[test]
fn absorb_takes_new_keys_until_the_limit() {
    let mut out = vec!["apple".to_owned()];
    let ordinals = vec![1u64, 2, 3, 4];
    let resolved = vec![
        Some("apple".to_owned()),
        Some("apricot".to_owned()),
        Some("apply".to_owned()),
        None,
    ];
    absorb_resolved_keys(&ordinals, &resolved, &mut out, 3).expect("absorbed");
    assert_eq!(out, vec!["apple", "apricot", "apply"]);
}

#[test]
fn absorb_reports_an_ordinal_without_key() {
    let mut out = Vec::new();
    let ordinals = vec![5u64, 6];
    let resolved = vec![Some("a".to_owned()), None];
    match absorb_resolved_keys(&ordinals, &resolved, &mut out, 10) {
        Err(IndexError::InvalidData(m)) => {
            assert_eq!(m, "ordinal 6 resolved to no key in source dictionary")
        }
        other => panic!("unexpected {other:?}"),
    }
}

#[test]
fn built_index_finds_keys_by_normalized_prefix() {
    let entries = vec![
        ("Apple".to_owned(), 0u64),
        ("apple".to_owned(), 1),
        ("Apricot".to_owned(), 2),
        ("Banana".to_owned(), 3),
    ];
    let index = DictionarySuggestIndex::build_from_entries(&entries, metadata(), false, true)
        .expect("index builds");
    assert_eq!(index.metadata(), &metadata());
    let ranges = index.posting_ranges("ap");
    assert_eq!(ranges, vec![(0, 2), (2, 1)]);
    let ordinals: Vec<u32> = (0..3).map(|i| posting_ordinal_at(index.postings(), i).unwrap()).collect();
    assert_eq!(ordinals, vec![0, 1, 2]);
    assert_eq!(index.posting_ranges("b"), vec![(3, 1)]);
    assert_eq!(index.posting_ranges("c"), Vec::<(usize, usize)>::new());
}

#[test]
fn index_read_back_from_its_parts_matches_the_built_one() {
    let entries = vec![("Apple".to_owned(), 0u64), ("Apricot".to_owned(), 1)];
    let built = DictionarySuggestIndex::build_from_entries(&entries, metadata(), false, true)
        .expect("index builds");
    let bytes = built.map_bytes();
    let loaded = DictionarySuggestIndex::from_parts(bytes, built.postings().clone(), metadata())
        .expect("index loads");
    assert_eq!(loaded.posting_ranges("apr"), built.posting_ranges("apr"));
    assert_eq!(loaded.postings(), built.postings());
}

#[test]
fn from_parts_refuses_misaligned_postings() {
    let entries = vec![("Apple".to_owned(), 0u64)];
    let built = DictionarySuggestIndex::build_from_entries(&entries, metadata(), false, true)
        .expect("index builds");
    match DictionarySuggestIndex::from_parts(built.map_bytes(), vec![0u8; 5], metadata()) {
        Err(IndexError::InvalidData(m)) => {
            assert_eq!(m, "suggest postings byte length 5 is not aligned to 4")
        }
        other => panic!("unexpected {:?}", other.map(|_| ())),
    }
}

#[test]
fn index_builds_over_keys_beyond_ascii() {
    let entries = vec![
        ("zebra".to_owned(), 0u64),
        ("éclair".to_owned(), 1),
        ("日本".to_owned(), 2),
        ("eclair".to_owned(), 3),
        ("😀".to_owned(), 4),
    ];
    let index = DictionarySuggestIndex::build_from_entries(&entries, metadata(), true, true)
        .expect("index builds");
    assert_eq!(index.posting_ranges("é").len(), 1);
    assert_eq!(index.posting_ranges("").len(), 5);
}

#[test]
fn ignoring_case_lowercases_the_case_sensitive_key() {
    for key in [" AbC ", "\0Straße\0", "ÉCLAIR"] {
        for strip in [false, true] {
            assert_eq!(normalize_key(key, false, strip), normalize_key(key, true, strip).to_lowercase());
        }
    }
    let stripped = normalize_key("  Apple pie \t", true, true);
    assert_eq!(stripped, stripped.trim());
}

#[test]
fn index_error_messages_name_their_cause() {
    assert_eq!(IndexError::Fst("x".to_owned()).message(), "fst error: x");
    assert_eq!(
        IndexError::InvalidData("y".to_owned()).message(),
        "index data is invalid: y"
    );
    assert_eq!(
        IndexError::Mdict("z".to_owned()).message(),
        "failed to iterate mdx keys: z"
    );
}

#[test]
fn index_read_back_keeps_map_and_postings() {
    let entries = vec![("Apple".to_owned(), 0u64), ("Banana".to_owned(), 1), ("apple".to_owned(), 2)];
    let built = DictionarySuggestIndex::build_from_entries(&entries, metadata(), false, true)
        .expect("index builds");
    let again = built.read_back().expect("reads back");
    assert_eq!(again.postings(), built.postings());
    assert_eq!(again.metadata(), built.metadata());
    assert_eq!(again.posting_ranges("a"), built.posting_ranges("a"));
    assert_eq!(again.map_bytes(), built.map_bytes());
}
