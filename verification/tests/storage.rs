//! Files, logs and indexes.

use std::collections::{BTreeMap, HashSet};

use rand::rngs::StdRng;
use rand::{Rng, SeedableRng};

use tpt_core::bloom::KeyFilter;
use tpt_core::btree::{BTree, TreeError};
use tpt_core::cache::{path_for, CachedObjectStore, Lookup, NvmeCache};
use tpt_core::canopy_index::{tokenize, FtsIndex, JsonPathIndex};
use tpt_core::flux::{FluxError, FluxLog, FluxRecord, OffsetCommit, RetentionPolicy};
use tpt_core::framed::{append_record, split_records};
use tpt_core::geo_index::{GeoEntry, GeoError, GeoIndex};
use tpt_core::graph_index::{Direction, EdgeRecord, GraphError, GraphIndex};
use tpt_core::json::{collect_json_strings, extract_path, parse_json, scalar_key_text};
use tpt_core::lease::{Attempt, Current, LeaseManager, Renewal};
use tpt_core::sstable::{InternalKey, SSTable, TableError, DELETE_TAG, PUT_TAG};
use tpt_core::ts_index::{TimeBucketPolicy, TimeError, TimeIndex};
use tpt_core::wal::{encode_batch, replay_bytes, MemLog, Wal};

// B-trees.

/// The file of a tree: its header, then its nodes.
fn tree_file(t: &BTree) -> Vec<u8> {
    let mut file = t.header();
    file.extend(t.image_from(file.len()));
    file
}

#[test]
fn single_insert_survives_reload() {
    let mut bt = BTree::open(&[]);
    bt.insert(b"k1", b"v1").unwrap();
    let bt = BTree::open(&tree_file(&bt));
    assert_eq!(bt.search(b"k1").unwrap(), Some(b"v1".to_vec()));
    assert_eq!(bt.scan().unwrap(), vec![(b"k1".to_vec(), b"v1".to_vec())]);
}

#[test]
fn many_inserts_are_found_and_listed_in_order() {
    let mut bt = BTree::open(&[]);
    let mut model = BTreeMap::new();
    let mut rng = StdRng::seed_from_u64(7);
    for i in 0..500u32 {
        let key = format!("k{:03}", rng.gen_range(0..400)).into_bytes();
        let value = i.to_be_bytes().to_vec();
        bt.insert(&key, &value).unwrap();
        model.insert(key, value);
    }
    let bt = BTree::open(&tree_file(&bt));
    for (k, v) in &model {
        assert_eq!(bt.search(k).unwrap().as_ref(), Some(v));
    }
    assert_eq!(bt.search(b"none").unwrap(), None);
    let listed: Vec<(Vec<u8>, Vec<u8>)> = model.into_iter().collect();
    assert_eq!(bt.scan().unwrap(), listed);
}

#[test]
fn insert_leaves_what_stands_in_the_image() {
    let mut t = BTree::open(&[]);
    let mut before: Vec<u8> = Vec::new();
    for i in 0..300u32 {
        let k = (i.wrapping_mul(7919) % 101).to_be_bytes();
        t.insert(&k, &i.to_be_bytes()).unwrap();
        let now = t.image_from(0);
        assert_eq!(&now[..before.len()], &before[..]);
        before = now;
    }
    let mut last = BTreeMap::new();
    for i in 0..300u32 {
        last.insert((i.wrapping_mul(7919) % 101).to_be_bytes().to_vec(), i.to_be_bytes().to_vec());
    }
    assert_eq!(t.scan().unwrap(), last.into_iter().collect::<Vec<_>>());
}

#[test]
fn damaged_tree_is_reported() {
    let mut bt = BTree::open(&[]);
    bt.insert(b"k1", b"v1").unwrap();
    let mut file = tree_file(&bt);
    file.truncate(file.len() - 1);
    assert_eq!(BTree::open(&file).search(b"k1"), Err(TreeError::Truncated));
}

// The cache.

#[test]
fn cache_hit_avoids_backing_read() {
    let mut store = CachedObjectStore::new(1024 * 1024);
    assert!(store.put("sst/k", 5, "e1").is_empty());
    let (_, count_before) = store.cache_stats();
    assert_eq!(count_before, 5);
    match store.get("sst/k") {
        Lookup::Hit(e) => {
            assert_eq!(e.size, 5);
            assert_eq!(e.etag, "e1");
        }
        _ => panic!("expected a hit"),
    }
}

#[test]
fn manifest_like_keys_bypass_the_cache() {
    let mut store = CachedObjectStore::new(1024 * 1024);
    store.put("manifest.bin", 2, "v1");
    assert!(matches!(store.get("manifest.bin"), Lookup::Bypass));
    assert_eq!(store.cache_stats(), (0, 0), "manifest.bin must never be cached");
    store.put("manifest.bin", 2, "v2");
    assert!(matches!(store.get("manifest.bin"), Lookup::Bypass));
}

#[test]
fn eviction_respects_byte_budget() {
    let mut cache = NvmeCache::open(10);
    cache.put("a", 5, "a");
    cache.put("b", 5, "b");
    assert_eq!(cache.stats(), (2, 10));

    // Touch "b" so "a" becomes the LRU victim.
    cache.get("b");
    assert_eq!(cache.put("c", 5, "c"), vec!["a".to_string()]);

    let (count, total) = cache.stats();
    assert_eq!(count, 2);
    assert!(total <= 10);
    assert!(cache.get("a").is_none(), "a should have been evicted");
    assert!(cache.get("b").is_some());
    assert!(cache.get("c").is_some());
}

#[test]
fn delete_invalidates_cache() {
    let mut store = CachedObjectStore::new(1024 * 1024);
    store.put("k", 1, "e");
    store.get("k");
    assert!(!store.delete("k"));
    assert!(matches!(store.get("k"), Lookup::Bypass));

    store.put("wal/k", 1, "e");
    assert!(store.delete("wal/k"));
    assert!(matches!(store.get("wal/k"), Lookup::Miss));
}

#[test]
fn object_larger_than_the_budget_is_not_kept() {
    let mut cache = NvmeCache::open(10);
    cache.put("a", 5, "a");
    assert_eq!(cache.put("b", 11, "b"), vec!["a".to_string(), "b".to_string()]);
    assert_eq!(cache.stats(), (0, 0));
    assert_eq!(path_for("sst\\1"), "sst/1");
}

// Documents.

#[test]
fn path_index_extracts_nested_scalar() {
    let doc = parse_json(r#"{"user":{"address":{"city":"Wellington"}}}"#).unwrap();
    let v = extract_path(&doc, "user.address.city").unwrap();
    assert_eq!(scalar_key_text(v).unwrap(), "Wellington");
}

#[test]
fn path_index_roundtrips_through_disk() {
    let mut idx = JsonPathIndex::create("user.address.city");
    idx.insert(b"row1", r#"{"user":{"address":{"city":"Wellington"}}}"#);
    idx.insert(b"row2", r#"{"user":{"address":{"city":"Auckland"}}}"#);
    idx.insert(b"row3", r#"{"user":{"address":{"city":"Wellington"}}}"#);
    let saved = bincode::serialize(idx.buckets()).unwrap();

    let buckets: Vec<(String, Vec<Vec<u8>>)> = bincode::deserialize(&saved).unwrap();
    let idx = JsonPathIndex::open("user.address.city", buckets);
    assert_eq!(idx.json_path(), "user.address.city");
    let mut hits = idx.lookup("Wellington");
    hits.sort();
    assert_eq!(hits, vec![b"row1".to_vec(), b"row3".to_vec()]);
    assert_eq!(idx.lookup("Auckland"), vec![b"row2".to_vec()]);
    assert!(idx.lookup("Nowhere").is_empty());
}

#[test]
fn row_is_listed_once_per_value() {
    let mut idx = JsonPathIndex::create("n");
    idx.insert(b"r", r#"{"n":7}"#);
    idx.insert(b"r", r#"{"n":7}"#);
    idx.insert(b"s", r#"{"n":null}"#);
    idx.insert(b"t", "not json");
    assert_eq!(idx.lookup("7"), vec![b"r".to_vec()]);
    assert!(idx.lookup("null").is_empty());
}

#[test]
fn row_is_found_under_the_value_of_its_latest_document() {
    let mut idx = JsonPathIndex::create("city");
    idx.insert(b"r", r#"{"city":"A"}"#);
    idx.insert(b"s", r#"{"city":"A"}"#);
    idx.insert(b"r", r#"{"city":"B"}"#);
    assert_eq!(idx.lookup("A"), vec![b"s".to_vec()]);
    assert_eq!(idx.lookup("B"), vec![b"r".to_vec()]);
    idx.insert(b"r", "not json");
    assert!(idx.lookup("B").is_empty());
    idx.insert(b"s", r#"{"town":"A"}"#);
    assert!(idx.lookup("A").is_empty());
}

#[test]
fn second_text_of_a_row_replaces_the_first() {
    let mut both = FtsIndex::create();
    both.insert(b"k", "old words words");
    both.insert(b"k", "new text");
    let mut only = FtsIndex::create();
    only.insert(b"k", "new text");
    assert!(both.search_and("words").is_empty());
    assert_eq!(both.search_and("new"), only.search_and("new"));
    assert_eq!(both.doc_length(b"k"), 2);
    assert_eq!(both.frequencies("text"), only.frequencies("text"));
}

#[test]
fn fts_index_and_search() {
    let mut idx = FtsIndex::create();
    idx.insert(b"row1", "the quick brown fox");
    idx.insert(b"row2", "the lazy dog");
    idx.insert(b"row3", "quick lazy fox");

    let mut hits = idx.search_and("quick fox");
    hits.sort();
    assert_eq!(hits, vec![b"row1".to_vec(), b"row3".to_vec()]);

    assert_eq!(idx.search_and("lazy dog"), vec![b"row2".to_vec()]);
    assert!(idx.search_and("nonexistent").is_empty());

    let mut some = idx.search_any("Dog brown dog");
    some.sort();
    assert_eq!(some, vec![b"row1".to_vec(), b"row2".to_vec()]);
    assert!(idx.search_any("").is_empty());

    let by_length = |row: &Vec<u8>| idx.doc_length(row) as u64;
    assert_eq!(
        idx.search_bm25("fox", by_length, 10),
        vec![(b"row1".to_vec(), 4), (b"row3".to_vec(), 3)]
    );
    assert_eq!(idx.search_bm25("lazy fox", by_length, 1), vec![(b"row1".to_vec(), 4)]);
    assert!(idx.search_bm25("", by_length, 10).is_empty());

    let again = FtsIndex::open(idx.documents().clone(), idx.counts());
    assert_eq!(again.search_and("lazy dog"), vec![b"row2".to_vec()]);
    assert_eq!(again.doc_length(b"row1"), 4);
    let odd = FtsIndex::open(vec![], vec![("fox".to_string(), b"r".to_vec(), 1)]);
    assert!(odd.search_any("fox").is_empty());
}

#[test]
fn words_are_split_and_put_in_lower_case() {
    assert_eq!(tokenize("Hello, W0rld! \u{c9}t\u{e9}"), vec!["hello", "w0rld", "\u{e9}t\u{e9}"]);
    assert!(tokenize(" .,-").is_empty());
    let mut idx = FtsIndex::create();
    idx.insert(b"r", "fox Fox dog");
    assert_eq!(idx.frequencies("fox"), vec![(b"r".to_vec(), 2)]);
    assert_eq!(idx.doc_length(b"r"), 3);
}

#[test]
fn collect_json_strings_flattens_nested_text() {
    let doc = parse_json(r#"{"title":"Hello","tags":["fox","dog"]}"#).unwrap();
    let mut out = String::new();
    collect_json_strings(&doc, &mut out);
    for word in ["Hello", "fox", "dog"] {
        assert!(out.contains(word));
    }
}

#[test]
fn broken_json_is_refused() {
    assert!(parse_json("{\"a\":").is_none());
    let doc = parse_json("{\"a\":{\"b\":[1,true]}}").unwrap();
    assert!(extract_path(&doc, "a.c").is_none());
    assert!(extract_path(&doc, "a.b.c").is_none());
    assert!(scalar_key_text(extract_path(&doc, "a.b").unwrap()).is_none());
}

// Topics.

fn no_retention() -> RetentionPolicy {
    RetentionPolicy { retention_ms: None, retention_bytes: None }
}

#[test]
fn publish_poll_commit_round_trip() {
    let mut log = FluxLog::create(1, no_retention()).unwrap();
    log.publish(None, Some(b"k1".to_vec()), b"v1".to_vec()).unwrap();
    log.publish(None, Some(b"k1".to_vec()), b"v2".to_vec()).unwrap();

    let polled = log.poll("g1", 0, 10).unwrap();
    assert_eq!(polled.len(), 2);
    assert_eq!(polled[0].value, b"v1");
    assert_eq!(polled[1].value, b"v2");

    log.commit("g1", 0, 1).unwrap();
    let polled_after_commit = log.poll("g1", 0, 10).unwrap();
    assert_eq!(polled_after_commit.len(), 1);
    assert_eq!(polled_after_commit[0].value, b"v2");
}

#[test]
fn partition_hashing_is_deterministic() {
    let mut log = FluxLog::create(4, no_retention()).unwrap();
    let (p1, _) = log.publish(None, Some(b"same-key".to_vec()), b"a".to_vec()).unwrap();
    let (p2, _) = log.publish(None, Some(b"same-key".to_vec()), b"b".to_vec()).unwrap();
    assert_eq!(p1, p2);
}

#[test]
fn round_robin_without_key_spreads_across_partitions() {
    let mut log = FluxLog::create(3, no_retention()).unwrap();
    let mut seen = HashSet::new();
    for _ in 0..3 {
        let (p, _) = log.publish(None, None, b"x".to_vec()).unwrap();
        seen.insert(p);
    }
    assert_eq!(seen.len(), 3);
}

#[test]
fn explicit_partition_out_of_range_errors() {
    let mut log = FluxLog::create(2, no_retention()).unwrap();
    let e = log.publish(Some(5), None, b"x".to_vec()).unwrap_err();
    assert_eq!(e, FluxError::OutOfRange { partition: 5, partitions: 2 });
}

#[test]
fn time_based_retention_evicts_old_records() {
    let retention = RetentionPolicy { retention_ms: Some(1000), retention_bytes: None };
    let old = FluxRecord { offset: 0, key: None, value: b"old".to_vec(), timestamp_ms: 0 };
    let mut reopened = FluxLog::open(retention, vec![vec![old]], vec![]);
    reopened.publish(None, None, b"new".to_vec()).unwrap();
    let all = reopened.all_records(0).unwrap();
    assert!(all.iter().all(|r| r.value != b"old"));
    assert_eq!(all.len(), 1);
}

#[test]
fn size_based_retention_evicts_oldest_first() {
    let retention = RetentionPolicy { retention_ms: None, retention_bytes: Some(10) };
    let mut log = FluxLog::create(1, retention).unwrap();
    for i in 0..5 {
        log.publish(None, None, vec![i as u8; 4]).unwrap();
    }
    let all = log.all_records(0).unwrap();
    let total: usize = all.iter().map(|r| r.value.len()).sum();
    assert!(total <= 10);
    let offsets: Vec<u64> = all.iter().map(|r| r.offset).collect();
    assert_eq!(offsets, vec![3, 4]);
}

#[test]
fn reopen_replays_partitions_and_offsets() {
    let mut log = FluxLog::create(2, no_retention()).unwrap();
    log.publish(Some(0), None, b"a".to_vec()).unwrap();
    log.publish(Some(1), None, b"b".to_vec()).unwrap();
    log.commit("g1", 0, 1).unwrap();
    let meta = FluxLog::encode_meta(2, no_retention());

    let (n, retention) = FluxLog::decode_meta(&meta).unwrap();
    let logs = (0..n).map(|p| log.all_records(p).unwrap()).collect();
    let commits = vec![OffsetCommit { group: "g1".to_string(), partition: 0, offset: 1 }];
    let reopened = FluxLog::open(retention, logs, commits);
    assert_eq!(reopened.num_partitions(), 2);
    assert_eq!(reopened.all_records(0).unwrap().len(), 1);
    assert_eq!(reopened.all_records(1).unwrap().len(), 1);
    assert_eq!(reopened.poll("g1", 0, 10).unwrap().len(), 0);
    assert_eq!(reopened.poll("g2", 0, 10).unwrap().len(), 1);
}

#[test]
fn next_record_goes_where_it_was_said_to_go() {
    let mut log = FluxLog::create(3, no_retention()).unwrap();
    for i in 0..5u64 {
        let place = log.next_place(None, &None).unwrap();
        assert_eq!(log.publish_at(None, None, vec![i as u8], 1).unwrap(), place);
        assert_eq!(place, ((i % 3) as u32, i / 3));
    }
    let key = Some(b"k".to_vec());
    let place = log.next_place(None, &key).unwrap();
    assert_eq!(log.publish_at(None, key, vec![], 1).unwrap(), place);
    assert!(matches!(
        log.next_place(Some(3), &None),
        Err(FluxError::OutOfRange { partition: 3, partitions: 3 })
    ));
}

#[test]
fn offset_counts_all_records_though_some_were_dropped() {
    let policy = RetentionPolicy { retention_ms: None, retention_bytes: Some(2) };
    let mut log = FluxLog::create(1, policy).unwrap();
    for i in 0..6u64 {
        assert_eq!(log.publish_at(Some(0), None, vec![1], 1).unwrap(), (0, i));
    }
    assert_eq!(log.all_records(0).unwrap().len(), 2);
}

#[test]
fn topic_needs_a_partition_and_a_whole_header() {
    assert!(matches!(FluxLog::create(0, no_retention()), Err(FluxError::NoPartitions)));
    assert!(matches!(FluxLog::decode_meta(&[0, 0]), Err(FluxError::CutOffMeta)));
    let log = FluxLog::create(1, no_retention()).unwrap();
    assert!(matches!(
        log.poll("g", 3, 1),
        Err(FluxError::NoSuchPartition { partition: 3 })
    ));
    assert!(log.all_records(3).is_none());
}

// Places. The grid of these tests has one cell per degree.

fn cell(lon: f64, lat: f64) -> u64 {
    ((lon.floor() + 180.0) as u64) * 1000 + (lat.floor() + 90.0) as u64
}

fn near_cells(lon: f64, lat: f64) -> Vec<u64> {
    let mut cells = Vec::new();
    for dx in [-1.0, 0.0, 1.0] {
        for dy in [-1.0, 0.0, 1.0] {
            cells.push(cell(lon + dx, lat + dy));
        }
    }
    cells
}

fn distance_m(lon1: f64, lat1: f64, lon2: f64, lat2: f64) -> f64 {
    let (a1, a2) = (lat1.to_radians(), lat2.to_radians());
    let (dy, dx) = ((lat2 - lat1).to_radians(), (lon2 - lon1).to_radians());
    let h = (dy / 2.0).sin().powi(2) + a1.cos() * a2.cos() * (dx / 2.0).sin().powi(2);
    2.0 * 6371000.0 * h.sqrt().asin()
}

fn place(idx: &mut GeoIndex, row: &[u8], lon: f64, lat: f64, time: Option<i64>) {
    let entry =
        GeoEntry { row_key: row.to_vec(), lon: lon.to_bits(), lat: lat.to_bits(), time };
    idx.insert(cell(lon, lat), entry);
}

fn query_radius(
    idx: &GeoIndex,
    lon: f64,
    lat: f64,
    radius_m: f64,
    span: Option<(i64, i64)>,
) -> Vec<Vec<u8>> {
    // The bits of floating-point numbers that are not negative order as they do.
    let away =
        |e: &GeoEntry| distance_m(lon, lat, f64::from_bits(e.lon), f64::from_bits(e.lat)).to_bits();
    idx.query_radius(&near_cells(lon, lat), away, radius_m.to_bits(), span)
}

#[test]
fn insert_and_query_radius() {
    let mut idx = GeoIndex::create(12);
    place(&mut idx, b"row1", -122.4194, 37.7749, Some(1000));
    place(&mut idx, b"row2", 2.3522, 48.8566, Some(2000));
    place(&mut idx, b"row3", -122.4193, 37.7750, Some(3000));

    let hits = query_radius(&idx, -122.4194, 37.7749, 500.0, None);
    assert!(hits.contains(&b"row1".to_vec()));
    assert!(hits.contains(&b"row3".to_vec()));
    assert!(!hits.contains(&b"row2".to_vec()));

    let hits_time = query_radius(&idx, -122.4194, 37.7749, 500.0, Some((0, 1500)));
    assert!(hits_time.contains(&b"row1".to_vec()));
    assert!(!hits_time.contains(&b"row3".to_vec()));
}

type GeoTuple = (Vec<u8>, f64, f64, Option<i64>);

#[test]
fn geo_index_reopen_replays_log() {
    let idx = GeoIndex::create(12);
    let mut file = idx.write_header();
    let record: GeoTuple = (b"row1".to_vec(), -122.4194, 37.7749, None);
    append_record(&mut file, &bincode::serialize(&record).unwrap());

    let (mut reopened, records) = GeoIndex::open(&file).unwrap();
    assert_eq!(reopened.level(), 12);
    for r in &records {
        let (row, lon, lat, time): GeoTuple = bincode::deserialize(r).unwrap();
        place(&mut reopened, &row, lon, lat, time);
    }
    let hits = query_radius(&reopened, -122.4194, 37.7749, 500.0, None);
    assert_eq!(hits, vec![b"row1".to_vec()]);
}

#[test]
fn cut_off_geo_file_is_refused() {
    assert!(matches!(GeoIndex::open(&[]), Err(GeoError::NoHeader)));
    assert!(matches!(GeoIndex::open(&[12, 0, 0, 0, 9, 1]), Err(GeoError::CutOff)));
    // A length that is not there in full is ignored.
    assert!(GeoIndex::open(&[12, 0, 0]).is_ok());
}

#[test]
fn entry_without_a_time_is_in_no_span() {
    let mut idx = GeoIndex::create(1);
    place(&mut idx, b"r", 0.5, 0.5, None);
    assert_eq!(idx.query_cells(&vec![cell(0.5, 0.5)], None).len(), 1);
    assert!(idx.query_cells(&vec![cell(0.5, 0.5)], Some((i64::MIN, i64::MAX))).is_empty());
}

// Graphs.

#[test]
fn insert_and_query_neighbors() {
    let mut idx = GraphIndex::create("to_id", Some("rel".to_string()));
    idx.insert(b"1", b"2", Some("FOLLOWS".into()));
    idx.insert(b"2", b"3", Some("FOLLOWS".into()));

    let v1 = idx.graph().id_of(b"1").unwrap();
    let neighbors = idx.graph().neighbors(v1, Direction::Out);
    assert_eq!(neighbors.len(), 1);
    assert_eq!(idx.graph().key_of(neighbors[0].0), Some(b"2".as_slice()));
}

type EdgeTuple = (Vec<u8>, Vec<u8>, Option<String>);

#[test]
fn reopen_replays_log_and_header() {
    let idx = GraphIndex::create("to_id", Some("rel".to_string()));
    let mut file = idx.write_header();
    let record: EdgeTuple = (b"1".to_vec(), b"2".to_vec(), Some("FOLLOWS".into()));
    append_record(&mut file, &bincode::serialize(&record).unwrap());

    let (mut reopened, records) = GraphIndex::open(&file).unwrap();
    let edges: Vec<EdgeRecord> = records
        .iter()
        .map(|r| {
            let (from, to, rel_type): EdgeTuple = bincode::deserialize(r).unwrap();
            EdgeRecord { from, to, rel_type }
        })
        .collect();
    reopened.replay(&edges);
    assert_eq!(reopened.to_column(), "to_id");
    assert_eq!(reopened.type_column(), Some("rel"));
    let v1 = reopened.graph().id_of(b"1").unwrap();
    assert_eq!(reopened.graph().neighbors(v1, Direction::Out).len(), 1);
}

#[test]
fn neighbours_in_both_directions() {
    let mut idx = GraphIndex::create("to", None);
    idx.insert(b"a", b"b", None);
    idx.insert(b"c", b"a", None);
    let g = idx.graph();
    let a = g.id_of(b"a").unwrap();
    let keys = |dir: Direction| -> Vec<Vec<u8>> {
        g.neighbors(a, dir).iter().map(|(id, _)| g.key_of(*id).unwrap().to_vec()).collect()
    };
    assert_eq!(keys(Direction::Out), vec![b"b".to_vec()]);
    assert_eq!(keys(Direction::In), vec![b"c".to_vec()]);
    assert_eq!(keys(Direction::Both).len(), 2);
    assert_eq!(g.all_keys(), vec![b"a".to_vec(), b"b".to_vec(), b"c".to_vec()]);
    assert!(matches!(GraphIndex::open(&[0]), Err(GraphError::CutOff)));
}

// Leases.

struct Object(Option<Current>, u64);

impl Object {
    fn current(&self) -> Option<Current> {
        self.0
            .as_ref()
            .map(|c| Current { lease: c.lease.clone(), etag: c.etag.clone() })
    }

    fn put_if_match(&mut self, a: &Attempt) -> Option<String> {
        let etag = self.0.as_ref().map(|c| c.etag.clone());
        if etag != a.expected {
            return None;
        }
        self.1 += 1;
        let etag = format!("etag-{}", self.1);
        self.0 = Some(Current { lease: a.lease.clone(), etag: etag.clone() });
        Some(etag)
    }
}

fn acquire(m: &mut LeaseManager, object: &mut Object, now: u64) -> Result<(), String> {
    let attempt = m.try_acquire(object.current(), now).map_err(|h| h.message())?;
    let etag = object.put_if_match(&attempt);
    let won = etag.is_some();
    m.acquired(&attempt, etag);
    if won {
        Ok(())
    } else {
        Err("lost the race".to_string())
    }
}

#[test]
fn first_acquire_gets_token_one() {
    let mut object = Object(None, 0);
    let mut mgr = LeaseManager::new("db", "node-a".into(), 30_000);
    acquire(&mut mgr, &mut object, 1000).unwrap();
    assert_eq!(mgr.key(), "_lease/db");
    assert_eq!(mgr.handle().token(), 1);
    assert!(mgr.handle().is_valid());
}

#[test]
fn second_node_cannot_acquire_active_lease() {
    let mut object = Object(None, 0);
    let mut a = LeaseManager::new("db", "node-a".into(), 30_000);
    acquire(&mut a, &mut object, 1000).unwrap();

    let mut b = LeaseManager::new("db", "node-b".into(), 30_000);
    assert_eq!(
        acquire(&mut b, &mut object, 1001).unwrap_err(),
        "lease held by \"node-a\" until 31000 (fencing token 1)"
    );
    assert!(!b.handle().is_valid());
}

#[test]
fn takeover_after_expiry_bumps_fencing_token() {
    let mut object = Object(None, 0);
    let mut a = LeaseManager::new("db", "node-a".into(), 1);
    acquire(&mut a, &mut object, 1000).unwrap();
    assert_eq!(a.handle().token(), 1);

    let mut b = LeaseManager::new("db", "node-b".into(), 30_000);
    acquire(&mut b, &mut object, 1010).unwrap();
    assert_eq!(b.handle().token(), 2, "fencing token must strictly increase on takeover");
}

fn renew(m: &mut LeaseManager, object: &mut Object, now: u64) -> Result<(), String> {
    match m.renew(now) {
        Renewal::Acquire => acquire(m, object, now),
        Renewal::Put(a) => {
            let etag = object.put_if_match(&a);
            let kept = etag.is_some();
            m.renewed(etag);
            if kept {
                Ok(())
            } else {
                Err("lost".to_string())
            }
        }
    }
}

#[test]
fn renew_extends_without_changing_token() {
    let mut object = Object(None, 0);
    let mut a = LeaseManager::new("db", "node-a".into(), 30_000);
    acquire(&mut a, &mut object, 1000).unwrap();
    renew(&mut a, &mut object, 2000).unwrap();
    assert_eq!(a.handle().token(), 1);
    assert!(a.handle().is_valid());
    assert_eq!(object.0.unwrap().lease.expires_at_ms, 32_000);
}

#[test]
fn superseded_writer_is_demoted_on_renewal() {
    let mut object = Object(None, 0);
    let mut a = LeaseManager::new("db", "node-a".into(), 10);
    let mut b = LeaseManager::new("db", "node-b".into(), 10);
    renew(&mut a, &mut object, 0).unwrap();
    acquire(&mut b, &mut object, 100).unwrap();
    assert!(renew(&mut a, &mut object, 101).is_err());
    assert!(!a.handle().is_valid());
    assert!(b.handle().is_valid());
}

// Sorted tables.

fn ik(key: &[u8], seq: u64, tag: u8) -> InternalKey {
    InternalKey::new(key.to_vec(), seq, tag)
}

fn filter_for(n: usize) -> KeyFilter {
    let b = bloomfilter::Bloom::<Vec<u8>>::new_for_fp_rate(n.max(1), 0.01);
    KeyFilter::from_parts(
        &b.bitmap(),
        b.number_of_bits(),
        b.number_of_hash_functions(),
        b.sip_keys(),
    )
}

fn table(entries: &[(InternalKey, Vec<u8>)]) -> (Vec<u8>, SSTable) {
    let bytes = SSTable::build_bytes(entries, &mut filter_for(entries.len()));
    let sst = SSTable::decode("sst/1".to_string(), 1, bytes.clone()).unwrap();
    (bytes, sst)
}

#[test]
fn create_and_read_back() {
    let entries = vec![
        (ik(b"a", 1, PUT_TAG), b"1".to_vec()),
        (ik(b"b", 1, PUT_TAG), b"2".to_vec()),
        (ik(b"c", 1, DELETE_TAG), Vec::new()),
    ];
    let (bytes, sst) = table(&entries);
    assert_eq!(sst.read_at(b"a", 10).unwrap(), Some(Some(b"1".to_vec())));
    assert_eq!(sst.read_at(b"b", 10).unwrap(), Some(Some(b"2".to_vec())));
    assert_eq!(sst.read_at(b"c", 10).unwrap(), Some(None), "tombstone");
    assert_eq!(sst.read_at(b"z", 10).unwrap(), None, "no entry at all");

    let reopened = SSTable::decode("sst/1".to_string(), 1, bytes.clone()).unwrap();
    assert_eq!(reopened.read_at(b"a", 10).unwrap(), Some(Some(b"1".to_vec())));
    let scanned = reopened.scan_all_versions().unwrap();
    assert_eq!(
        scanned,
        vec![
            (b"a".to_vec(), 1, PUT_TAG, Some(b"1".to_vec())),
            (b"b".to_vec(), 1, PUT_TAG, Some(b"2".to_vec())),
            (b"c".to_vec(), 1, DELETE_TAG, None),
        ]
    );
    assert_eq!(reopened.id(), 1);
    assert_eq!(reopened.object_key(), "sst/1");
    assert_eq!(reopened.blob_size(), bytes.len() as u64);
}

#[test]
fn read_at_resolves_the_right_version_for_the_snapshot() {
    let entries = vec![
        (ik(b"k", 100, DELETE_TAG), Vec::new()),
        (ik(b"k", 90, PUT_TAG), b"v90".to_vec()),
        (ik(b"k", 50, PUT_TAG), b"v50".to_vec()),
    ];
    let (_, sst) = table(&entries);
    assert_eq!(sst.read_at(b"k", 40).unwrap(), None, "before any version exists");
    assert_eq!(sst.read_at(b"k", 50).unwrap(), Some(Some(b"v50".to_vec())));
    assert_eq!(sst.read_at(b"k", 89).unwrap(), Some(Some(b"v50".to_vec())));
    assert_eq!(sst.read_at(b"k", 90).unwrap(), Some(Some(b"v90".to_vec())));
    assert_eq!(sst.read_at(b"k", 99).unwrap(), Some(Some(b"v90".to_vec())));
    assert_eq!(sst.read_at(b"k", 100).unwrap(), Some(None), "deleted as of seq 100");
    assert_eq!(sst.read_at(b"k", 1000).unwrap(), Some(None), "still deleted later");
}

#[test]
fn empty_value_put_is_distinct_from_a_tombstone() {
    let entries = vec![(ik(b"k", 1, PUT_TAG), Vec::new())];
    let (_, sst) = table(&entries);
    assert_eq!(
        sst.read_at(b"k", 10).unwrap(),
        Some(Some(Vec::new())),
        "an empty-value put must read back Some(Some(empty)), not a tombstone"
    );
}

#[test]
fn max_seq_reports_the_highest_stored_seq() {
    let entries = vec![
        (ik(b"a", 5, PUT_TAG), b"1".to_vec()),
        (ik(b"b", 12, PUT_TAG), b"2".to_vec()),
    ];
    let (_, sst) = table(&entries);
    assert_eq!(sst.max_seq(), 12);
}

#[test]
fn filter_admits_what_was_added_and_little_else() {
    let mut f = filter_for(100);
    for i in 0..100u32 {
        f.set(&i.to_be_bytes().to_vec());
    }
    assert!((0..100u32).all(|i| f.check(&i.to_be_bytes().to_vec())));
    let wrong = (1000..2000u32).filter(|i| f.check(&i.to_be_bytes().to_vec())).count();
    assert!(wrong < 100, "{wrong} of 1000 were admitted");
    let (bits, num_bits, num_hashes, keys) = f.parts();
    let again = KeyFilter::from_parts(&bits, num_bits, num_hashes, keys);
    assert!((0..100u32).all(|i| again.check(&i.to_be_bytes().to_vec())));
}

#[test]
fn damaged_table_is_refused() {
    let r = SSTable::decode("sst/1".to_string(), 1, vec![0; 3]);
    assert!(matches!(r, Err(TableError::NoFooter)));
    assert_eq!(TableError::NoFooter.message(), "sstable blob too small to contain a footer");
    assert_eq!(
        TableError::WantU32 { pos: 7 }.message(),
        "truncated sstable buffer (want u32 at 7)"
    );
    let (mut bytes, _) = table(&[(ik(b"a", 1, PUT_TAG), b"1".to_vec())]);
    let n = bytes.len();
    bytes[n - 8..].copy_from_slice(&u64::MAX.to_be_bytes());
    assert!(SSTable::decode("sst/1".to_string(), 1, bytes).is_err());
}

// Times.

fn policy(granularity_ms: i64, retention_ms: Option<i64>) -> TimeBucketPolicy {
    TimeBucketPolicy { granularity_ms, retention_ms }
}

#[test]
fn insert_and_query_range() {
    let mut idx = TimeIndex::create(policy(3_600_000, None), "value");
    idx.insert(b"row1", 1_000, 10.0f64.to_bits());
    idx.insert(b"row2", 2_000_000, 20.0f64.to_bits());
    idx.insert(b"row3", 1_500, 15.0f64.to_bits());

    let hits = idx.query_range(0, 500_000);
    assert!(hits.contains(&b"row1".to_vec()));
    assert!(hits.contains(&b"row3".to_vec()));
    assert!(!hits.contains(&b"row2".to_vec()));
}

type TsTuple = (Vec<u8>, i64, f64);

#[test]
fn ts_index_reopen_replays_log() {
    let idx = TimeIndex::create(policy(3_600_000, None), "value");
    let mut file = idx.write_header();
    for (key, ts, value) in [(b"row1", 1_000, 10.0), (b"row2", 5_000_000, 20.0)] {
        let record: TsTuple = (key.to_vec(), ts, value);
        append_record(&mut file, &bincode::serialize(&record).unwrap());
    }
    let (mut reopened, records) = TimeIndex::open(&file).unwrap();
    for r in &records {
        let (key, ts, value): TsTuple = bincode::deserialize(r).unwrap();
        reopened.insert(&key, ts, value.to_bits());
    }
    assert_eq!(reopened.value_column(), "value");
    let hits = reopened.query_range(0, 10_000_000);
    assert_eq!(hits.len(), 2);
}

#[test]
fn rollup_tracks_aggregate() {
    let mut idx = TimeIndex::create(policy(3_600_000, None), "value");
    idx.insert(b"row1", 1_000, 10.0f64.to_bits());
    idx.insert(b"row2", 2_000, 20.0f64.to_bits());
    idx.insert(b"row3", 3_000, 30.0f64.to_bits());

    let rollups = idx.query_rollups(0, 3_600_000);
    assert_eq!(rollups, vec![(0, 3)]);
}

#[test]
fn retention_evicts_raw_rows_but_keeps_rollup() {
    let mut idx = TimeIndex::create(policy(3_600_000, Some(2 * 3_600_000)), "value");
    idx.insert(b"old_row", 0, 5.0f64.to_bits());
    idx.insert(b"new_row", 10 * 3_600_000, 50.0f64.to_bits());

    let hits = idx.query_range(0, 3_600_000);
    assert!(!hits.contains(&b"old_row".to_vec()), "raw row should be evicted past retention");

    let rollups = idx.query_rollups(0, 3_600_000);
    assert_eq!(rollups.len(), 1);
    assert_eq!(rollups[0].1, 1);
}

#[test]
fn sealed_bucket_compression_round_trips() {
    let mut idx = TimeIndex::create(policy(3_600_000, None), "value");
    for i in 0..50 {
        idx.insert(format!("row{i}").as_bytes(), i * 1000, (i as f64).to_bits());
    }
    idx.insert(b"trigger", 10_000_000, 999.0f64.to_bits());

    let hits = idx.query_range(0, 49_000);
    assert_eq!(hits.len(), 50);
}

#[test]
fn late_row_joins_a_sealed_bucket() {
    let mut idx = TimeIndex::create(policy(1000, None), "value");
    idx.insert(b"a", 100, 0);
    idx.insert(b"b", 5000, 0);
    idx.insert(b"c", 50, 0);
    assert_eq!(idx.query_range(0, 999), vec![b"c".to_vec(), b"a".to_vec()]);
}

#[test]
fn damaged_time_file_is_refused() {
    assert!(matches!(TimeIndex::open(&[0; 5]), Err(TimeError::CutOff)));
    let mut header = vec![0u8; 16];
    header.extend([0, 0]);
    let (no_length, _) = TimeIndex::open(&header).unwrap();
    assert!(!no_length.can_accept(5, true));
    let mut header = vec![0, 0, 0, 0, 0, 0, 0, 1, 0, 0, 0, 0, 0, 0, 0, 0];
    header.extend([0, 1, 0xff]);
    assert!(matches!(TimeIndex::open(&header), Err(TimeError::NotText)));
}

#[test]
fn records_are_split_as_they_were_framed() {
    let mut log = b"head".to_vec();
    append_record(&mut log, b"one");
    append_record(&mut log, b"");
    assert_eq!(split_records(&log, 4).unwrap(), vec![b"one".to_vec(), Vec::new()]);
    log.extend([0, 0, 0]);
    assert_eq!(split_records(&log, 4).unwrap().len(), 2);
    log.push(9);
    assert!(split_records(&log, 4).is_err());
}

// The log.

fn open_wal(bytes: Vec<u8>) -> Wal<MemLog> {
    let len = bytes.len() as u64;
    Wal::open(MemLog { bytes }, len)
}

#[test]
fn append_batch_replays_every_record_with_the_shared_commit_seq() {
    let mut wal = open_wal(Vec::new());
    wal.append_batch(
        7,
        &[
            ("t".into(), b"k1".to_vec(), b"v1".to_vec(), 0),
            ("t".into(), b"k2".to_vec(), b"v2".to_vec(), 0),
        ],
    )
    .unwrap();

    let (replayed, max_seq) = wal.replay().unwrap();
    assert_eq!(max_seq, 7);
    assert_eq!(replayed.len(), 2);
    assert!(replayed.iter().all(|r| r.seq == 7));
    assert_eq!(replayed[0].key, b"k1");
    assert_eq!(replayed[1].key, b"k2");
}

#[test]
fn multiple_batches_replay_in_order_with_correct_seqs() {
    let mut wal = open_wal(Vec::new());
    wal.append_batch(1, &[("t".into(), b"a".to_vec(), b"1".to_vec(), 0)]).unwrap();
    wal.append_batch(2, &[("t".into(), b"b".to_vec(), b"2".to_vec(), 0)]).unwrap();

    let (replayed, max_seq) = wal.replay().unwrap();
    assert_eq!(max_seq, 2);
    assert_eq!(replayed.len(), 2);
    assert_eq!((replayed[0].seq, replayed[0].key.clone()), (1, b"a".to_vec()));
    assert_eq!((replayed[1].seq, replayed[1].key.clone()), (2, b"b".to_vec()));
}

#[test]
fn torn_batch_is_discarded_in_full_not_partially_applied() {
    let mut wal = open_wal(Vec::new());
    wal.append_batch(1, &[("t".into(), b"a".to_vec(), b"1".to_vec(), 0)]).unwrap();
    let after_first = wal.bytes_written();
    wal.append_batch(
        2,
        &[
            ("t".into(), b"b".to_vec(), b"2".to_vec(), 0),
            ("t".into(), b"c".to_vec(), b"3".to_vec(), 0),
            ("t".into(), b"d".to_vec(), b"4".to_vec(), 0),
        ],
    )
    .unwrap();
    let after_second = wal.bytes_written();

    let truncate_at = after_first + (after_second - after_first) / 2;
    assert!(truncate_at > after_first && truncate_at < after_second);
    let mut bytes = wal.read_all_bytes().unwrap();
    bytes.truncate(truncate_at as usize);

    let wal = open_wal(bytes);
    let (replayed, max_seq) = wal.replay().unwrap();
    assert_eq!(
        replayed.len(),
        1,
        "only the fully-durable first batch's record must replay"
    );
    assert_eq!(replayed[0].key, b"a");
    assert_eq!(
        max_seq, 2,
        "the torn batch's header was fully present, so its seq must still bump the watermark"
    );
}

#[test]
fn truncated_log_is_empty() {
    let mut wal = open_wal(Vec::new());
    wal.append_batch(1, &[("t".into(), b"a".to_vec(), b"1".to_vec(), 2)]).unwrap();
    wal.truncate().unwrap();
    assert_eq!(wal.bytes_written(), 0);
    assert!(wal.replay().unwrap().0.is_empty());
}

#[test]
fn batch_is_read_back_from_its_bytes() {
    let (bytes, records) =
        encode_batch(3, &[("\u{e9}".into(), vec![0, 255], Vec::new(), 2)]);
    let (back, max) = replay_bytes(&bytes);
    assert_eq!(max, 3);
    assert_eq!(back.len(), 1);
    assert_eq!(back[0].table, records[0].table);
    assert_eq!(back[0].key, vec![0, 255]);
    assert_eq!(back[0].record_type, 2);
}

#[test]
fn batch_takes_its_header_and_its_records() {
    let mut wal = open_wal(Vec::new());
    wal.append_batch(1, &[("t".into(), b"a".to_vec(), b"1".to_vec(), 0)]).unwrap();
    assert_eq!(wal.bytes_written(), 13 + (13 + 1 + 1 + 1));
    let two = [
        ("\u{e9}".to_string(), b"key".to_vec(), Vec::new(), 2),
        ("t".to_string(), Vec::new(), b"value".to_vec(), 0),
    ];
    wal.append_batch(2, &two).unwrap();
    assert_eq!(wal.bytes_written(), 29 + 13 + (13 + 2 + 3) + (13 + 1 + 5));
}

#[test]
fn topic_reopened_on_its_logs_holds_what_it_held() {
    let policy = RetentionPolicy { retention_ms: Some(10), retention_bytes: Some(3) };
    let mut log = FluxLog::create(1, policy).unwrap();
    let mut sent = Vec::new();
    for (i, now) in [1i64, 2, 5, 14, 14, 20].into_iter().enumerate() {
        log.publish_at(None, None, vec![i as u8], now).unwrap();
        let value = vec![i as u8];
        sent.push(FluxRecord { offset: i as u64, key: None, value, timestamp_ms: now });
    }
    log.commit("g", 0, 4).unwrap();
    let commits = vec![OffsetCommit { group: "g".to_string(), partition: 0, offset: 4 }];
    let mut again = FluxLog::open(policy, vec![sent], commits);
    let offsets =
        |l: &FluxLog| l.all_records(0).unwrap().iter().map(|r| r.offset).collect::<Vec<u64>>();
    assert_eq!(offsets(&log), vec![3, 4, 5]);
    assert_eq!(offsets(&again), offsets(&log));
    assert_eq!(again.poll("g", 0, 9).unwrap().len(), 2);
    assert_eq!(log.poll("g", 0, 9).unwrap().len(), 2);
    assert_eq!(again.publish_at(None, None, vec![], 21).unwrap(), (0, 6));
    assert_eq!(log.publish_at(None, None, vec![], 21).unwrap(), (0, 6));
}

#[test]
fn index_out_of_order_is_searched_by_halving() {
    let (_, sst) = table(&[
        (ik(b"b", 1, PUT_TAG), b"2".to_vec()),
        (ik(b"a", 1, PUT_TAG), b"1".to_vec()),
        (ik(b"c", 1, PUT_TAG), b"3".to_vec()),
    ]);
    assert_eq!(sst.read_at(b"a", 9).unwrap(), None);
    assert_eq!(sst.read_at(b"c", 9).unwrap(), Some(Some(b"3".to_vec())));
}
