//! Tables, transactions, indexes and topics of a database.

use std::collections::BTreeMap;
use std::time::{Duration, Instant};

use rand::rngs::StdRng;
use rand::{Rng, SeedableRng};

use tpt_core::btree::{BTree, TreeError};
use tpt_core::canopy_index::{FtsIndex, JsonPathIndex};
use tpt_core::database::catalog::{ColumnDef, IndexError, TableSchema};
use tpt_core::database::engine::{Database, DbError, Found, NodeRole};
use tpt_core::database::index_files::{classify_index_file, index_file_name, IndexKind};
use tpt_core::database::rows::{decode_column, decode_i64, encode_cells, make_key, split_table};
use tpt_core::database::staleness::ReaderStaleness;
use tpt_core::database::txn::TxnHandle;
use tpt_core::geo_index::{GeoEntry, GeoIndex};
use tpt_core::graph_index::{Direction, GraphIndex};
use tpt_core::wal::{MemLog, Wal};

fn nothing() -> Found {
    Found { schemas: vec![], functions: vec![], sequences: vec![] }
}

fn writer() -> Database {
    Database::open(NodeRole::Writer, nothing())
}

fn schema(name: &str, columns: &[&str]) -> TableSchema {
    TableSchema {
        name: name.to_string(),
        columns: columns.iter().map(|c| ColumnDef { name: c.to_string() }).collect(),
    }
}

fn row(cells: &[&str]) -> Vec<u8> {
    encode_cells(&cells.iter().map(|c| Some(c.as_bytes().to_vec())).collect())
}

// Staleness.

#[test]
fn fresh_staleness_is_not_stale() {
    let s = ReaderStaleness::default();
    assert!(!s.is_stale(1_000));
    assert_eq!(s.consecutive_failures(), 0);
    assert_eq!(s.last_error(), None);
}

#[test]
fn failure_marks_stale_until_a_success_clears_it() {
    let mut s = ReaderStaleness::default();
    s.record_failure("object store unreachable".into());
    assert!(s.is_stale(u64::MAX));
    assert_eq!(s.consecutive_failures(), 1);
    assert_eq!(s.last_error().as_deref(), Some("object store unreachable"));

    s.record_failure("still unreachable".into());
    assert_eq!(s.consecutive_failures(), 2);

    s.record_success();
    assert!(!s.is_stale(u64::MAX));
    assert_eq!(s.consecutive_failures(), 0);
    assert_eq!(s.last_error(), None);
    assert!(s.last_success_ms() > 0);
}

#[test]
fn success_older_than_max_age_is_stale() {
    let mut s = ReaderStaleness::default();
    s.record_success();
    let begun = Instant::now();
    while begun.elapsed() < Duration::from_millis(5) {}
    assert!(s.is_stale(1));
    assert!(!s.is_stale(u64::MAX));

    s.record_success_at(1_000);
    assert!(s.is_stale_at(1, 1_005));
    assert!(!s.is_stale_at(u64::MAX, 1_005));
    let m = s.metrics_at(u64::MAX, 4_999);
    assert!(!m.manifest_stale);
    assert_eq!(m.last_refresh_age_seconds, 3);
    assert!(ReaderStaleness::default().publish_metrics(0).last_refresh_age_seconds == 0);
}

// Transactions.

#[test]
fn torn_write_recovers_exactly_the_last_durable_prefix() {
    const ROWS: usize = 15;
    const SCENARIOS: u64 = 40;
    for seed in 0..SCENARIOS {
        let mut db = writer();
        let mut wal = Wal::open(MemLog { bytes: Vec::new() }, 0);
        let mut offsets = vec![wal.bytes_written()];
        for i in 0..ROWS {
            let (k, v) = (format!("k{i:02}").into_bytes(), format!("v{i:02}").into_bytes());
            wal.append_batch(i as u64 + 1, &[("t".into(), k.clone(), v.clone(), 0)]).unwrap();
            db.write("t", &k, &v).unwrap();
            offsets.push(wal.bytes_written());
        }
        let mut whole = writer();
        whole.recover(&wal).unwrap();
        assert_eq!(whole.scan("t"), db.scan("t"), "seed {seed}");

        let mut rng = StdRng::seed_from_u64(seed);
        let torn_index = rng.gen_range(1..=ROWS);
        let (lo, hi) = (offsets[torn_index - 1], offsets[torn_index]);
        let truncate_len = if hi > lo { rng.gen_range(lo..hi) } else { lo };
        let surviving_rows = torn_index - 1;
        let mut bytes = wal.read_all_bytes().unwrap();
        bytes.truncate(truncate_len as usize);

        let mut recovered = writer();
        recovered.recover(&Wal::open(MemLog { bytes }, truncate_len)).unwrap();
        let rows = recovered.scan("t");
        assert_eq!(rows.len(), surviving_rows, "seed {seed}");
        for (i, row) in rows.iter().enumerate() {
            assert_eq!(row.key, format!("k{i:02}").into_bytes(), "seed {seed}");
            assert_eq!(row.value, format!("v{i:02}").into_bytes(), "seed {seed}");
        }
        recovered.write("t", b"after-recovery", b"still-works").unwrap();
        assert!(recovered.read("t", b"after-recovery").is_some(), "seed {seed}");
    }
}

#[test]
fn recovery_follows_deletes_and_refuses_a_log_without_numbers_left() {
    let mut wal = Wal::open(MemLog { bytes: Vec::new() }, 0);
    wal.append_batch(3, &[("t".into(), b"a".to_vec(), b"1".to_vec(), 0)]).unwrap();
    wal.append_batch(4, &[("t".into(), b"a".to_vec(), Vec::new(), 2)]).unwrap();
    wal.append_batch(5, &[("t".into(), b"b".to_vec(), b"2".to_vec(), 1)]).unwrap();
    let mut db = writer();
    db.recover(&wal).unwrap();
    assert_eq!(db.read("t", b"a"), None);
    assert_eq!(db.read("t", b"b"), Some(b"2".to_vec()));
    wal.append_batch(u64::MAX, &[]).unwrap();
    let e = db.recover(&wal).unwrap_err();
    assert_eq!(e, "the log has used up the numbers of commits");
    assert_eq!(db.read("t", b"b"), Some(b"2".to_vec()));
}

#[test]
fn crash_mid_transaction_leaves_no_torn_state_visible() {
    let mut wal = Wal::open(MemLog { bytes: Vec::new() }, 0);
    wal.append_batch(1, &[("t".into(), b"pre".to_vec(), b"existing".to_vec(), 0)]).unwrap();
    let before_txn_len = wal.bytes_written();
    let batch: Vec<(String, Vec<u8>, Vec<u8>, u8)> = (0..5)
        .map(|i| {
            ("t".to_string(), format!("k{i:02}").into_bytes(), format!("v{i:02}").into_bytes(), 0)
        })
        .collect();
    wal.append_batch(2, &batch).unwrap();
    let full_len = wal.bytes_written();
    assert!(full_len > before_txn_len, "commit must have appended the transaction's batch");

    let truncate_at = before_txn_len + (full_len - before_txn_len) / 2;
    assert!(truncate_at > before_txn_len && truncate_at < full_len);
    let mut bytes = wal.read_all_bytes().unwrap();
    bytes.truncate(truncate_at as usize);

    let mut recovered = writer();
    recovered.recover(&Wal::open(MemLog { bytes }, truncate_at)).unwrap();
    let rows = recovered.scan("t");
    assert_eq!(rows.len(), 1, "only the pre-transaction row must survive");
    assert_eq!(rows[0].key, b"pre");
}

#[test]
fn transactions_match_a_model_of_committed_changes() {
    for seed in 0..30u64 {
        let mut rng = StdRng::seed_from_u64(seed);
        let mut db = writer();
        let mut committed: BTreeMap<Vec<u8>, Vec<u8>> = BTreeMap::new();
        let mut staged: BTreeMap<Vec<u8>, Option<Vec<u8>>> = BTreeMap::new();
        let mut txn: Option<TxnHandle> = None;
        for _ in 0..60 {
            let key = vec![b'k', rng.gen_range(0..4u8)];
            match rng.gen_range(0..5) {
                0 => {
                    let t = txn.get_or_insert_with(|| db.begin_txn());
                    let value = vec![rng.gen_range(0..16u8)];
                    db.txn_write(Some(t), "t", &key, &value).unwrap();
                    staged.insert(key, Some(value));
                }
                1 => {
                    let t = txn.get_or_insert_with(|| db.begin_txn());
                    db.txn_delete(Some(t), "t", &key).unwrap();
                    staged.insert(key, None);
                }
                2 => {
                    if let Some(mut t) = txn.take() {
                        db.commit_txn(&mut t).unwrap();
                        assert!(t.is_finished());
                        for (k, v) in std::mem::take(&mut staged) {
                            match v {
                                Some(v) => committed.insert(k, v),
                                None => committed.remove(&k),
                            };
                        }
                    }
                }
                3 => {
                    if let Some(mut t) = txn.take() {
                        db.rollback_txn(&mut t);
                        staged.clear();
                    }
                }
                _ => {
                    let seen: BTreeMap<Vec<u8>, Vec<u8>> =
                        db.txn_scan(None, "t").into_iter().map(|r| (r.key, r.value)).collect();
                    assert_eq!(seen, committed, "seed {seed}");
                    for k in 0..4u8 {
                        let key = vec![b'k', k];
                        assert_eq!(
                            db.txn_read(None, "t", &key).as_ref(),
                            committed.get(&key),
                            "seed {seed}"
                        );
                        if let Some(t) = &txn {
                            let own = match staged.get(&key) {
                                Some(v) => v.clone(),
                                None => committed.get(&key).cloned(),
                            };
                            assert_eq!(db.txn_read(Some(t), "t", &key), own, "seed {seed}");
                        }
                    }
                }
            }
        }
    }
}

#[test]
fn open_transaction_does_not_see_later_commits() {
    let mut db = writer();
    db.write("t", b"a", b"1").unwrap();
    let mut t = db.begin_txn();
    db.write("t", b"a", b"2").unwrap();
    db.write("t", b"b", b"3").unwrap();
    assert_eq!(db.txn_read(Some(&t), "t", b"a"), Some(b"1".to_vec()));
    assert_eq!(db.txn_scan(Some(&t), "t").len(), 1);
    db.txn_write(Some(&mut t), "t", b"c", b"4").unwrap();
    assert_eq!(t.pending_count(), 1);
    assert_eq!(db.txn_scan(Some(&t), "t").len(), 2);
    assert_eq!(db.read("t", b"c"), None);
    db.commit_txn(&mut t).unwrap();
    assert_eq!(db.read("t", b"c"), Some(b"4".to_vec()));
    assert_eq!(db.scan("t").len(), 3);
    db.txn_write(None, "t", b"d", b"5").unwrap();
    assert_eq!(db.read("t", b"d"), Some(b"5".to_vec()));
    db.txn_delete(None, "t", b"d").unwrap();
    assert_eq!(db.read("t", b"d"), None);
}

#[test]
fn tables_are_listed() {
    let mut db = writer();
    db.create_table(schema("t", &["a"])).unwrap();
    db.ensure_table("u", vec![ColumnDef { name: "b".to_string() }]).unwrap();
    db.ensure_table("u", vec![]).unwrap();
    let mut names = db.list_tables();
    names.sort();
    assert_eq!(names, vec!["t".to_string(), "u".to_string()]);
    assert_eq!(db.get_table("u").unwrap().columns.len(), 1);
    assert!(db.get_table("v").is_none());
}

#[test]
fn readers_cannot_write() {
    let mut db = Database::open(NodeRole::Reader, nothing());
    assert!(matches!(db.write("t", b"a", b"1"), Err(DbError::ReadOnly)));
    assert!(matches!(db.delete("t", b"a"), Err(DbError::ReadOnly)));
    assert!(matches!(db.create_table(schema("t", &["a"])), Err(DbError::ReadOnly)));
    assert!(db.check_writable().is_err());
}

#[test]
fn deleted_row_is_gone() {
    let mut db = writer();
    db.write("t", b"a", b"1").unwrap();
    db.delete("t", b"a").unwrap();
    assert_eq!(db.read("t", b"a"), None);
    assert!(db.scan("t").is_empty());
}

// Rows and files.

#[test]
fn cells_are_read_back() {
    let value = encode_cells(&vec![Some(b"x".to_vec()), None, Some(Vec::new())]);
    assert_eq!(decode_column(&value, 0), Some(b"x".to_vec()));
    assert_eq!(decode_column(&value, 1), None);
    assert_eq!(decode_column(&value, 2), Some(Vec::new()));
    assert_eq!(decode_column(&value, 3), None);
}

#[test]
fn numbers_in_cells() {
    assert_eq!(decode_i64(b"-9223372036854775808"), Some(i64::MIN));
    assert_eq!(decode_i64(b"+12"), Some(12));
    assert_eq!(decode_i64(b"9223372036854775808"), None);
    assert_eq!(decode_i64(b"1x"), None);
    assert_eq!(decode_i64(b"-"), None);
}

#[test]
fn keys_hold_their_table() {
    let key = make_key("users", b"42");
    assert_eq!(split_table(&key).as_deref(), Some("users"));
}

#[test]
fn index_files_are_told_apart_by_name() {
    let name = index_file_name(IndexKind::Graph, "people", "id");
    let (kind, table, column) = classify_index_file(&name).unwrap();
    assert_eq!(kind, IndexKind::Graph);
    assert_eq!((table.as_str(), column.as_str()), ("people", "id"));
    assert!(classify_index_file("readme.txt").is_none());
}

// Indexes.

#[test]
fn writes_reach_the_indexes() {
    let mut db = writer();
    db.create_table(schema("docs", &["id", "body"])).unwrap();
    db.write("docs", b"1", &row(&["1", r#"{"city":"Wellington","n":1}"#])).unwrap();
    db.create_index("docs", "id", BTree::open(&[])).unwrap();
    db.create_json_path_index("docs", "body", JsonPathIndex::create("city")).unwrap();
    db.create_fts_index("docs", "body", FtsIndex::create()).unwrap();
    db.write("docs", b"2", &row(&["2", r#"{"city":"Auckland"}"#])).unwrap();

    assert!(db.indexed_column("docs", "id"));
    assert_eq!(db.json_path_lookup("docs", "body", "Wellington"), Some(vec![b"1".to_vec()]));
    assert_eq!(db.json_path_lookup("docs", "body", "Auckland"), Some(vec![b"2".to_vec()]));
    assert_eq!(db.fts_search("docs", "body", "auckland"), Some(vec![b"2".to_vec()]));
    assert_eq!(db.fts_search("docs", "id", "x"), None);
    let one = |_: &Vec<u8>| 1;
    let scored = db.fts_search_bm25("docs", "body", "auckland", one, 5);
    assert_eq!(scored, Some(vec![(b"2".to_vec(), 1)]));
    assert_eq!(db.fts_search_bm25("docs", "id", "x", one, 5), None);
    let found = db.index_lookup("docs", "id", b"2").unwrap().unwrap();
    assert_eq!(found, Some(b"2".to_vec()));
    assert_eq!(db.list_json_indexes(), vec![("docs".to_string(), "body".to_string())]);
}

#[test]
fn graph_index_follows_rows() {
    let mut db = writer();
    db.create_table(schema("follows", &["from", "to", "rel"])).unwrap();
    db.write("follows", b"r1", &row(&["a", "b", "KNOWS"])).unwrap();
    let graph = GraphIndex::create("to", Some("rel".to_string()));
    db.create_graph_index("follows", "from", "to", Some("rel".to_string()), graph).unwrap();
    db.write("follows", b"r2", &row(&["a", "c", "LIKES"])).unwrap();
    let out = db.graph_neighbors("follows", "from", b"a", Direction::Out).unwrap();
    assert_eq!(
        out,
        vec![
            (b"b".to_vec(), Some("KNOWS".to_string())),
            (b"c".to_vec(), Some("LIKES".to_string())),
        ]
    );
    assert_eq!(db.graph_all_vertices("follows", "from").unwrap().len(), 3);
    assert!(db.graph_neighbors("follows", "to", b"a", Direction::Out).is_none());

    let a = db.graph_vertex("follows", "from", b"a").unwrap();
    let c = db.graph_vertex("follows", "from", b"c").unwrap();
    assert_eq!(
        db.graph_bfs("follows", "from", b"a", &vec![(a, 0), (c, 1), (99, 1)]),
        Some(vec![(b"a".to_vec(), 0), (b"c".to_vec(), 1)])
    );
    assert_eq!(db.graph_bfs("follows", "from", b"z", &vec![]), None);
    assert_eq!(
        db.graph_shortest_path("follows", "from", b"a", b"c", &Some(vec![a, c])),
        Some(Some(vec![b"a".to_vec(), b"c".to_vec()]))
    );
    assert_eq!(db.graph_shortest_path("follows", "from", b"c", b"a", &None), Some(None));
    assert_eq!(db.graph_shortest_path("follows", "from", b"a", b"z", &None), None);
    let components = db.graph_connected_components("follows", "from", &vec![7, 7, 7]).unwrap();
    assert_eq!(components[2], (b"c".to_vec(), 7));
    let triangles = db.graph_triangle_count("follows", "from", &vec![0, 1, 2]).unwrap();
    assert_eq!(triangles[1], (b"b".to_vec(), 1));
    assert_eq!(db.graph_triangle_count("nope", "from", &vec![]), None);
    let scores = vec![0.25f64.to_bits(), 0.5f64.to_bits(), 0.25f64.to_bits()];
    let ranked = db.graph_pagerank("follows", "from", &scores).unwrap();
    assert_eq!(f64::from_bits(ranked[1].1), 0.5);
    assert_eq!(db.graph_pagerank("follows", "to", &scores), None);
}

#[test]
fn index_on_a_missing_table_or_column_is_refused() {
    let mut db = writer();
    let e = db.create_index("nope", "id", BTree::open(&[])).unwrap_err();
    assert_eq!(e.message(), "table \"nope\" does not exist");
    db.create_table(schema("t", &["id"])).unwrap();
    let e = db.create_index("t", "nope", BTree::open(&[])).unwrap_err();
    assert_eq!(e.message(), "column \"nope\" does not exist");
}

#[test]
fn spatial_index_hands_out_geometries() {
    let mut db = writer();
    db.create_table(schema("places", &["id", "geom"])).unwrap();
    db.write("places", b"1", &row(&["1", "POINT(1 2)"])).unwrap();
    let found = db.create_spatial_index("places", "geom", GeoIndex::create(12)).unwrap();
    assert_eq!(found, vec![(b"1".to_vec(), "POINT(1 2)".to_string())]);
    assert!(db.indexed_column_spatial("places", "geom"));
    let at = |key: &[u8], lon: u64| GeoEntry { row_key: key.to_vec(), lon, lat: 0, time: None };
    assert!(db.index_place("places", "geom", 5, at(b"1", 10)));
    assert!(db.index_place("places", "geom", 5, at(b"2", 90)));
    assert!(db.index_place("places", "geom", 6, at(b"9", 10)));
    assert!(!db.index_place("places", "id", 5, at(b"1", 10)));
    db.write("places", b"2", &row(&["2", "POINT(9 9)"])).unwrap();
    let away = |e: &GeoEntry| e.lon;
    let near = db.spatial_query("places", "geom", &vec![5, 6], away, 20, None).unwrap();
    assert_eq!(near.len(), 1);
    assert_eq!(near[0].key, b"1".to_vec());
    let all = db.spatial_query("places", "geom", &vec![5, 6], away, 90, None).unwrap();
    assert_eq!(all.len(), 2);
    assert!(db.spatial_query("places", "geom", &vec![5], away, 90, Some((0, 9))).unwrap().is_empty());
    assert!(db.spatial_query("places", "id", &vec![], away, 0, None).is_none());
}

// What other nodes wrote.

#[test]
fn refresh_adds_what_is_new_and_notes_failures() {
    let mut db = Database::open(NodeRole::Reader, nothing());
    let mut found = nothing();
    found.schemas.push(schema("t", &["a"]));
    db.refresh(Ok(found)).unwrap();
    assert!(db.schemas.contains_key("t"));
    assert!(db.refresh(Err("unreachable".to_string())).is_err());
    assert_eq!(db.reader_staleness().consecutive_failures(), 1);
    assert_eq!(db.reader_staleness().last_error().as_deref(), Some("unreachable"));
}

// Topics.

#[test]
fn topics_take_and_give_records() {
    let mut db = writer();
    db.create_topic("orders", 2, None, None).unwrap();
    assert!(matches!(db.create_topic("orders", 1, None, None), Err(DbError::TopicExists(_))));
    let (p, o) = db.flux_publish_at("orders", Some(1), None, b"x".to_vec(), 5).unwrap();
    assert_eq!((p, o), (1, 0));
    let got = db.flux_poll("orders", 1, "g", 10).unwrap();
    assert_eq!(got.len(), 1);
    assert_eq!(got[0].timestamp_ms, 5);
    db.flux_commit("orders", 1, "g", 1).unwrap();
    assert!(db.flux_poll("orders", 1, "g", 10).unwrap().is_empty());
    assert!(matches!(db.flux_poll("nope", 0, "g", 1), Err(DbError::NoTopic(_))));
    assert_eq!(db.flux_num_partitions("orders"), Some(2));
    assert_eq!(db.list_topics(), vec![("orders".to_string(), 2)]);
}

#[test]
fn records_are_published_with_the_time_of_the_clock() {
    let mut db = writer();
    db.create_topic("orders", 2, None, None).unwrap();
    assert_eq!(db.flux_publish("orders", Some(1), None, b"x".to_vec()).unwrap(), (1, 0));
    assert_eq!(db.flux_publish("orders", Some(1), None, b"y".to_vec()).unwrap(), (1, 1));
    let got = db.flux_poll("orders", 1, "g", 10).unwrap();
    assert_eq!(got[1].value, b"y".to_vec());
    assert!(got[0].timestamp_ms > 1_500_000_000_000);
    assert!(matches!(
        db.flux_publish("orders", Some(2), None, b"z".to_vec()),
        Err(DbError::Flux(_))
    ));
    assert_eq!(db.flux_poll("orders", 1, "g", 10).unwrap().len(), 2);
    assert!(matches!(db.flux_publish("nope", None, None, Vec::new()), Err(DbError::NoTopic(_))));
    let mut reader = Database::open(NodeRole::Reader, nothing());
    assert!(matches!(
        reader.flux_publish("orders", None, None, Vec::new()),
        Err(DbError::ReadOnly)
    ));
}

#[test]
fn changes_of_a_table_go_to_its_own_topic() {
    let mut db = writer();
    assert_eq!(db.flux_publish_cdc("t", b"first".to_vec(), 3).unwrap(), (0, 0));
    assert_eq!(db.flux_publish_cdc("t", b"second".to_vec(), 4).unwrap(), (0, 1));
    assert_eq!(db.list_topics(), vec![("__cdc_t".to_string(), 1)]);
    let got = db.flux_all("__cdc_t", 0).unwrap();
    assert_eq!(got.len(), 2);
    assert_eq!((got[1].value.clone(), got[1].timestamp_ms), (b"second".to_vec(), 4));
}

#[test]
fn damaged_tree_gives_its_error_when_a_row_needs_it() {
    let mut file = 100u64.to_be_bytes().to_vec();
    file.extend_from_slice(&[0, 0]);
    let mut db = writer();
    db.create_table(schema("t", &["id"])).unwrap();
    db.create_table(schema("empty", &["id"])).unwrap();
    db.create_index("empty", "id", BTree::open(&file)).unwrap();
    db.write("t", b"k", &row(&["1"])).unwrap();
    let e = db.create_index("t", "id", BTree::open(&file)).unwrap_err();
    assert_eq!(e, DbError::Index(IndexError::Tree(TreeError::Truncated)));
    assert!(!db.indexed_column("t", "id"));

    let mut tree = BTree::open(&file);
    let len = tree.image_len();
    assert_eq!(tree.search(b"1"), Err(TreeError::Truncated));
    assert_eq!(tree.insert(b"1", b"k"), Err(TreeError::Truncated));
    assert_eq!(tree.image_len(), len);
    assert_eq!(tree.header(), 100u64.to_be_bytes().to_vec());
}

#[test]
fn graph_is_filled_by_the_columns_given_and_kept_up_by_its_own() {
    let mut db = writer();
    db.create_table(schema("e", &["from", "to", "other", "rel"])).unwrap();
    db.write("e", b"r1", &row(&["a", "b", "x", "R"])).unwrap();
    let held = GraphIndex::create("other", None);
    db.create_graph_index("e", "from", "to", Some("rel".to_string()), held).unwrap();
    db.write("e", b"r2", &row(&["a", "c", "y", "R"])).unwrap();
    assert_eq!(
        db.graph_neighbors("e", "from", b"a", Direction::Out).unwrap(),
        vec![(b"b".to_vec(), Some("R".to_string())), (b"y".to_vec(), None)]
    );
    let fresh = || GraphIndex::create("to", None);
    let e = db.create_graph_index("e", "from", "nope", None, fresh()).unwrap_err();
    assert_eq!(e.message(), "column \"nope\" does not exist");
    let rel = Some("kind".to_string());
    let e = db.create_graph_index("e", "from", "to", rel, fresh()).unwrap_err();
    assert_eq!(e.message(), "column \"kind\" does not exist");
}
