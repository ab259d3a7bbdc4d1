//! Vectors, agents and accounts.

use std::collections::HashSet;

use rand::rngs::StdRng;
use rand::{Rng, SeedableRng};

use tpt_core::database::engine::{Database, DbError, Found, NodeRole};
use tpt_core::synapse::actor::{
    read_agent, Agent, AgentError, AgentMessage, AgentRegistry, AgentStatus, Reaction,
    AGENTS_TABLE, CHECKPOINT,
};
use tpt_core::vector::gpu::{
    gpu_available, gpu_disabled, max_pairs, nearest, plan, Adapter, GpuError, Metric,
    DEFAULT_MAX_PAIRS,
};
use tpt_core::vector::kmeans::{nearest_centroid, Action, KMeans};
use tpt_core::vector::pq::{PqError, ProductQuantizer, TRAIN_ROUNDS};
use tpt_core::vector::sharded::{shard_file, Hit, ShardedVectorIndex};
use tpt_core::vector::vamana::{build, greedy_search, medoid, robust_prune, VamanaGraph};
use tpt_core::wedge::{
    account_in, list_accounts, needs_seed, RowFault, Step, Transfer, TransferError,
};

// Distances that are not negative order as their bit patterns do.

fn l2(a: &[f32], b: &[f32]) -> f32 {
    a.iter().zip(b).map(|(x, y)| (x - y) * (x - y)).sum()
}

fn key(d: f32) -> u32 {
    (d + 0.0).to_bits()
}

fn table(points: &[Vec<f32>], scale: f32) -> Vec<Vec<u32>> {
    points.iter().map(|a| points.iter().map(|b| key(scale * l2(a, b))).collect()).collect()
}

fn graph_over(points: &[Vec<f32>], r: usize, l: usize, alpha: f32) -> VamanaGraph {
    let near = table(points, 1.0);
    let reach = table(points, alpha);
    let dim = points[0].len();
    let centre: Vec<f32> = (0..dim)
        .map(|d| points.iter().map(|p| p[d]).sum::<f32>() / points.len() as f32)
        .collect();
    let from_centre: Vec<u32> = points.iter().map(|p| key(l2(p, &centre))).collect();
    let start = medoid(&from_centre);
    let mut order: Vec<usize> = (0..points.len()).collect();
    let mut rng = StdRng::seed_from_u64(11);
    for i in (1..order.len()).rev() {
        order.swap(i, rng.gen_range(0..=i));
    }
    build(&near, &reach, start, &order, r, l)
}

#[test]
fn graph_has_bounded_out_degree() {
    let points: Vec<Vec<f32>> =
        (0..200).map(|i| vec![(i % 20) as f32, (i % 7) as f32, (i % 3) as f32]).collect();
    let r = 16;
    let graph = graph_over(&points, r, 32, 1.2);
    for (i, edges) in graph.edges.iter().enumerate() {
        assert!(edges.len() <= r, "node exceeded max degree {r}: {edges:?}");
        assert!(!edges.contains(&i));
    }
}

#[test]
fn greedy_search_finds_high_recall_neighbors() {
    let mut points = Vec::new();
    for cluster in 0..8 {
        let base = (cluster as f32) * 100.0;
        for i in 0..30 {
            points.push(vec![base + (i % 5) as f32, base + (i % 3) as f32]);
        }
    }
    let graph = graph_over(&points, 12, 48, 1.2);

    let mut hits = 0;
    let mut total = 0;
    for q in points.iter() {
        let keys: Vec<u32> = points.iter().map(|p| key(l2(p, q))).collect();
        let expected: HashSet<usize> = nearest(&keys, 5).into_iter().collect();
        let found = greedy_search(&graph.edges, &keys, graph.medoid, 48);
        hits += found.iter().filter(|id| expected.contains(id)).count();
        total += expected.len();
    }
    let recall = hits as f64 / total as f64;
    assert!(recall > 0.9, "recall too low: {recall}");
}

#[test]
fn single_point_graph_is_valid() {
    let points = vec![vec![1.0, 2.0, 3.0]];
    let graph = graph_over(&points, 8, 16, 1.2);
    assert_eq!(graph.medoid, 0);
    assert!(graph.edges[0].is_empty());
}

#[test]
fn chosen_point_stands_in_for_those_near_it() {
    // Points on a line at 0, 1, 2 and 10: from 0, the point at 1 stands in for
    // the others.
    let points: Vec<Vec<f32>> = [0.0, 1.0, 2.0, 10.0].iter().map(|x| vec![*x]).collect();
    let near = table(&points, 1.0);
    let links = robust_prune(0, &vec![0, 3, 2, 1], &near, &near, 3);
    assert_eq!(links, vec![1]);
    // With nothing standing in for another the nearest come first.
    let far: Vec<Vec<u32>> = vec![vec![u32::MAX; 4]; 4];
    assert_eq!(robust_prune(0, &vec![0, 3, 2, 1], &near, &far, 2), vec![1, 2]);
}

// Groups and codes.

fn keys_to(p: &[f32], centroids: &[Vec<f32>]) -> Vec<u32> {
    centroids.iter().map(|c| key(l2(p, c))).collect()
}

fn kmeans(points: &[Vec<f32>], k: usize, max_iters: usize) -> Vec<Vec<f32>> {
    let (mut state, seeds) = KMeans::begin(points.len(), k, max_iters);
    let mut centroids: Vec<Vec<f32>> = seeds.iter().map(|i| points[*i].clone()).collect();
    loop {
        match state.action() {
            Action::Measure => {
                state.assign(&points.iter().map(|p| keys_to(p, &centroids)).collect());
                continue;
            }
            Action::Mean(c, members) => {
                for d in 0..points[0].len() {
                    let sum: f32 = members.iter().map(|i| points[*i][d]).sum();
                    centroids[c][d] = sum / members.len() as f32;
                }
            }
            Action::MeasureOwn(c) => {
                let own: Vec<u32> = points
                    .iter()
                    .enumerate()
                    .map(|(i, p)| key(l2(p, &centroids[state.assignments[i]])))
                    .collect();
                centroids[c] = points[state.furthest(&own)].clone();
            }
            Action::Done => return centroids,
        }
        state.moved();
    }
}

#[test]
fn separates_two_obvious_clusters() {
    let points = vec![
        vec![0.0, 0.0],
        vec![0.1, 0.1],
        vec![-0.1, 0.0],
        vec![10.0, 10.0],
        vec![10.1, 9.9],
        vec![9.9, 10.1],
    ];
    let centroids = kmeans(&points, 2, 20);
    assert_eq!(centroids.len(), 2);
    let c0 = nearest_centroid(&keys_to(&[0.0, 0.0], &centroids));
    let c1 = nearest_centroid(&keys_to(&[10.0, 10.0], &centroids));
    assert_ne!(c0, c1);
    assert_eq!(nearest_centroid(&keys_to(&[0.1, 0.1], &centroids)), c0);
    assert_eq!(nearest_centroid(&keys_to(&[9.9, 10.1], &centroids)), c1);
}

#[test]
fn k_larger_than_points_clamps() {
    let points = vec![vec![1.0, 2.0], vec![3.0, 4.0]];
    let centroids = kmeans(&points, 10, 5);
    assert_eq!(centroids.len(), 2);
}

#[test]
fn grouping_takes_its_steps_in_order() {
    let (mut state, seeds) = KMeans::begin(7, 3, 2);
    assert_eq!(seeds, vec![0, 2, 4]);
    assert_eq!(state.action(), Action::Measure);
    let near = |c: usize| (0..3).map(|i| if i == c { 1 } else { 5 }).collect::<Vec<u32>>();
    let keys: Vec<Vec<u32>> = [0, 0, 2, 2, 0, 2, 0].iter().map(|c| near(*c)).collect();
    state.assign(&keys);
    assert!(state.changed);
    assert_eq!(state.action(), Action::Mean(0, vec![0, 1, 4, 6]));
    state.moved();
    assert_eq!(state.action(), Action::MeasureOwn(1));
    assert_eq!(state.furthest(&vec![1, 9, 2, 9, 3, 4, 5]), 3);
    state.moved();
    assert_eq!(state.action(), Action::Mean(2, vec![2, 3, 5]));
    state.moved();
    assert_eq!(state.action(), Action::Measure);
    state.assign(&keys);
    assert!(!state.changed);
    for _ in 0..3 {
        state.moved();
    }
    assert_eq!(state.action(), Action::Done);
    assert_eq!(KMeans::begin(3, 1, 0).0.action(), Action::Done);
    assert_eq!(nearest_centroid(&vec![]), 0);
    assert_eq!(nearest_centroid(&vec![4, 2, 2]), 1);
}

fn training_set() -> Vec<Vec<f32>> {
    let mut points = Vec::new();
    for i in 0..20 {
        let jitter = (i as f32) * 0.001;
        points.push(vec![0.0 + jitter, 0.0, 0.0 + jitter, 0.0]);
        points.push(vec![10.0 + jitter, 10.0, 10.0 + jitter, 10.0]);
    }
    points
}

struct Quantizer {
    layout: ProductQuantizer,
    codebooks: Vec<Vec<Vec<f32>>>,
}

impl Quantizer {
    fn train(vectors: &[Vec<f32>], m: usize) -> Result<Quantizer, PqError> {
        let dim = vectors.first().map(|v| v.len()).unwrap_or(0);
        let layout = ProductQuantizer::train(vectors.len(), dim, m)?;
        let codebooks = (0..m)
            .map(|i| {
                let (a, b) = layout.part(i);
                let subs: Vec<Vec<f32>> = vectors.iter().map(|v| v[a..b].to_vec()).collect();
                kmeans(&subs, layout.entries, TRAIN_ROUNDS)
            })
            .collect();
        Ok(Quantizer { layout, codebooks })
    }

    fn table(&self, v: &[f32]) -> Vec<Vec<f32>> {
        (0..self.layout.m)
            .map(|i| {
                let (a, b) = self.layout.part(i);
                self.codebooks[i].iter().map(|c| l2(&v[a..b], c)).collect()
            })
            .collect()
    }

    fn encode(&self, v: &[f32]) -> Vec<u8> {
        let keys =
            self.table(v).iter().map(|row| row.iter().map(|d| key(*d)).collect()).collect();
        self.layout.encode(&keys)
    }

    fn decode(&self, codes: &[u8]) -> Vec<f32> {
        codes.iter().enumerate().flat_map(|(i, c)| self.codebooks[i][*c as usize].clone()).collect()
    }
}

fn asymmetric_distance(table: &[Vec<f32>], codes: &[u8]) -> f32 {
    codes.iter().enumerate().map(|(i, c)| table[i][*c as usize]).sum()
}

#[test]
fn encode_decode_round_trip_is_close() {
    let pq = Quantizer::train(&training_set(), 2).unwrap();
    let v = vec![0.0f32, 0.0, 0.0, 0.0];
    let codes = pq.encode(&v);
    assert_eq!(codes.len(), 2);
    let decoded = pq.decode(&codes);
    let err = l2(&v, &decoded).sqrt();
    assert!(err < 1.0, "reconstruction error too high: {err}");
}

#[test]
fn asymmetric_distance_matches_full_distance_ordering() {
    let pq = Quantizer::train(&training_set(), 2).unwrap();
    let near = vec![0.05f32, 0.02, 0.01, 0.03];
    let far = vec![10.0f32, 10.0, 10.0, 10.0];
    let near_codes = pq.encode(&near);
    let far_codes = pq.encode(&far);

    let query = vec![0.0f32, 0.0, 0.0, 0.0];
    let table = pq.table(&query);
    let d_near = asymmetric_distance(&table, &near_codes);
    let d_far = asymmetric_distance(&table, &far_codes);
    assert!(d_near < d_far);
}

#[test]
fn rejects_dim_not_divisible_by_m() {
    let points = vec![vec![1.0, 2.0, 3.0]];
    assert!(Quantizer::train(&points, 2).is_err());
    let e = ProductQuantizer::train(1, 3, 2).unwrap_err();
    assert_eq!(e.message(), "vector dimension 3 must be a non-zero multiple of pq_m 2");
    let e = ProductQuantizer::train(0, 3, 1).unwrap_err();
    assert_eq!(e.message(), "product quantizer training set must be non-empty");
    let q = ProductQuantizer::train(1000, 12, 3).unwrap();
    assert_eq!((q.sub_dim, q.entries, q.part(2)), (4, 256, (8, 12)));
}

// The device.

#[test]
fn knn_returns_nearest_k() {
    let query = [0.0f32, 0.0];
    let base = [3.0f32, 4.0, 1.0, 0.0, 0.0, 1.0, 2.0, 2.0];
    let distances: Vec<u32> = base.chunks(2).map(|b| key(l2(&query, b).sqrt())).collect();
    let got = nearest(&distances, 2);
    assert_eq!(got, vec![1, 2]);
    for i in got {
        assert!((f32::from_bits(distances[i]) - 1.0).abs() < 1e-4);
    }
}

#[test]
fn disabled_env_var_forces_error() {
    assert!(gpu_disabled(Some("1")));
    let r = plan(gpu_disabled(Some("1")), true, 2, 2, 2, Metric::L2, DEFAULT_MAX_PAIRS);
    assert_eq!(r, Err(GpuError::Disabled));
    for on in [None, Some(""), Some("0"), Some("False")] {
        assert!(!gpu_disabled(on));
    }
    assert!(gpu_available(false, Adapter::Device, false));
    assert!(!gpu_available(false, Adapter::Software, false));
    assert!(!gpu_available(true, Adapter::Device, false));
    assert!(!gpu_available(false, Adapter::Device, true));
}

#[test]
fn batch_is_laid_out_in_groups_of_eight() {
    let d = plan(false, true, 27, 300, 3, Metric::Cosine, DEFAULT_MAX_PAIRS).unwrap().unwrap();
    assert_eq!((d.num_queries, d.num_base, d.dim, d.metric), (9, 100, 3, 1));
    assert_eq!((d.groups_x, d.groups_y, d.pairs), (2, 13, 900));
    assert_eq!(plan(false, true, 0, 3, 3, Metric::L2, 1), Ok(None));
}

#[test]
fn each_reason_against_a_batch_is_told() {
    let p = |q, b, d, cap| plan(false, true, q, b, d, Metric::L2, cap).unwrap_err().message();
    assert_eq!(p(1, 1, 0, 9), "vectors must be non-empty");
    assert_eq!(
        p(4, 3, 3, 9),
        "vector count is not a multiple of dim 3 (queries len 4, base len 3)"
    );
    assert_eq!(p(4, 4, 1, 15), "GPU vector batch too large (16 pairs > 15 cap)");
    assert_eq!(
        p(600_000, 1, 1, u64::MAX),
        "GPU vector batch dispatch dimension overflow (75000 x 1 workgroups); fall back to CPU"
    );
    assert_eq!(p(1 << 40, 1 << 40, 1, 9), "GPU vector similarity pair count overflowed");
    assert_eq!(
        plan(false, false, 1, 1, 1, Metric::L2, 9).unwrap_err().message(),
        "GPU unavailable for vector similarity"
    );
    assert_eq!(
        GpuError::Disabled.message(),
        "GPU vector similarity disabled via TPT_DISABLE_GPU_VECTOR"
    );
}

#[test]
fn bound_of_a_batch_is_read() {
    assert_eq!(max_pairs(None), 256_000_000);
    assert_eq!(max_pairs(Some("+17")), 17);
    assert_eq!(max_pairs(Some("18446744073709551615")), u64::MAX);
    for bad in ["18446744073709551616", "-1", "", "+", "1 "] {
        assert_eq!(max_pairs(Some(bad)), DEFAULT_MAX_PAIRS);
    }
}

// An index in parts.

#[test]
fn scatter_gather_knn_matches_single_index_baseline() {
    let rows: Vec<(Vec<u8>, Vec<f32>)> = (0..200)
        .map(|i| {
            let v = vec![(i % 17) as f32, (i % 5) as f32, (i % 3) as f32];
            (format!("row-{i}").into_bytes(), v)
        })
        .collect();
    let query = [3.0, 2.0, 1.0];
    let mut parts: Vec<Vec<Hit>> = (0..4).map(|_| Vec::new()).collect();
    for (i, (row, v)) in rows.iter().enumerate() {
        parts[i % 4].push(Hit { row_key: row.clone(), distance: key(l2(v, &query)) });
    }
    for part in parts.iter_mut() {
        part.sort_by_key(|h| h.distance);
        part.truncate(5);
    }
    let sharded_hits = ShardedVectorIndex::query_knn(&parts, 5);
    assert_eq!(sharded_hits.len(), 5);
    let best = rows.iter().map(|(_, v)| key(l2(v, &query))).min().unwrap();
    assert_eq!(sharded_hits[0].distance, best);
    assert!(sharded_hits.windows(2).all(|w| w[0].distance <= w[1].distance));
}

#[test]
fn parts_count_their_rows() {
    let mut idx = ShardedVectorIndex::open(vec![0, 2, 0]);
    assert_eq!(idx.shard_count(), 3);
    assert_eq!(idx.len(), 2);
    idx.insert(0);
    assert_eq!(idx.len(), 3);
    assert!(!idx.is_empty());
    assert!(ShardedVectorIndex::open(vec![0]).is_empty());
    assert_eq!(shard_file(12), "shard-12.vec");
}

// Agents.

type StepFn = Box<dyn FnMut(&mut Agent, &str) -> String>;

fn send(agent: &mut Agent, step: &mut StepFn, payload: &str) -> String {
    match agent.on_message(AgentMessage::Deliver(payload.to_string())) {
        Reaction::Step(p) => step(agent, &p),
        Reaction::Reply(s) => s,
        other => panic!("unexpected {other:?}"),
    }
}

fn remembered(agent: &Agent, name: &str) -> Option<String> {
    agent.state.short_term.get(name).cloned()
}

fn agent_db() -> (Database, AgentRegistry) {
    let found = Found { schemas: vec![], functions: vec![], sequences: vec![] };
    let mut db = Database::open(NodeRole::Writer, found);
    let registry = AgentRegistry::new(&mut db).unwrap();
    (db, registry)
}

#[test]
fn spawn_send_and_receive_reply() {
    let (mut db, mut registry) = agent_db();
    let (mut agent, _) = registry.spawn(&mut db, "a1", "echo-agent", 1).unwrap();
    let mut step: StepFn = Box::new(|_, msg| format!("echo:{msg}"));
    assert_eq!(send(&mut agent, &mut step, "hello"), "echo:hello");
    assert_eq!(registry.list_live(), vec!["a1".to_string()]);
}

#[test]
fn short_term_state_persists_across_messages_within_a_session() {
    let (mut db, mut registry) = agent_db();
    let (mut agent, _) = registry.spawn(&mut db, "counter", "counter", 1).unwrap();
    let mut step: StepFn = Box::new(|agent, _| {
        let n: u64 = remembered(agent, "count").and_then(|s| s.parse().ok()).unwrap_or(0) + 1;
        agent.state.short_term.insert("count".to_string(), n.to_string());
        n.to_string()
    });
    assert_eq!(send(&mut agent, &mut step, "tick"), "1");
    assert_eq!(send(&mut agent, &mut step, "tick"), "2");
    assert_eq!(send(&mut agent, &mut step, "tick"), "3");
}

#[test]
fn pause_drops_messages_and_resume_processes_again() {
    let (mut db, mut registry) = agent_db();
    let (mut agent, _) = registry.spawn(&mut db, "a1", "a1", 1).unwrap();
    let mut step: StepFn = Box::new(|_, msg| msg.to_string());
    let m = registry.set_status("a1", AgentStatus::Paused).unwrap();
    assert_eq!(agent.on_message(m), Reaction::Nothing);
    registry.status_set(&mut db, "a1", AgentStatus::Paused, 2).unwrap();
    assert_eq!(send(&mut agent, &mut step, "x"), "");
    let m = registry.set_status("a1", AgentStatus::Running).unwrap();
    assert_eq!(agent.on_message(m), Reaction::Nothing);
    assert_eq!(send(&mut agent, &mut step, "x"), "x");
    assert_eq!(agent.on_message(AgentMessage::Terminate), Reaction::Stop);
}

#[test]
fn checkpoint_persists_and_resume_from_checkpoint_reloads_it() {
    let (mut db, mut registry) = agent_db();
    let (mut agent, _) = registry.spawn(&mut db, "a1", "saver", 100).unwrap();
    let mut step: StepFn = Box::new(|agent, msg| {
        agent.state.short_term.insert(CHECKPOINT.to_string(), format!("saw:{msg}"));
        "ok".to_string()
    });
    send(&mut agent, &mut step, "hello");
    assert_eq!(registry.checkpoint(&db, "a1"), Ok(None));
    let cp = match agent.on_message(AgentMessage::Checkpoint) {
        Reaction::Reply(s) => s,
        other => panic!("unexpected {other:?}"),
    };
    assert_eq!(cp, "saw:hello");
    registry.checkpoint_given(&mut db, "a1", &cp, 200).unwrap();
    let row = db.read(AGENTS_TABLE, b"a1").unwrap();
    assert_eq!(read_agent(&row).created_at, Some(100));
    registry.status_set(&mut db, "a1", AgentStatus::Terminated, 300).unwrap();
    assert_eq!(registry.checkpoint(&db, "a1"), Ok(Some("saw:hello".to_string())));

    let (mut resumed, _) = registry.resume_from_checkpoint(&mut db, "a1", "saver", 400).unwrap();
    let mut step2: StepFn =
        Box::new(|agent, _| remembered(agent, CHECKPOINT).unwrap_or_default());
    assert_eq!(send(&mut resumed, &mut step2, "ignored"), "saw:hello");
}

#[test]
fn terminate_removes_from_live_registry() {
    let (mut db, mut registry) = agent_db();
    registry.spawn(&mut db, "a1", "x", 1).unwrap();
    assert!(registry.get("a1"));
    assert_eq!(
        registry.set_status("a1", AgentStatus::Terminated),
        Some(AgentMessage::Terminate)
    );
    registry.status_set(&mut db, "a1", AgentStatus::Terminated, 2).unwrap();
    assert!(!registry.get("a1"));
    let all = registry.list_all(&db);
    assert_eq!(all.len(), 1);
    assert_eq!(all[0].2, "terminated");
    assert_eq!(registry.set_status("a1", AgentStatus::Paused), None);
}

#[test]
fn faults_of_agents_are_told() {
    let (mut db, mut registry) = agent_db();
    let e = registry.status_set(&mut db, "a2", AgentStatus::Paused, 3).unwrap_err();
    assert_eq!(e.message(), "agent \"a2\" not found");
    assert_eq!(registry.checkpoint(&db, "a2"), Err(AgentError::NotFound("a2".to_string())));
    assert!(registry.checkpoint_given(&mut db, "a2", "c", 4).is_err());
    let e = AgentError::MailboxClosed("a2".to_string());
    assert_eq!(e.message(), "agent \"a2\" mailbox closed");
    let e = AgentError::NoReply("a2".to_string());
    assert_eq!(e.message(), "agent \"a2\" dropped without replying");
    let found = Found { schemas: vec![], functions: vec![], sequences: vec![] };
    let mut reader = Database::open(NodeRole::Reader, found);
    assert!(AgentRegistry::new(&mut reader).is_err());
    let e = registry.spawn(&mut reader, "a3", "x", 1).err().unwrap();
    assert_eq!(e, AgentError::Db(DbError::ReadOnly));
    assert!(!registry.get("a3"));
}

// Accounts.

fn cells(row: &[Option<&str>]) -> Vec<Option<String>> {
    row.iter().map(|c| c.map(|s| s.to_string())).collect()
}

#[test]
fn rows_are_read_as_accounts() {
    let rows = vec![
        cells(&[Some("1"), Some("Alice"), Some("1000")]),
        cells(&[Some("2"), Some("Bob"), Some("-5")]),
    ];
    let list = list_accounts(&rows).unwrap();
    assert_eq!((list[0].id, list[0].name.as_str(), list[0].balance), (1, "Alice", 1000));
    assert_eq!(list[1].balance, -5);
    let fault = |row: &[Option<&str>]| account_in(&cells(row)).unwrap_err();
    assert_eq!(fault(&[]), RowFault::MissingId);
    assert_eq!(fault(&[Some("x")]), RowFault::BadId);
    assert_eq!(fault(&[Some("1"), None]), RowFault::MissingName);
    assert_eq!(fault(&[Some("1"), Some("a")]), RowFault::MissingBalance);
    assert_eq!(fault(&[Some("1"), Some("a"), Some("b")]), RowFault::BadBalance);
    assert_eq!(RowFault::BadBalance.message(), "parse balance");
}

#[test]
fn first_accounts_are_added_once() {
    assert!(needs_seed(Some("0".to_string())));
    assert!(needs_seed(None));
    assert!(!needs_seed(Some("2".to_string())));
}

#[test]
fn transfer_moves_covered_amounts_only() {
    let t = Transfer { from: 1, to: 2, amount: 30 };
    assert_eq!(
        t.begin(),
        Step::ReadBalance("SELECT balance FROM accounts WHERE id = 1;".to_string())
    );
    match t.on_balance(Some("30".to_string())) {
        Step::Move(sql, entry) => {
            assert_eq!(
                sql,
                "UPDATE accounts SET balance = balance - 30 WHERE id = 1; \
                 UPDATE accounts SET balance = balance + 30 WHERE id = 2;"
            );
            assert_eq!(entry.target, "account:1->account:2");
            assert!(entry.allowed);
            assert_eq!(entry.reason, None);
        }
        other => panic!("expected a move, got {other:?}"),
    }
    match t.on_balance(Some("29".to_string())) {
        Step::Deny(Some(entry), e) => {
            assert!(!entry.allowed);
            assert_eq!(entry.reason.as_deref(), Some("insufficient funds"));
            assert_eq!(e.message(), "insufficient funds in account 1");
        }
        other => panic!("expected a refusal, got {other:?}"),
    }
    assert_eq!(
        t.on_balance(None),
        Step::Deny(None, TransferError::UnknownAccount(1))
    );
    match (Transfer { from: 1, to: 2, amount: -7 }).begin() {
        Step::Deny(Some(entry), TransferError::NotPositive) => {
            assert_eq!(entry.amount, "-7");
            assert_eq!(entry.reason.as_deref(), Some("non-positive amount"));
        }
        other => panic!("expected a refusal, got {other:?}"),
    }
}
