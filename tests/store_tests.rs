use bitkv_rs::codec::{decode_at, encode, Command, CorruptRecord};
use bitkv_rs::compaction::{compact_segments, read_value};
use bitkv_rs::engine::{frame, CompactionPlan, Engine, StoreConfig, StoreError, WriteStep};
use bitkv_rs::index::{CommandPos, Index};
use bitkv_rs::protocol::{get_response, write_response, Response};
use bitkv_rs::naming::{segment_generation, segment_name};
use bitkv_rs::replay::load;

fn put(k: &str, v: &str) -> Command {
    Command::Put { key: k.as_bytes().to_vec(), value: v.as_bytes().to_vec() }
}

fn del(k: &str) -> Command {
    Command::Remove { key: k.as_bytes().to_vec() }
}

fn log_of(cmds: &[Command]) -> Vec<u8> {
    let mut out = Vec::new();
    for c in cmds {
        out.extend(encode(c));
    }
    out
}

fn len_of(c: &Command) -> u64 {
    encode(c).len() as u64
}

fn config(split: u64, trigger: u64) -> StoreConfig {
    StoreConfig { split_threshold: split, compaction_trigger: trigger }
}

/// A tiny in-memory driver: segments as byte vectors, driven by the engine's
/// decisions, with compaction run to completion at once.
struct Mem {
    engine: Engine,
    segments: Vec<(u64, Vec<u8>)>,
}

impl Mem {
    fn new(cfg: StoreConfig) -> Mem {
        let engine = Engine::recover(cfg, &Vec::new()).unwrap();
        let g = engine.current_generation();
        Mem { engine, segments: vec![(g, Vec::new())] }
    }

    fn seg(&mut self, g: u64) -> &mut Vec<u8> {
        &mut self.segments.iter_mut().find(|s| s.0 == g).unwrap().1
    }

    fn write(&mut self, cmd: Command) {
        let bytes = frame(&cmd);
        match self.engine.begin_write().unwrap() {
            WriteStep::Append => {}
            WriteStep::Rotate { generation } => self.segments.push((generation, Vec::new())),
            WriteStep::Compact(plan) => {
                let snap: Vec<(u64, Vec<u8>)> = self
                    .segments
                    .iter()
                    .filter(|s| plan.snapshot.contains(&s.0))
                    .cloned()
                    .collect();
                self.segments.push((plan.target, Vec::new()));
                self.segments.push((plan.active, Vec::new()));
                let (out, moves) = compact_segments(&snap, plan.target).unwrap();
                *self.seg(plan.target) = out;
                let dropped = self.engine.finish_compaction(&plan, &moves).unwrap();
                self.segments.retain(|s| !dropped.contains(&s.0));
            }
        }
        let g = self.engine.current_generation();
        self.seg(g).extend(&bytes);
        self.engine.commit(cmd, bytes.len() as u64).unwrap();
    }

    fn get(&mut self, k: &str) -> Option<String> {
        let key = k.as_bytes().to_vec();
        let p = self.engine.locate(&key).unwrap()?;
        let seg = self.seg(p.generation);
        let rec = seg[p.pos as usize..(p.pos + p.len) as usize].to_vec();
        Some(String::from_utf8(read_value(&rec, &key).unwrap()).unwrap())
    }
}

#[test]
fn encoding_has_exact_bytes() {
    assert_eq!(
        encode(&put("a", "bc")),
        vec![0, 1, 0, 0, 0, 0, 0, 0, 0, b'a', 2, 0, 0, 0, 0, 0, 0, 0, b'b', b'c']
    );
    assert_eq!(encode(&del("xy")), vec![1, 2, 0, 0, 0, 0, 0, 0, 0, b'x', b'y']);
}

#[test]
fn length_prefix_is_little_endian() {
    let key = vec![7u8; 300];
    let b = encode(&Command::Remove { key });
    assert_eq!(&b[..9], &[1, 44, 1, 0, 0, 0, 0, 0, 0]);
    assert_eq!(b.len(), 309);
}

#[test]
fn decode_round_trips_each_record() {
    let log = log_of(&[put("k", "v"), del("k")]);
    let (c1, n1) = decode_at(&log, 0, log.len()).unwrap();
    assert!(matches!(c1, Command::Put { ref key, ref value } if key == b"k" && value == b"v"));
    assert_eq!(n1, 19);
    let (c2, n2) = decode_at(&log, n1, log.len()).unwrap();
    assert!(matches!(c2, Command::Remove { ref key } if key == b"k"));
    assert_eq!(n2, log.len());
}

#[test]
fn decode_rejects_truncated_and_unknown_tag() {
    let log = encode(&put("key", "value"));
    assert_eq!(decode_at(&log, 0, log.len() - 1).err(), Some(CorruptRecord { offset: 0 }));
    let mut bad = log.clone();
    bad[0] = 9;
    assert_eq!(decode_at(&bad, 0, bad.len()).err(), Some(CorruptRecord { offset: 0 }));
    assert!(decode_at(&log, 0, 3).is_err());
}

#[test]
fn index_insert_lookup_remove() {
    let mut idx = Index::new();
    let p1 = CommandPos { generation: 1, pos: 0, len: 10 };
    let p2 = CommandPos { generation: 2, pos: 5, len: 7 };
    idx.insert(b"a".to_vec(), p1);
    idx.insert(b"b".to_vec(), p1);
    idx.insert(b"a".to_vec(), p2);
    assert_eq!(idx.lookup(&b"a".to_vec()), Some(p2));
    assert_eq!(idx.len(), 2);
    idx.remove(&b"a".to_vec());
    assert_eq!(idx.lookup(&b"a".to_vec()), None);
    idx.remove(&b"zz".to_vec());
    assert_eq!(idx.len(), 1);
}

#[test]
fn load_replays_in_order_last_write_wins() {
    let s1 = log_of(&[put("a", "1"), put("b", "2")]);
    let s2 = log_of(&[put("a", "3"), del("b")]);
    let idx = load(&vec![(1, s1), (2, s2)]).unwrap();
    assert_eq!(idx.len(), 1);
    assert_eq!(idx.lookup(&b"a".to_vec()), Some(CommandPos { generation: 2, pos: 0, len: 19 }));
    assert_eq!(idx.lookup(&b"b".to_vec()), None);
}

#[test]
fn load_rejects_corrupt_tail() {
    let mut s1 = log_of(&[put("a", "1")]);
    s1.extend(&[0, 5, 0]);
    assert!(load(&vec![(1, s1)]).is_err());
}

#[test]
fn recover_starts_a_fresh_generation() {
    let e = Engine::recover(config(1024, 5), &Vec::new()).unwrap();
    assert_eq!(e.current_generation(), 1);
    assert_eq!(e.generations(), vec![1]);
    let segs = vec![(1, log_of(&[put("a", "1")])), (3, log_of(&[put("b", "2")]))];
    let e = Engine::recover(config(1024, 5), &segs).unwrap();
    assert_eq!(e.current_generation(), 4);
    assert_eq!(e.generations(), vec![1, 3, 4]);
    assert_eq!(e.key_count(), 2);
    assert_eq!(e.active_size(), 0);
}

#[test]
fn recover_reports_corruption_and_exhaustion() {
    let segs = vec![(1, vec![0u8, 1, 2])];
    assert!(matches!(Engine::recover(config(1024, 5), &segs), Err(StoreError::Corrupt(_))));
    let segs = vec![(u64::MAX, Vec::new())];
    assert!(matches!(Engine::recover(config(1024, 5), &segs), Err(StoreError::Exhausted)));
}

#[test]
fn write_under_threshold_appends() {
    let mut e = Engine::recover(config(100, 3), &Vec::new()).unwrap();
    assert_eq!(e.begin_write().unwrap(), WriteStep::Append);
    for _ in 0..5 {
        e.commit(put("k", "v"), len_of(&put("k", "v"))).unwrap();
    }
    assert_eq!(e.active_size(), 95);
    assert_eq!(e.plan_write().unwrap(), WriteStep::Append);
    assert_eq!(e.generations(), vec![1]);
}

#[test]
fn write_over_threshold_rotates() {
    let mut e = Engine::recover(config(10, 3), &Vec::new()).unwrap();
    e.commit(put("k", "v"), len_of(&put("k", "v"))).unwrap();
    assert_eq!(e.begin_write().unwrap(), WriteStep::Rotate { generation: 2 });
    assert_eq!(e.current_generation(), 2);
    assert_eq!(e.active_size(), 0);
    assert_eq!(e.generations(), vec![1, 2]);
}

#[test]
fn write_at_trigger_compacts() {
    let mut e = Engine::recover(config(10, 2), &Vec::new()).unwrap();
    e.commit(put("k", "v"), len_of(&put("k", "v"))).unwrap();
    assert_eq!(e.begin_write().unwrap(), WriteStep::Rotate { generation: 2 });
    e.commit(put("k", "w"), len_of(&put("k", "w"))).unwrap();
    let step = e.begin_write().unwrap();
    assert_eq!(
        step,
        WriteStep::Compact(CompactionPlan { target: 3, active: 4, snapshot: vec![1, 2] })
    );
    assert_eq!(e.current_generation(), 4);
    assert_eq!(e.generations(), vec![1, 2, 3, 4]);
    // While that compaction is in flight, a further crossing only rotates.
    e.commit(put("k", "x"), len_of(&put("k", "x"))).unwrap();
    assert_eq!(e.begin_write().unwrap(), WriteStep::Rotate { generation: 5 });
}

#[test]
fn planning_changes_nothing_until_applied() {
    let mut e = Engine::recover(config(10, 3), &Vec::new()).unwrap();
    e.commit(put("k", "v"), len_of(&put("k", "v"))).unwrap();
    let step = e.plan_write().unwrap();
    assert_eq!(step, WriteStep::Rotate { generation: 2 });
    assert_eq!(e.current_generation(), 1);
    assert_eq!(e.generations(), vec![1]);
    assert_eq!(e.active_size(), 19);
    e.apply_step(&step).unwrap();
    assert_eq!(e.current_generation(), 2);
    assert_eq!(e.generations(), vec![1, 2]);
    assert_eq!(e.active_size(), 0);
}

#[test]
fn steps_that_do_not_follow_are_refused() {
    let mut e = Engine::recover(config(10, 3), &Vec::new()).unwrap();
    assert_eq!(e.apply_step(&WriteStep::Rotate { generation: 5 }), Err(StoreError::InvalidStep));
    let stale = CompactionPlan { target: 2, active: 3, snapshot: vec![] };
    assert_eq!(e.apply_step(&WriteStep::Compact(stale)), Err(StoreError::InvalidStep));
    assert_eq!(e.generations(), vec![1]);
    assert_eq!(e.apply_step(&WriteStep::Append), Ok(()));
}

#[test]
fn aborted_compaction_can_be_retried() {
    let mut e = Engine::recover(config(1024, 10), &Vec::new()).unwrap();
    e.commit(put("k", "v"), len_of(&put("k", "v"))).unwrap();
    let plan = e.begin_compaction().unwrap();
    assert_eq!(e.plan_compaction(), Err(StoreError::CompactionRunning));
    e.abort_compaction();
    assert_eq!(e.generations(), vec![1, 2, 3]);
    assert_eq!(e.locate(&b"k".to_vec()), Ok(Some(CommandPos { generation: 1, pos: 0, len: 19 })));
    let again = e.plan_compaction().unwrap();
    assert_eq!(again, CompactionPlan { target: 4, active: 5, snapshot: vec![1, 2, 3] });
    assert_eq!(plan.target, 2);
}

#[test]
fn compaction_results_that_miss_a_key_are_refused() {
    let mut e = Engine::recover(config(1024, 10), &Vec::new()).unwrap();
    e.commit(put("k", "v"), len_of(&put("k", "v"))).unwrap();
    e.commit(put("j", "w"), len_of(&put("j", "w"))).unwrap();
    let plan = e.begin_compaction().unwrap();
    let s1 = log_of(&[put("k", "v"), put("j", "w")]);
    let (_, moves) = compact_segments(&vec![(1, s1)], plan.target).unwrap();
    assert!(e.compaction_fits(&plan, &moves));
    let partial: Vec<_> = moves.iter().take(1).cloned().collect();
    assert!(!e.compaction_fits(&plan, &partial));
    assert_eq!(e.finish_compaction(&plan, &partial), Err(StoreError::InvalidCompaction));
    assert_eq!(e.generations(), vec![1, 2, 3]);
    let mut doubled = moves.clone();
    doubled.push(moves[0].clone());
    assert!(!e.compaction_fits(&plan, &doubled));
    assert_eq!(e.finish_compaction(&plan, &moves), Ok(vec![1]));
    assert_eq!(e.locate(&b"k".to_vec()).unwrap().unwrap().generation, 2);
}

#[test]
fn locate_finds_the_latest_put() {
    let mut e = Engine::recover(config(1024, 10), &Vec::new()).unwrap();
    assert_eq!(e.locate(&b"k".to_vec()), Ok(None));
    e.commit(put("k", "v"), len_of(&put("k", "v"))).unwrap();
    e.commit(put("j", "v"), len_of(&put("j", "v"))).unwrap();
    assert_eq!(
        e.locate(&b"j".to_vec()),
        Ok(Some(CommandPos { generation: 1, pos: 19, len: 19 }))
    );
    e.commit(del("j"), len_of(&del("j"))).unwrap();
    assert_eq!(e.locate(&b"j".to_vec()), Ok(None));
    assert_eq!(e.active_size(), 48);
}

#[test]
fn second_compaction_is_refused_while_one_runs() {
    let mut e = Engine::recover(config(1024, 10), &Vec::new()).unwrap();
    let plan = e.begin_compaction().unwrap();
    assert_eq!(plan, CompactionPlan { target: 2, active: 3, snapshot: vec![1] });
    assert_eq!(e.begin_compaction(), Err(StoreError::CompactionRunning));
    let dropped = e.finish_compaction(&plan, &Vec::new()).unwrap();
    assert_eq!(dropped, vec![1]);
    assert_eq!(e.generations(), vec![2, 3]);
    assert!(e.begin_compaction().is_ok());
}

#[test]
fn rotation_past_the_last_generation_is_exhausted() {
    let segs = vec![(u64::MAX - 1, Vec::new())];
    let mut e = Engine::recover(config(0, 10), &segs).unwrap();
    assert_eq!(e.current_generation(), u64::MAX);
    e.commit(put("k", "v"), len_of(&put("k", "v"))).unwrap();
    assert_eq!(e.begin_write(), Err(StoreError::Exhausted));
    assert_eq!(e.begin_compaction(), Err(StoreError::Exhausted));
}

#[test]
fn read_value_checks_the_record() {
    let rec = encode(&put("k", "value"));
    assert_eq!(read_value(&rec, &b"k".to_vec()).unwrap(), b"value".to_vec());
    assert_eq!(read_value(&rec, &b"other".to_vec()), Err(StoreError::UnexpectedRecord));
    let rec = encode(&del("k"));
    assert_eq!(read_value(&rec, &b"k".to_vec()), Err(StoreError::UnexpectedRecord));
    assert_eq!(
        read_value(&vec![0, 1], &b"k".to_vec()),
        Err(StoreError::Corrupt(CorruptRecord { offset: 0 }))
    );
}

#[test]
fn compact_segments_keeps_live_values_only() {
    let s1 = log_of(&[put("a", "1"), put("b", "2"), put("c", "3")]);
    let s2 = log_of(&[put("a", "4"), del("b")]);
    let (out, moves) = compact_segments(&vec![(1, s1), (2, s2)], 7).unwrap();
    assert_eq!(moves.len(), 2);
    let idx = load(&vec![(7, out.clone())]).unwrap();
    assert_eq!(idx.len(), 2);
    for (k, from, to) in &moves {
        assert_eq!(to.generation, 7);
        assert_eq!(to.len, from.len);
        let rec = out[to.pos as usize..(to.pos + to.len) as usize].to_vec();
        let v = read_value(&rec, k).unwrap();
        if k == b"a" {
            assert_eq!(v, b"4".to_vec());
            assert_eq!(from.generation, 2);
        } else {
            assert_eq!(k, b"c");
            assert_eq!(v, b"3".to_vec());
        }
    }
    assert!(compact_segments(&vec![(1, vec![3, 3, 3, 3, 3])], 2).is_err());
}

#[test]
fn set_get_remove_round_trip() {
    let mut m = Mem::new(config(1024, 5));
    m.write(put("k", "v"));
    assert_eq!(m.get("k"), Some("v".to_string()));
    m.write(del("k"));
    assert_eq!(m.get("k"), None);
    m.write(put("", ""));
    assert_eq!(m.get(""), Some(String::new()));
}

#[test]
fn last_write_wins() {
    let mut m = Mem::new(config(1024, 5));
    m.write(put("k", "v1"));
    m.write(put("k", "v2"));
    assert_eq!(m.get("k"), Some("v2".to_string()));
}

#[test]
fn reopen_gives_same_results_across_rotations() {
    let mut m = Mem::new(config(40, 100));
    for i in 0..30 {
        m.write(put(&format!("key{}", i % 7), &format!("value{}", i)));
        if i % 5 == 0 {
            m.write(del(&format!("key{}", i % 3)));
        }
    }
    assert!(m.segments.len() > 3);
    let before: Vec<Option<String>> = (0..7).map(|i| m.get(&format!("key{}", i))).collect();
    let engine = Engine::recover(config(40, 100), &m.segments).unwrap();
    let mut segments = m.segments.clone();
    segments.push((engine.current_generation(), Vec::new()));
    let mut r = Mem { engine, segments };
    let after: Vec<Option<String>> = (0..7).map(|i| r.get(&format!("key{}", i))).collect();
    assert_eq!(before, after);
}

#[test]
fn rotation_creates_a_segment_only_past_threshold() {
    let mut m = Mem::new(config(1024, 5));
    for i in 0..10 {
        m.write(put(&format!("k{}", i), "v"));
    }
    assert_eq!(m.segments.len(), 1);
    m.write(put("big", &"x".repeat(1100)));
    assert_eq!(m.segments.len(), 1);
    m.write(put("next", "v"));
    assert_eq!(m.segments.len(), 2);
}

#[test]
fn compaction_keeps_every_live_value() {
    let mut m = Mem::new(config(30, 3));
    let mut expected = std::collections::BTreeMap::new();
    for i in 0..40 {
        let k = format!("key{}", i % 6);
        let v = format!("v{}", i);
        m.write(put(&k, &v));
        expected.insert(k, v);
        if i % 9 == 0 {
            let k = format!("key{}", (i + 1) % 6);
            m.write(del(&k));
            expected.remove(&k);
        }
    }
    assert!(m.segments.len() <= 4);
    assert_eq!(m.engine.key_count(), expected.len());
    for (k, v) in &expected {
        assert_eq!(m.get(k), Some(v.clone()));
    }
    assert_eq!(m.engine.generations(), m.segments.iter().map(|s| s.0).collect::<Vec<_>>());
}

#[test]
fn write_during_compaction_is_not_overwritten() {
    let mut e = Engine::recover(config(10, 2), &Vec::new()).unwrap();
    let s1 = log_of(&[put("k", "old"), put("j", "keep")]);
    e.commit(put("k", "old"), len_of(&put("k", "old"))).unwrap();
    e.commit(put("j", "keep"), len_of(&put("j", "keep"))).unwrap();
    assert_eq!(e.begin_write().unwrap(), WriteStep::Rotate { generation: 2 });
    let plan = match e.begin_write().unwrap() {
        WriteStep::Append => {
            e.commit(put("z", "1"), len_of(&put("z", "1"))).unwrap();
            match e.begin_write().unwrap() {
                WriteStep::Compact(p) => p,
                other => panic!("unexpected step {:?}", other),
            }
        }
        other => panic!("unexpected step {:?}", other),
    };
    assert_eq!(plan.target, 3);
    let s2 = log_of(&[put("z", "1")]);
    let (_, moves) = compact_segments(&vec![(1, s1), (2, s2)], plan.target).unwrap();
    // A writer moves "k" to the new active segment before the compaction publishes.
    e.begin_write().unwrap();
    e.commit(put("k", "new"), len_of(&put("k", "new"))).unwrap();
    let newer = e.locate(&b"k".to_vec()).unwrap().unwrap();
    assert_eq!(newer.generation, plan.active);
    let dropped = e.finish_compaction(&plan, &moves).unwrap();
    assert_eq!(dropped, vec![1, 2]);
    assert_eq!(e.locate(&b"k".to_vec()).unwrap(), Some(newer));
    assert_eq!(e.locate(&b"j".to_vec()).unwrap().unwrap().generation, 3);
    assert_eq!(e.key_count(), 3);
}

#[test]
fn fifty_pairs_then_ten_more() {
    let mut m = Mem::new(config(1024, 5));
    let mut total = 0;
    for i in 0..50 {
        let c = put(&format!("key{}", i), &format!("value{}", i));
        total += encode(&c).len();
        m.write(c);
    }
    assert!(total > 1024);
    let initial = m.segments.len();
    assert!(initial >= 2, "Should have rotated at least once");
    for i in 0..10 {
        m.write(put(&format!("newkey{}", i), &format!("newvalue{}", i)));
    }
    let last = m.segments.len();
    assert!(last - initial <= 1, "Too many segments: {} then {}", initial, last);
}

#[test]
fn responses_follow_results() {
    assert_eq!(get_response(Ok(Some("v".to_string()))), Response::Value("v".to_string()));
    assert_eq!(get_response(Ok(None)), Response::NotFound);
    assert_eq!(get_response(Err("boom".to_string())), Response::Error("boom".to_string()));
    assert_eq!(write_response(Ok(())), Response::Done);
    assert_eq!(write_response(Err("bad".to_string())), Response::Error("bad".to_string()));
}

fn generation(name: &str) -> Option<u64> {
    segment_generation(&name.as_bytes().to_vec())
}

#[test]
fn segment_names_give_their_generation() {
    assert_eq!(generation("12.db"), Some(12));
    assert_eq!(generation("0.db"), Some(0));
    assert_eq!(generation("007.db"), Some(7));
    assert_eq!(generation("18446744073709551615.db"), Some(u64::MAX));
}

#[test]
fn other_names_are_not_segments() {
    assert_eq!(generation(".db"), None);
    assert_eq!(generation("db"), None);
    assert_eq!(generation("1.txt"), None);
    assert_eq!(generation("a1.db"), None);
    assert_eq!(generation("1.db.tmp"), None);
    assert_eq!(generation("-1.db"), None);
    assert_eq!(generation("18446744073709551616.db"), None);
    assert_eq!(generation("99999999999999999999x.db"), None);
}

#[test]
fn segment_names_round_trip() {
    assert_eq!(segment_name(0), b"0.db".to_vec());
    assert_eq!(segment_name(12), b"12.db".to_vec());
    assert_eq!(segment_name(u64::MAX), b"18446744073709551615.db".to_vec());
    for g in [1u64, 9, 10, 99, 100, 123456789, u64::MAX - 1] {
        assert_eq!(segment_generation(&segment_name(g)), Some(g));
    }
}
