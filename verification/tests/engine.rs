use std::collections::VecDeque;

use cantal::cond::{encode_condition, match_cond, match_cond_checked, parse_condition, Condition};
use cantal::history::{History, HistoryChunk};
use cantal::keys::Key;
use cantal::query::{
    query, query_raw, sum_raw, sum_rate, take_rate, take_raw, Aggregation, Doc, Query, QueryError,
    RatePoint, RawRule, Rule, Source,
};
use cantal::schedule::{plan_tick, sleep_remainder};
use cantal::values::Value;

fn ring(v: Vec<(u64, u32)>) -> VecDeque<(u64, u32)> {
    v.into_iter().collect()
}

fn key(pairs: &[(&str, &str)]) -> Key {
    Key::pairs(
        pairs
            .iter()
            .map(|(a, b)| (a.to_string(), b.to_string()))
            .collect(),
    )
    .expect("distinct names")
}

#[test]
fn key_get_and_metric() {
    let k = Key::metric("cpu.user");
    assert_eq!(k.get(&"metric".to_string()), Some(&"cpu.user".to_string()));
    assert_eq!(k.get(&"device".to_string()), None);
    let k2 = key(&[("device", "sda"), ("metric", "disk.read.ops")]);
    assert_eq!(k2.get(&"device".to_string()), Some(&"sda".to_string()));
    assert!(k2.same(&key(&[("device", "sda"), ("metric", "disk.read.ops")])));
    assert!(!k2.same(&k));
    assert!(Key::pairs(vec![
        ("a".to_string(), "1".to_string()),
        ("a".to_string(), "2".to_string())
    ])
    .is_none());
}

#[test]
fn not_has_matches_absent_label_only() {
    let with_x = key(&[("metric", "m"), ("x", "1")]);
    let without_x = key(&[("metric", "m")]);
    let cond = Condition::Not(Box::new(Condition::Has("x".to_string())));
    assert!(!match_cond(&with_x, &cond));
    assert!(match_cond(&without_x, &cond));
}

#[test]
fn and_or_truth_tables() {
    let k = key(&[("metric", "m"), ("x", "1")]);
    let t = || Box::new(Condition::Has("x".to_string()));
    let f = || Box::new(Condition::Has("y".to_string()));
    assert!(match_cond(&k, &Condition::And(t(), t())));
    assert!(!match_cond(&k, &Condition::And(t(), f())));
    assert!(!match_cond(&k, &Condition::And(f(), t())));
    assert!(!match_cond(&k, &Condition::And(f(), f())));
    assert!(match_cond(&k, &Condition::Or(t(), t())));
    assert!(match_cond(&k, &Condition::Or(t(), f())));
    assert!(match_cond(&k, &Condition::Or(f(), t())));
    assert!(!match_cond(&k, &Condition::Or(f(), f())));
}

#[test]
fn eq_and_regex_conditions() {
    let k = key(&[("metric", "cpu.user")]);
    assert!(match_cond(
        &k,
        &Condition::Eq("metric".to_string(), "cpu.user".to_string())
    ));
    assert!(match_cond(
        &k,
        &Condition::NotEq("metric".to_string(), "cpu.idle".to_string())
    ));
    // An absent label is matched against the empty string.
    let r = Condition::RegexLike("device".to_string(), "^$".to_string());
    assert_eq!(match_cond_checked(&k, &r), Some(true));
    let r2 = Condition::RegexLike("metric".to_string(), "^cpu\\.".to_string());
    assert_eq!(match_cond_checked(&k, &r2), Some(true));
    // An invalid pattern is reported, not swallowed.
    let bad = Condition::RegexLike("metric".to_string(), "(".to_string());
    assert_eq!(match_cond_checked(&k, &bad), None);
}

#[test]
fn push_keeps_rings_aligned() {
    let mut h = History::new(4, 100);
    let ku = Key::metric("cpu.user");
    let kv = Key::metric("load_avg");
    h.push((1000, 5), &vec![(ku.dup(), Value::Counter(10))]);
    h.push(
        (2000, 5),
        &vec![
            (ku.dup(), Value::Counter(30)),
            (kv.dup(), Value::Integer(7)),
        ],
    );
    h.push((3000, 5), &vec![(kv.dup(), Value::Integer(8))]);
    assert_eq!(h.fine.timestamps.len(), 3);
    for (_, sr) in h.fine.series.iter() {
        assert_eq!(sr.values.len(), 3);
    }
    // Newest first: cpu.user saw no sample in the last tick.
    match h.get_fine_history(&ku) {
        Some(HistoryChunk::Counters(v)) => {
            assert_eq!(v, vec![None, Some(30), Some(10)]);
        }
        _ => panic!("expected a counter chunk"),
    }
    match h.get_fine_history(&kv) {
        Some(HistoryChunk::Integers(v)) => {
            assert_eq!(v, vec![Some(8), Some(7), None]);
        }
        _ => panic!("expected an integer chunk"),
    }
    assert!(h.get_fine_history(&Key::metric("nope")).is_none());
}

#[test]
fn ring_evicts_past_cap_and_truncates_by_time() {
    let mut h = History::new(3, 100);
    let k = Key::metric("m");
    for i in 1..6u64 {
        h.push((i * 1000, 0), &vec![(k.dup(), Value::Counter(i * 10))]);
    }
    assert_eq!(h.fine.timestamps.len(), 3);
    assert_eq!(h.fine.timestamps[0], (5000, 0));
    assert_eq!(h.fine.timestamps[2], (3000, 0));
    h.truncate_by_time(4000);
    assert_eq!(h.fine.timestamps.len(), 2);
    for (_, sr) in h.fine.series.iter() {
        assert_eq!(sr.values.len(), 2);
    }
}

#[test]
fn state_values_stay_out_of_the_rings() {
    let mut h = History::new(4, 4);
    let k = Key::metric("proc.state");
    h.push((1000, 1), &vec![(k.dup(), Value::State(900, "running".to_string()))]);
    assert_eq!(h.fine.series.len(), 0);
    assert_eq!(h.tip.values.len(), 1);
    assert_eq!(h.tip.latest, Some((1000, 1)));
}

#[test]
fn rate_transform_exact_values() {
    let ts = ring(vec![(3000, 0), (2000, 0), (1000, 0)]);
    let streams = vec![vec![Some(50u64), Some(30), Some(10)]];
    let r = take_rate(&ts, streams, 100);
    assert_eq!(
        r,
        vec![vec![
            Some(RatePoint { delta: 20, interval_ms: 1000 }),
            Some(RatePoint { delta: 20, interval_ms: 1000 }),
        ]]
    );
    // A decrease yields a hole, never a negative-wrap artifact.
    let r2 = take_rate(&ring(vec![(2000, 0), (1000, 0)]), vec![vec![Some(5u64), Some(9)]], 100);
    assert_eq!(r2, vec![vec![None]]);
}

#[test]
fn casual_sum_treats_missing_as_zero() {
    // Counters: one series misses the middle sample.
    let ts = ring(vec![(3000, 0), (2000, 0), (1000, 0)]);
    let streams = vec![
        vec![Some(50u64), Some(30), Some(10)],
        vec![Some(9), None, Some(3)],
    ];
    let summed = sum_rate(&ts, streams.clone(), 100);
    // Position 0: 20 from the first series, the second contributes zero.
    assert_eq!(summed[0].delta, 20);
    assert_eq!(summed[0].interval_ms, 1000);
    assert_eq!(summed[1].delta, 20);
    // Under no aggregation the same input keeps the hole in that series only.
    let raw = take_rate(&ts, streams, 100);
    assert_eq!(raw[1], vec![None, None]);
    assert_eq!(raw[0][0], Some(RatePoint { delta: 20, interval_ms: 1000 }));
    // Integers: a missing sample sums as zero, not as a hole.
    let sums = sum_raw(vec![vec![Some(5i64), None], vec![Some(2), Some(4)]], 100, 0);
    assert_eq!(sums, vec![7, 4]);
}

#[test]
fn take_raw_truncates_to_limit() {
    let r = take_raw(vec![vec![Some(1i64), Some(2), Some(3)], vec![Some(4)]], 2);
    assert_eq!(r, vec![vec![Some(1), Some(2)], vec![Some(4)]]);
}

fn sample_history() -> History {
    let mut h = History::new(10, 10);
    let sda = key(&[("device", "sda"), ("metric", "disk.read.ops")]);
    let sdb = key(&[("device", "sdb"), ("metric", "disk.read.ops")]);
    let load = key(&[("metric", "load_avg")]);
    h.push(
        (1000, 0),
        &vec![
            (sda.dup(), Value::Counter(10)),
            (sdb.dup(), Value::Counter(100)),
            (load.dup(), Value::Integer(1)),
        ],
    );
    h.push(
        (2000, 0),
        &vec![
            (sda.dup(), Value::Counter(30)),
            (sdb.dup(), Value::Counter(160)),
            (load.dup(), Value::Integer(2)),
        ],
    );
    h
}

#[test]
fn query_groups_and_sums() {
    let h = sample_history();
    let q = Query {
        rules: vec![(
            "disk".to_string(),
            Rule {
                source: Source::Fine,
                condition: Condition::Eq("metric".to_string(), "disk.read.ops".to_string()),
                key: vec!["metric".to_string()],
                aggregation: Aggregation::CasualSum,
                limit: 100,
            },
        )],
    };
    let doc = query(&q, &h).expect("query succeeds");
    match doc {
        Doc::Tree(entries) => {
            assert_eq!(entries.len(), 1);
            assert_eq!(entries[0].0, "disk");
            match &entries[0].1 {
                Doc::Tree(groups) => {
                    assert_eq!(groups.len(), 1);
                    assert_eq!(groups[0].0, "disk.read.ops");
                    match &groups[0].1 {
                        Doc::SummedRates(v) => {
                            // (30-10) + (160-100) over one second.
                            assert_eq!(v.len(), 1);
                            assert_eq!(v[0].delta, 80);
                            assert_eq!(v[0].interval_ms, 1000);
                        }
                        other => panic!("expected summed rates, got {:?}", other),
                    }
                }
                other => panic!("expected a group tree, got {:?}", other),
            }
        }
        other => panic!("expected a tree, got {:?}", other),
    }
}

#[test]
fn query_rejects_bad_regex_and_unimplemented_tiers() {
    let h = sample_history();
    let bad = Query {
        rules: vec![(
            "r".to_string(),
            Rule {
                source: Source::Fine,
                condition: Condition::RegexLike("metric".to_string(), "(".to_string()),
                key: vec![],
                aggregation: Aggregation::Raw,
                limit: 10,
            },
        )],
    };
    assert!(matches!(query(&bad, &h), Err(QueryError::BadRequest(_))));
    let tip = Query {
        rules: vec![(
            "r".to_string(),
            Rule {
                source: Source::Tip,
                condition: Condition::Has("metric".to_string()),
                key: vec![],
                aggregation: Aggregation::Raw,
                limit: 10,
            },
        )],
    };
    assert!(matches!(query(&tip, &h), Err(QueryError::NotImplemented(_))));
}

#[test]
fn query_rejects_mixed_kinds_in_one_group() {
    let h = sample_history();
    // Grouping everything under one empty projection mixes counters with
    // integers.
    let q = Query {
        rules: vec![(
            "all".to_string(),
            Rule {
                source: Source::Fine,
                condition: Condition::Has("metric".to_string()),
                key: vec![],
                aggregation: Aggregation::Raw,
                limit: 10,
            },
        )],
    };
    assert!(matches!(query(&q, &h), Err(QueryError::BadRequest(_))));
}

#[test]
fn query_raw_extracts_matching_series() {
    let h = sample_history();
    let rules = vec![RawRule {
        source: Source::Fine,
        condition: Condition::Eq("metric".to_string(), "disk.read.ops".to_string()),
        key: vec!["device".to_string()],
    }];
    let rr = query_raw(&rules, 10, &h).expect("raw query succeeds");
    assert_eq!(rr.fine_timestamps, vec![(2000, 0), (1000, 0)]);
    assert_eq!(rr.fine_metrics.len(), 2);
    assert_eq!(
        rr.fine_metrics[0].0.get(&"device".to_string()),
        Some(&"sda".to_string())
    );
    match &rr.fine_metrics[0].1 {
        HistoryChunk::Counters(v) => assert_eq!(v, &vec![Some(30), Some(10)]),
        other => panic!("expected counters, got {:?}", other),
    }
}

#[test]
fn tick_plan_decides_snapshots_and_hour_boundaries() {
    // Not yet due.
    let p = plan_tick(50_000, 0, 0);
    assert!(!p.store);
    assert_eq!(p.next_last_store, 0);
    // Due, same hour.
    let p = plan_tick(130_000, 60_000, 0);
    assert!(p.store);
    assert_eq!(p.snapshot_hour, None);
    assert_eq!(p.next_last_store, 130_000);
    // Due, new hour: labeled and truncated at the old boundary.
    let p = plan_tick(3_700_000, 3_500_000, 0);
    assert!(p.store);
    assert_eq!(p.snapshot_hour, Some(1));
    assert_eq!(p.truncate_before, Some(0));
    assert_eq!(p.next_last_hourly, 1);
}

#[test]
fn sleep_remainder_self_corrects() {
    assert_eq!(sleep_remainder(4_500, 2000), 1500);
    assert_eq!(sleep_remainder(4_000, 2000), 2000);
    assert_eq!(sleep_remainder(0, 2000), 2000);
}

#[test]
fn condition_tokens_round_trip() {
    let c = Condition::And(
        Box::new(Condition::Or(
            Box::new(Condition::Eq("metric".to_string(), "cpu.user".to_string())),
            Box::new(Condition::Not(Box::new(Condition::Has("device".to_string())))),
        )),
        Box::new(Condition::RegexLike("metric".to_string(), "^cpu\\.".to_string())),
    );
    let mut tokens: Vec<String> = Vec::new();
    encode_condition(&c, &mut tokens);
    assert_eq!(
        tokens,
        vec![
            "and", "or", "eq", "metric", "cpu.user", "not", "has", "device", "regex-like",
            "metric", "^cpu\\."
        ]
    );
    let (back, consumed) = parse_condition(&tokens, 0).expect("parses");
    assert_eq!(consumed, tokens.len());
    let mut again: Vec<String> = Vec::new();
    encode_condition(&back, &mut again);
    assert_eq!(tokens, again);
    // Errors are reported, not panicked over.
    assert!(parse_condition(&vec!["frobnicate".to_string()], 0).is_err());
    assert!(parse_condition(&vec!["eq".to_string(), "a".to_string()], 0).is_err());
    assert!(
        parse_condition(&vec!["regex-like".to_string(), "m".to_string(), "(".to_string()], 0)
            .is_err()
    );
}

#[test]
fn query_raw_aggregation_yields_per_series_rates() {
    let h = sample_history();
    let q = Query {
        rules: vec![(
            "disk".to_string(),
            Rule {
                source: Source::Fine,
                condition: Condition::Eq("metric".to_string(), "disk.read.ops".to_string()),
                key: vec!["device".to_string()],
                aggregation: Aggregation::Raw,
                limit: 100,
            },
        )],
    };
    let doc = query(&q, &h).expect("query succeeds");
    let entries = match doc {
        Doc::Tree(e) => e,
        other => panic!("expected a tree, got {:?}", other),
    };
    let groups = match &entries[0].1 {
        Doc::Tree(g) => g,
        other => panic!("expected a group tree, got {:?}", other),
    };
    assert_eq!(groups.len(), 2);
    assert_eq!(groups[0].0, "sda");
    assert_eq!(groups[1].0, "sdb");
    match &groups[0].1 {
        Doc::Rates(rr) => {
            assert_eq!(rr.len(), 1);
            assert_eq!(rr[0], vec![Some(RatePoint { delta: 20, interval_ms: 1000 })]);
        }
        other => panic!("expected rates, got {:?}", other),
    }
    match &groups[1].1 {
        Doc::Rates(rr) => {
            assert_eq!(rr[0], vec![Some(RatePoint { delta: 60, interval_ms: 1000 })]);
        }
        other => panic!("expected rates, got {:?}", other),
    }
}

#[test]
fn float_series_pass_through_as_bits() {
    let mut h = History::new(4, 4);
    let k = Key::metric("uptime");
    let a = 1.5f64.to_bits();
    let b = 2.5f64.to_bits();
    h.push((1000, 0), &vec![(k.dup(), Value::Float(a))]);
    h.push((2000, 0), &vec![(k.dup(), Value::Float(b))]);
    let q = Query {
        rules: vec![(
            "up".to_string(),
            Rule {
                source: Source::Fine,
                condition: Condition::Has("metric".to_string()),
                key: vec![],
                aggregation: Aggregation::Raw,
                limit: 10,
            },
        )],
    };
    let doc = query(&q, &h).expect("query succeeds");
    let entries = match doc {
        Doc::Tree(e) => e,
        other => panic!("expected a tree, got {:?}", other),
    };
    // The empty projection replaces the subtree with the leaf directly.
    match &entries[0].1 {
        Doc::Floats(v) => {
            assert_eq!(v[0], vec![Some(b), Some(a)]);
            assert_eq!(f64::from_bits(v[0][0].unwrap()), 2.5);
        }
        other => panic!("expected float bits, got {:?}", other),
    }
    // Summing float series is refused as not implemented, never mangled.
    let qs = Query {
        rules: vec![(
            "up".to_string(),
            Rule {
                source: Source::Fine,
                condition: Condition::Has("metric".to_string()),
                key: vec![],
                aggregation: Aggregation::CasualSum,
                limit: 10,
            },
        )],
    };
    assert!(matches!(query(&qs, &h), Err(QueryError::NotImplemented(_))));
}

#[test]
fn duplicate_rule_names_are_refused() {
    let h = sample_history();
    let mk = || Rule {
        source: Source::Fine,
        condition: Condition::Has("metric".to_string()),
        key: vec!["metric".to_string()],
        aggregation: Aggregation::Raw,
        limit: 10,
    };
    let q = Query { rules: vec![("r".to_string(), mk()), ("r".to_string(), mk())] };
    assert!(matches!(query(&q, &h), Err(QueryError::BadRequest(_))));
}
