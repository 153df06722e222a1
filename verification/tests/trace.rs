use graph_simulation::algorithm::trace::{EventKind, TraceEvent, TraceLog};

fn sample() -> TraceLog {
    let mut log = TraceLog::new();
    log.append(TraceEvent { kind: EventKind::Base, cluster_id: 3, pairs: vec![(1, 10), (2, 20)] });
    log.append(TraceEvent { kind: EventKind::Derivation, cluster_id: 258, pairs: vec![] });
    log.append(TraceEvent {
        kind: EventKind::Derivation,
        cluster_id: u64::MAX,
        pairs: vec![(u64::MAX, 0)],
    });
    log
}

#[test]
fn trace_comes_back_from_its_bytes() {
    let log = sample();
    let bytes = log.to_bytes();
    assert_eq!(TraceLog::from_bytes(&bytes), Some(log));
    assert_eq!(TraceLog::from_bytes(&[]), Some(TraceLog::new()));
}

#[test]
fn trace_bytes_are_tag_cluster_count_and_pairs() {
    let mut log = TraceLog::new();
    log.append(TraceEvent { kind: EventKind::Derivation, cluster_id: 258, pairs: vec![(1, 513)] });
    let mut expected = vec![1u8];
    expected.extend_from_slice(&[2, 1, 0, 0, 0, 0, 0, 0]);
    expected.extend_from_slice(&[1, 0, 0, 0, 0, 0, 0, 0]);
    expected.extend_from_slice(&[1, 0, 0, 0, 0, 0, 0, 0]);
    expected.extend_from_slice(&[1, 2, 0, 0, 0, 0, 0, 0]);
    assert_eq!(log.to_bytes(), expected);
    let mut base = TraceLog::new();
    base.append(TraceEvent { kind: EventKind::Base, cluster_id: 0, pairs: vec![] });
    assert_eq!(base.to_bytes(), vec![0u8; 17]);
}

#[test]
fn trace_bytes_are_the_same_for_the_same_trace() {
    assert_eq!(sample().to_bytes(), sample().to_bytes());
}

#[test]
fn bytes_that_are_no_trace_are_refused() {
    let bytes = sample().to_bytes();
    assert_eq!(TraceLog::from_bytes(&bytes[..bytes.len() - 1]), None);
    assert_eq!(TraceLog::from_bytes(&bytes[..5]), None);
    let mut bad_tag = bytes.clone();
    bad_tag[0] = 2;
    assert_eq!(TraceLog::from_bytes(&bad_tag), None);
    let mut too_many = vec![0u8; 17];
    too_many[9] = 1;
    assert_eq!(TraceLog::from_bytes(&too_many), None);
    let mut huge = vec![0u8; 17];
    for b in huge.iter_mut().skip(9) {
        *b = 255;
    }
    assert_eq!(TraceLog::from_bytes(&huge), None);
}

#[test]
fn trace_keeps_the_order_of_its_events() {
    let log = sample();
    assert_eq!(log.len(), 3);
    let ids: Vec<u64> = log.events().iter().map(|e| e.cluster_id).collect();
    assert_eq!(ids, vec![3, 258, u64::MAX]);
    assert_eq!(log.events()[0].kind, EventKind::Base);
}
