use reptree::crdt::RepTree;
use reptree::state_vector::StateVector;
use reptree::storage::new_memory_storage;
use reptree::storage::LogStore;
use reptree::storage::VertexStore;
use reptree::types::EncodedVertex;
use reptree::types::MoveVertex;
use reptree::types::OpId;
use reptree::types::Range;
use reptree::types::SetVertexProperty;
use reptree::types::VertexOperation;
use reptree::types::VertexPropertyType;

fn fresh() -> RepTree<
    reptree::storage::MemVertexStore,
    reptree::storage::MemLog<MoveVertex>,
    reptree::storage::MemLog<SetVertexProperty>,
> {
    RepTree::new("test-peer-1".to_string(), new_memory_storage())
}

fn mv(peer: &str, c: u64, target: &str, parent: Option<&str>, ts: u64) -> VertexOperation {
    VertexOperation::Move(MoveVertex {
        id: OpId::new(peer.to_string(), c),
        target_id: target.to_string(),
        parent_id: parent.map(|p| p.to_string()),
        timestamp: ts,
    })
}

fn sp(peer: &str, c: u64, target: &str, key: &str, value: VertexPropertyType) -> VertexOperation {
    VertexOperation::SetProperty(SetVertexProperty {
        id: OpId::new(peer.to_string(), c),
        target_id: target.to_string(),
        key: key.to_string(),
        value,
        transient: false,
    })
}

#[test]
fn create_and_read() {
    // Scenario: one move creating the root, one property set on it.
    let mut tree = fresh();
    let id = tree.apply_op(mv("p1", 1, "root", None, 1000)).unwrap();
    assert_eq!(id.peer_id, "p1");
    assert_eq!(id.counter, 1);
    tree.apply_op(sp("p1", 2, "root", "name", VertexPropertyType::String("Root".to_string())))
        .unwrap();
    let root = tree.get_vertex("root").unwrap().unwrap();
    assert_eq!(root.id, "root");
    assert_eq!(root.parent_id, None);
    assert_eq!(root.idx, 0);
    match root.get_property("name") {
        Some(VertexPropertyType::String(s)) => assert_eq!(s, "Root"),
        _ => panic!("expected a string property"),
    }
}

#[test]
fn child_indexing() {
    // Children of a common parent get strictly increasing indexes 1, 2.
    let mut tree = fresh();
    tree.apply_op(mv("p1", 1, "root", None, 1000)).unwrap();
    tree.apply_op(mv("p1", 3, "c1", Some("root"), 2000)).unwrap();
    tree.apply_op(mv("p1", 4, "c2", Some("root"), 2001)).unwrap();
    let kids = tree.get_children("root").unwrap();
    assert_eq!(kids.len(), 2);
    assert_eq!(kids[0].id, "c1");
    assert_eq!(kids[0].idx, 1);
    assert_eq!(kids[1].id, "c2");
    assert_eq!(kids[1].idx, 2);
}

#[test]
fn move_reparents_to_end() {
    // Re-moving c1 under root pushes it past the current maximum index.
    let mut tree = fresh();
    tree.apply_op(mv("p1", 1, "root", None, 1000)).unwrap();
    tree.apply_op(mv("p1", 3, "c1", Some("root"), 2000)).unwrap();
    tree.apply_op(mv("p1", 4, "c2", Some("root"), 2001)).unwrap();
    tree.apply_op(mv("p1", 5, "c1", Some("root"), 2002)).unwrap();
    let c1 = tree.get_vertex("c1").unwrap().unwrap();
    assert_eq!(c1.idx, 3);
    assert_eq!(c1.parent_id, Some("root".to_string()));
    let kids = tree.get_children("root").unwrap();
    assert_eq!(kids.len(), 2);
    assert_eq!(kids[0].id, "c2");
    assert_eq!(kids[1].id, "c1");
}

#[test]
fn missing_parent_rejected() {
    // A move under an unknown parent fails and changes nothing.
    let mut tree = fresh();
    let r = tree.apply_op(mv("p1", 1, "x", Some("nope"), 1));
    match r {
        Err(reptree::types::Error::VertexNotFound(v)) => assert_eq!(v, "nope"),
        _ => panic!("expected VertexNotFound"),
    }
    assert!(tree.get_vertex("x").unwrap().is_none());
    assert!(tree.get_state_vector().is_empty());
}

#[test]
fn property_target_missing_rejected() {
    let mut tree = fresh();
    let r = tree.apply_op(sp("p1", 1, "ghostly", "k", VertexPropertyType::Null));
    match r {
        Err(reptree::types::Error::VertexNotFound(v)) => assert_eq!(v, "ghostly"),
        _ => panic!("expected VertexNotFound"),
    }
}

#[test]
fn reapply_is_idempotent() {
    // Applying the same operation twice leaves state vector, logs and
    // vertex state as after the first application.
    let mut tree = fresh();
    tree.apply_op(mv("p1", 1, "root", None, 1000)).unwrap();
    tree.apply_op(sp("p1", 2, "root", "name", VertexPropertyType::Integer(7))).unwrap();
    let sv_once = tree.get_state_vector();
    let missing_once = tree.get_missing_ops(Vec::new()).unwrap();
    // Second application of both operations.
    tree.apply_op(mv("p1", 1, "root", None, 1000)).unwrap();
    tree.apply_op(sp("p1", 2, "root", "name", VertexPropertyType::Integer(7))).unwrap();
    let sv_twice = tree.get_state_vector();
    let missing_twice = tree.get_missing_ops(Vec::new()).unwrap();
    assert_eq!(sv_once.len(), sv_twice.len());
    assert_eq!(missing_once.len(), missing_twice.len());
    let root = tree.get_vertex("root").unwrap().unwrap();
    match root.get_property("name") {
        Some(VertexPropertyType::Integer(n)) => assert_eq!(*n, 7),
        _ => panic!("expected an integer property"),
    }
}

#[test]
fn last_writer_wins_on_key() {
    let mut tree = fresh();
    tree.apply_op(mv("p1", 1, "root", None, 1000)).unwrap();
    tree.apply_op(sp("p1", 2, "root", "k", VertexPropertyType::Integer(1))).unwrap();
    tree.apply_op(sp("p1", 3, "root", "k", VertexPropertyType::Integer(2))).unwrap();
    let root = tree.get_vertex("root").unwrap().unwrap();
    match root.get_property("k") {
        Some(VertexPropertyType::Integer(n)) => assert_eq!(*n, 2),
        _ => panic!("expected an integer property"),
    }
}

#[test]
fn transient_property_is_dropped() {
    let mut tree = fresh();
    tree.apply_op(mv("p1", 1, "root", None, 1000)).unwrap();
    tree.apply_op(VertexOperation::SetProperty(SetVertexProperty {
        id: OpId::new("p1".to_string(), 2),
        target_id: "root".to_string(),
        key: "cursor".to_string(),
        value: VertexPropertyType::Boolean(true),
        transient: true,
    }))
    .unwrap();
    let root = tree.get_vertex("root").unwrap().unwrap();
    assert!(root.get_property("cursor").is_none());
    // Not recorded: it is still absent from the state vector.
    let sv = tree.get_state_vector();
    let covered: Vec<&Range> = sv.iter().flat_map(|(_, rs)| rs.iter()).collect();
    assert!(covered.iter().all(|r| !(r.start <= 2 && 2 <= r.end)));
}

#[test]
fn modify_projects_to_blob() {
    let mut tree = fresh();
    tree.apply_op(mv("p1", 1, "root", None, 1000)).unwrap();
    tree.apply_op(VertexOperation::ModifyProperty(reptree::types::ModifyVertexProperty {
        id: OpId::new("p1".to_string(), 2),
        target_id: "root".to_string(),
        key: "doc".to_string(),
        update: vec![1, 2, 3],
    }))
    .unwrap();
    let root = tree.get_vertex("root").unwrap().unwrap();
    match root.get_property("doc") {
        Some(VertexPropertyType::YDoc(b)) => assert_eq!(b, &vec![1, 2, 3]),
        _ => panic!("expected an opaque blob"),
    }
}

#[test]
fn lamport_clock_advances() {
    // The clock jumps past any observed timestamp, and locally
    // originated operations carry strictly increasing counters.
    let mut tree = fresh();
    tree.apply_op(mv("p1", 1, "root", None, 1000)).unwrap();
    assert_eq!(tree.lamport_clock(), 1001);
    let id1 = tree.set_property("root", "a", VertexPropertyType::Null).unwrap();
    let id2 = tree.set_property("root", "b", VertexPropertyType::Null).unwrap();
    assert!(id2.counter > id1.counter);
    assert_eq!(id1.peer_id, "test-peer-1");
}

#[test]
fn create_vertex_generates_id() {
    let mut tree = fresh();
    let root = tree.create_vertex(None).unwrap();
    assert_eq!(root.len(), 36);
    let child = tree.create_vertex(Some(root.clone())).unwrap();
    let kids = tree.get_children(&root).unwrap();
    assert_eq!(kids.len(), 1);
    assert_eq!(kids[0].id, child);
}

#[test]
fn state_vector_normal_form() {
    // Ranges merge when adjacent or overlapping, stay split across gaps.
    let mut sv = StateVector::new();
    sv.add("p1", 3);
    sv.add("p1", 1);
    sv.add("p1", 2);
    sv.add("p1", 5);
    let rs = sv.get_ranges();
    assert_eq!(rs.len(), 1);
    let (peer, list) = &rs[0];
    assert_eq!(peer, "p1");
    assert_eq!(list.len(), 2);
    assert_eq!((list[0].start, list[0].end), (1, 3));
    assert_eq!((list[1].start, list[1].end), (5, 5));
    // Adding a covered counter changes nothing.
    sv.add("p1", 2);
    let rs2 = sv.get_ranges();
    assert_eq!(rs2[0].1.len(), 2);
    assert_eq!((rs2[0].1[0].start, rs2[0].1[0].end), (1, 3));
}

#[test]
fn state_vector_diff() {
    // p1 has {1,2,3,5} of p1 and {10,11} of p2; p2 knows {1,2} of p1 and
    // {10,11} of p2. The difference is (p1,3,3) and (p1,5,5).
    let mut ours = StateVector::new();
    for c in [1, 2, 3, 5] {
        ours.add("p1", c);
    }
    ours.add("p2", 10);
    ours.add("p2", 11);
    let mut theirs = StateVector::new();
    theirs.add("p1", 1);
    theirs.add("p1", 2);
    theirs.add("p2", 10);
    theirs.add("p2", 11);
    let mut d = ours.diff(&theirs);
    d.sort_by_key(|r| r.start);
    assert_eq!(d.len(), 2);
    assert_eq!((d[0].peer_id.as_str(), d[0].start, d[0].end), ("p1", 3, 3));
    assert_eq!((d[1].peer_id.as_str(), d[1].start, d[1].end), ("p1", 5, 5));
}

#[test]
fn opid_compare_order() {
    let a = OpId::new("alice".to_string(), 1);
    let b = OpId::new("bob".to_string(), 1);
    let c = OpId::new("alice".to_string(), 2);
    assert_eq!(OpId::compare(&a, &b), std::cmp::Ordering::Less);
    assert_eq!(OpId::compare(&b, &a), std::cmp::Ordering::Greater);
    assert_eq!(OpId::compare(&a, &c), std::cmp::Ordering::Less);
    assert_eq!(OpId::compare(&a, &a), std::cmp::Ordering::Equal);
}

#[test]
fn one_way_sync_converges() {
    // A fresh replica replaying everything a peer hands over ends with
    // the same materialized tree.
    let mut source = fresh();
    source.apply_op(mv("p1", 1, "root", None, 1000)).unwrap();
    source.apply_op(mv("p1", 2, "c1", Some("root"), 1001)).unwrap();
    source
        .apply_op(sp("p1", 3, "c1", "name", VertexPropertyType::String("left".to_string())))
        .unwrap();
    let mut sink = RepTree::new("test-peer-2".to_string(), new_memory_storage());
    let missing = source.get_missing_ops(sink.get_state_vector()).unwrap();
    assert_eq!(missing.len(), 3);
    sink.apply_ops(missing).unwrap();
    for id in ["root", "c1"] {
        let a = source.get_vertex(id).unwrap().unwrap();
        let b = sink.get_vertex(id).unwrap().unwrap();
        assert_eq!(a.id, b.id);
        assert_eq!(a.parent_id, b.parent_id);
        assert_eq!(a.idx, b.idx);
    }
    // Nothing is missing once both cover the same history.
    let nothing = source.get_missing_ops(sink.get_state_vector()).unwrap();
    assert!(nothing.is_empty());
}

#[test]
fn missing_ops_sorted_by_op_id() {
    let mut tree = fresh();
    tree.apply_op(mv("p2", 7, "root", None, 10)).unwrap();
    tree.apply_op(mv("p1", 9, "c1", Some("root"), 20)).unwrap();
    tree.apply_op(sp("p1", 8, "root", "k", VertexPropertyType::Null)).unwrap();
    let missing = tree.get_missing_ops(Vec::new()).unwrap();
    let ids: Vec<(u64, String)> = missing
        .iter()
        .map(|op| match op {
            VertexOperation::Move(x) => (x.id.counter, x.id.peer_id.clone()),
            VertexOperation::SetProperty(x) => (x.id.counter, x.id.peer_id.clone()),
            VertexOperation::ModifyProperty(x) => (x.id.counter, x.id.peer_id.clone()),
        })
        .collect();
    assert_eq!(ids, vec![(7, "p2".to_string()), (8, "p1".to_string()), (9, "p1".to_string())]);
}

#[test]
fn reopen_over_persisted_state() {
    // Storage as a backend would hand it back after a restart: two logged
    // operations and the vertex store they materialize.
    let mut vertices = reptree::storage::MemVertexStore::new();
    let mut move_log: reptree::storage::MemLog<MoveVertex> = reptree::storage::MemLog::new();
    let mut prop_log: reptree::storage::MemLog<SetVertexProperty> = reptree::storage::MemLog::new();
    move_log
        .append(MoveVertex {
            id: OpId::new("p1".to_string(), 1),
            target_id: "root".to_string(),
            parent_id: None,
            timestamp: 1000,
        })
        .unwrap();
    prop_log
        .append(SetVertexProperty {
            id: OpId::new("p1".to_string(), 2),
            target_id: "root".to_string(),
            key: "name".to_string(),
            value: VertexPropertyType::String("Root".to_string()),
            transient: false,
        })
        .unwrap();
    vertices
        .put_vertex(EncodedVertex {
            id: "root".to_string(),
            parent_id: None,
            idx: 0,
            properties: vec![(
                "name".to_string(),
                VertexPropertyType::String("Root".to_string()),
            )],
        })
        .unwrap();
    let storage = reptree::storage::Storage::new(vertices, move_log, prop_log);
    let mut tree = RepTree::open("peer-2".to_string(), storage).unwrap();
    // The persisted record is visible from the reopened replica.
    let root = tree.get_vertex("root").unwrap().unwrap();
    assert_eq!(root.id, "root");
    assert_eq!(root.idx, 0);
    match root.get_property("name") {
        Some(VertexPropertyType::String(s)) => assert_eq!(s, "Root"),
        _ => panic!("expected a string property"),
    }
    // The rebuilt state vector acknowledges the logged identifiers: a
    // replayed operation is a no-op, not a second log record.
    let id = tree.apply_op(mv("p1", 1, "root", None, 1000)).unwrap();
    assert_eq!(id.counter, 1);
    let missing = tree.get_missing_ops(Vec::new()).unwrap();
    assert_eq!(missing.len(), 2);
}

#[test]
fn apply_ops_stops_at_first_error() {
    // The batch applies its prefix and stops at the failing operation,
    // returning no identifiers.
    let mut tree = fresh();
    let ops = vec![
        mv("p1", 1, "root", None, 1000),
        mv("p1", 2, "x", Some("nope"), 1001),
        mv("p1", 3, "y", Some("root"), 1002),
    ];
    let err = tree.apply_ops(ops).unwrap_err();
    match err {
        reptree::types::Error::VertexNotFound(v) => assert_eq!(v, "nope"),
        _ => panic!("expected a missing-vertex error"),
    }
    // The prefix before the failure is applied; the rest is not.
    assert!(tree.get_vertex("root").unwrap().is_some());
    assert!(tree.get_vertex("x").unwrap().is_none());
    assert!(tree.get_vertex("y").unwrap().is_none());
    let missing = tree.get_missing_ops(Vec::new()).unwrap();
    assert_eq!(missing.len(), 1);
}
