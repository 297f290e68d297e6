use reo::universe::{Inconsistency, Universe, UniverseError};

fn universe_with(ids: &[u32]) -> Universe {
    let mut uni = Universe::empty();
    for v in ids {
        uni.add(*v).expect("fresh vertex");
    }
    uni
}

#[test]
fn attribute_edge_gets_parent_and_copy() {
    let mut uni = universe_with(&[0, 1, 2]);
    assert!(uni.bind(10, 1, 2, "x").is_ok());
    assert_eq!(uni.find(1, "x").unwrap(), 2);
    assert_eq!(uni.find(2, "ρ").unwrap(), 1);
    assert_eq!(uni.find(2, "σ").unwrap(), 1);
    assert!(uni.inconsistencies().is_empty());
}

#[test]
fn root_edge_gets_no_back_edges() {
    let mut uni = universe_with(&[0, 1]);
    assert!(uni.bind(5, 0, 1, "x").is_ok());
    assert_eq!(uni.find(0, "x").unwrap(), 1);
    assert!(matches!(
        uni.find(1, "ρ"),
        Err(UniverseError::EdgeNotFound { from: 1, .. })
    ));
    assert!(matches!(
        uni.find(1, "σ"),
        Err(UniverseError::EdgeNotFound { from: 1, .. })
    ));
    assert!(uni.inconsistencies().is_empty());
}

#[test]
fn rebinding_keeps_the_newest_target() {
    let mut uni = universe_with(&[1, 2, 3]);
    assert!(uni.bind(1, 1, 2, "k").is_ok());
    assert!(uni.bind(10, 1, 3, "k").is_ok());
    assert_eq!(uni.find(1, "k").unwrap(), 3);
    // the replaced edge's id is free again
    assert!(uni.bind(1, 1, 3, "other").is_ok());
    assert_eq!(uni.find(1, "other").unwrap(), 3);
}

#[test]
fn empty_label_is_refused_first() {
    let mut uni = Universe::empty();
    assert!(matches!(
        uni.bind(1, 7, 8, ""),
        Err(UniverseError::EmptyLabel { from: 7, to: 8 })
    ));
    let mut uni = universe_with(&[1, 2]);
    assert!(matches!(
        uni.bind(1, 1, 2, ""),
        Err(UniverseError::EmptyLabel { from: 1, to: 2 })
    ));
}

#[test]
fn unknown_vertices_are_refused() {
    let mut uni = universe_with(&[1, 2]);
    assert!(uni.bind(1, 1, 2, "a").is_ok());
    assert!(matches!(
        uni.bind(2, 9, 2, "b"),
        Err(UniverseError::VertexNotFound { vertex: 9 })
    ));
    assert!(matches!(
        uni.bind(2, 1, 9, "a"),
        Err(UniverseError::VertexNotFound { vertex: 9 })
    ));
    assert_eq!(uni.find(1, "a").unwrap(), 2);
    assert!(uni.edge(9, "b").is_none());
    assert!(uni.inconsistencies().is_empty());
}

#[test]
fn duplicate_edge_id_is_refused() {
    let mut uni = universe_with(&[1, 2, 3]);
    assert!(uni.bind(4, 1, 2, "a").is_ok());
    assert!(matches!(
        uni.bind(4, 1, 3, "a"),
        Err(UniverseError::DuplicateEdgeId { edge: 4 })
    ));
    assert_eq!(uni.find(1, "a").unwrap(), 2);
    assert!(uni.edge(1, "b").is_none());
}

#[test]
fn exhausted_edge_ids_are_refused() {
    let mut uni = universe_with(&[1, 2]);
    assert!(matches!(
        uni.bind(u32::MAX, 1, 2, "a"),
        Err(UniverseError::EdgeIdsExhausted)
    ));
    assert!(uni.edge(1, "a").is_none());
    assert!(uni.bind(u32::MAX, 0, 0, "a").is_err());
    let mut uni = universe_with(&[0, 2]);
    assert!(uni.bind(u32::MAX, 0, 2, "a").is_ok());
    assert_eq!(uni.next_e(), None);
}

#[test]
fn existing_vertex_is_refused() {
    let mut uni = universe_with(&[3]);
    assert!(matches!(
        uni.add(3),
        Err(UniverseError::VertexExists { vertex: 3 })
    ));
    assert_eq!(uni.next_v(), Some(4));
}

#[test]
fn fresh_ids_follow_the_largest() {
    let mut uni = universe_with(&[5, 6]);
    assert_eq!(uni.next_v(), Some(7));
    assert_eq!(uni.next_e(), Some(1));
    assert!(uni.bind(20, 5, 6, "a").is_ok());
    // the parent and copy edges took 21 and 22
    assert_eq!(uni.next_e(), Some(23));
    assert!(matches!(
        uni.bind(21, 5, 6, "b"),
        Err(UniverseError::DuplicateEdgeId { edge: 21 })
    ));
    assert!(uni.bind(23, 5, 6, "b").is_ok());
    // the parent and copy edges were there already
    assert_eq!(uni.next_e(), Some(24));
}

#[test]
fn sequence_of_binds_stays_consistent() {
    let mut uni = universe_with(&[0, 1, 2, 3, 4]);
    let binds: [(u32, u32, u32, &str); 6] = [
        (1, 0, 1, "a"),
        (2, 1, 2, "b"),
        (3, 1, 2, "c"),
        (4, 2, 3, "d"),
        (5, 3, 4, "e"),
        (6, 3, 4, "e"),
    ];
    for (e, v1, v2, a) in binds {
        assert!(uni.bind(e * 10, v1, v2, a).is_ok());
        assert!(uni.inconsistencies().is_empty());
    }
    assert_eq!(uni.find(2, "ρ").unwrap(), 1);
    assert_eq!(uni.find(4, "σ").unwrap(), 3);
}

#[test]
fn second_parent_leaves_first_edge_without_parent() {
    let mut uni = universe_with(&[1, 2, 3]);
    assert!(uni.bind(10, 1, 3, "x").is_ok());
    assert!(uni.bind(20, 2, 3, "y").is_ok());
    assert_eq!(uni.find(3, "ρ").unwrap(), 2);
    let found = uni.inconsistencies();
    assert_eq!(found.len(), 2);
    assert!(matches!(found[0], Inconsistency::NoParent { edge: 10 }));
    assert!(matches!(found[1], Inconsistency::NoCopy { edge: 10 }));
    assert_eq!(found[0].text(), "edge ε10 has no ρ edge back to its source");
    assert_eq!(found[1].text(), "edge ε10 has no σ edge back to its source");
}

#[test]
fn target_with_other_parent_still_gets_back_edges() {
    let mut uni = universe_with(&[1, 2, 3]);
    assert!(uni.bind(1, 3, 2, "ρ").is_ok());
    assert!(uni.bind(2, 3, 2, "σ").is_ok());
    assert!(uni.bind(3, 1, 3, "x").is_ok());
    assert_eq!(uni.find(3, "ρ").unwrap(), 1);
    assert_eq!(uni.find(3, "σ").unwrap(), 1);
}

#[test]
fn reserved_labels_bind_no_inverses() {
    let mut uni = universe_with(&[1, 2]);
    assert!(uni.bind(1, 1, 2, "ρ").is_ok());
    assert!(uni.edge(2, "ρ").is_none());
    assert!(uni.edge(2, "σ").is_none());
    assert_eq!(uni.edge(1, "ρ"), Some(2));
    assert!(uni.inconsistencies().is_empty());
}

#[test]
fn self_loop_binds_back_to_itself() {
    let mut uni = universe_with(&[1]);
    assert!(uni.bind(1, 1, 1, "me").is_ok());
    assert_eq!(uni.find(1, "me").unwrap(), 1);
    assert_eq!(uni.find(1, "ρ").unwrap(), 1);
    assert!(uni.inconsistencies().is_empty());
}

#[test]
fn missing_edge_is_reported_with_its_label() {
    let uni = universe_with(&[1]);
    match uni.find(1, "nope") {
        Err(UniverseError::EdgeNotFound { from, label }) => {
            assert_eq!(from, 1);
            assert_eq!(label, "nope");
        }
        other => panic!("unexpected {:?}", other),
    }
}

#[test]
fn findings_read_as_sentences() {
    let lost = Inconsistency::LostVertex { edge: 7, vertex: 1203 };
    assert_eq!(lost.text(), "edge ε7 touches ν1203, which is not in the universe");
    let shared = Inconsistency::SharedLabel { first: 0, second: 4294967295 };
    assert_eq!(
        shared.text(),
        "edges ε0 and ε4294967295 leave one vertex under one label"
    );
}
