use matchqueue::participant::{string_to_role, Participant, Roles};
use matchqueue::queue_state::{JoinResult, QueueState, Requirement};

fn standard() -> Requirement {
    Requirement { tank: 1, healer: 1, dps: 3 }
}

fn p(id: u64, label: &str) -> Participant {
    Participant { id, label: label.to_owned() }
}

#[test]
fn role_names_parse_case_insensitively() {
    assert_eq!(string_to_role("tank".to_owned()), Some(Roles::Tank));
    assert_eq!(string_to_role("TaNk".to_owned()), Some(Roles::Tank));
    assert_eq!(string_to_role("HEALER".to_owned()), Some(Roles::Healer));
    assert_eq!(string_to_role("healer".to_owned()), Some(Roles::Healer));
    assert_eq!(string_to_role("dps".to_owned()), Some(Roles::DPS));
    assert_eq!(string_to_role("Dps".to_owned()), Some(Roles::DPS));
}

#[test]
fn bad_role_names_are_rejected() {
    assert_eq!(string_to_role("mage".to_owned()), None);
    assert_eq!(string_to_role("".to_owned()), None);
    assert_eq!(string_to_role("tanks".to_owned()), None);
    assert_eq!(string_to_role("tan".to_owned()), None);
    assert_eq!(string_to_role("d p s".to_owned()), None);
}

#[test]
fn duplicate_join_is_idempotent() {
    let mut q = QueueState::new(standard());
    let r1 = q.join(p(7, "Ann"), Roles::Healer);
    assert!(matches!(r1, JoinResult::Joined));
    assert_eq!(q.pool_len(Roles::Healer), 1);
    let r2 = q.join(p(7, "Ann"), Roles::Healer);
    assert!(matches!(r2, JoinResult::AlreadyQueued(Roles::Healer)));
    assert_eq!(q.pool_len(Roles::Healer), 1);
}

#[test]
fn joining_a_second_role_is_rejected_with_the_first() {
    let mut q = QueueState::new(standard());
    let r1 = q.join(p(7, "Ann"), Roles::Tank);
    assert!(matches!(r1, JoinResult::Joined));
    let r2 = q.join(p(7, "Ann"), Roles::DPS);
    assert!(matches!(r2, JoinResult::AlreadyQueued(Roles::Tank)));
    assert_eq!(q.pool_len(Roles::Tank), 1);
    assert_eq!(q.pool_len(Roles::DPS), 0);
}

#[test]
fn group_forms_exactly_at_the_threshold() {
    let mut q = QueueState::new(standard());
    assert!(matches!(q.join(p(1, "T"), Roles::Tank), JoinResult::Joined));
    assert!(matches!(q.join(p(2, "H"), Roles::Healer), JoinResult::Joined));
    assert!(matches!(q.join(p(3, "D1"), Roles::DPS), JoinResult::Joined));
    assert!(matches!(q.join(p(4, "D2"), Roles::DPS), JoinResult::Joined));
    let r = q.join(p(5, "D3"), Roles::DPS);
    match r {
        JoinResult::JoinedAndGroupFormed(g) => {
            assert_eq!(g.tank.len(), 1);
            assert_eq!(g.healer.len(), 1);
            assert_eq!(g.dps.len(), 3);
            assert_eq!(g.tank[0].id, 1);
            assert_eq!(g.healer[0].id, 2);
            assert_eq!(g.dps[0].id, 3);
            assert_eq!(g.dps[1].id, 4);
            assert_eq!(g.dps[2].id, 5);
        }
        _ => panic!("the completing join must form the group"),
    }
    assert_eq!(q.pool_len(Roles::Tank), 0);
    assert_eq!(q.pool_len(Roles::Healer), 0);
    assert_eq!(q.pool_len(Roles::DPS), 0);
}

#[test]
fn extraction_takes_the_oldest_first() {
    let mut q = QueueState::new(standard());
    assert!(matches!(q.join(p(10, "A"), Roles::DPS), JoinResult::Joined));
    assert!(matches!(q.join(p(11, "B"), Roles::DPS), JoinResult::Joined));
    assert!(matches!(q.join(p(12, "C"), Roles::DPS), JoinResult::Joined));
    assert!(matches!(q.join(p(13, "D"), Roles::DPS), JoinResult::Joined));
    assert!(matches!(q.join(p(14, "T"), Roles::Tank), JoinResult::Joined));
    let r = q.join(p(15, "H"), Roles::Healer);
    match r {
        JoinResult::JoinedAndGroupFormed(g) => {
            let dps_labels: Vec<&str> = g.dps.iter().map(|m| m.label.as_str()).collect();
            assert_eq!(dps_labels, vec!["A", "B", "C"]);
        }
        _ => panic!("the completing join must form the group"),
    }
    assert_eq!(q.pool_len(Roles::DPS), 1);
    let s = q.snapshot();
    assert_eq!(s.dps, vec!["D".to_owned()]);
    assert!(s.tank.is_empty());
    assert!(s.healer.is_empty());
}

#[test]
fn leave_removes_exactly_one_entry() {
    let mut q = QueueState::new(standard());
    let r = q.join_by_name(21, "Ann".to_owned(), "Healer".to_owned());
    assert!(matches!(r, JoinResult::Joined));
    assert!(matches!(q.join(p(22, "Bob"), Roles::DPS), JoinResult::Joined));
    assert!(q.leave(21));
    assert_eq!(q.pool_len(Roles::Healer), 0);
    assert_eq!(q.pool_len(Roles::DPS), 1);
    assert_eq!(q.pool_len(Roles::Tank), 0);
    assert!(!q.leave(21));
    assert_eq!(q.pool_len(Roles::DPS), 1);
}

#[test]
fn join_by_name_rejects_unknown_roles() {
    let mut q = QueueState::new(standard());
    let r = q.join_by_name(31, "Eve".to_owned(), "bard".to_owned());
    assert!(matches!(r, JoinResult::InvalidRole));
    assert_eq!(q.pool_len(Roles::Tank), 0);
    assert_eq!(q.pool_len(Roles::Healer), 0);
    assert_eq!(q.pool_len(Roles::DPS), 0);
    let r2 = q.join_by_name(31, "Eve".to_owned(), "TANK".to_owned());
    assert!(matches!(r2, JoinResult::Joined));
    assert_eq!(q.pool_len(Roles::Tank), 1);
}

#[test]
fn try_form_group_is_all_or_nothing() {
    let mut q = QueueState::new(standard());
    assert!(matches!(q.join(p(1, "T"), Roles::Tank), JoinResult::Joined));
    assert!(matches!(q.join(p(2, "H"), Roles::Healer), JoinResult::Joined));
    assert!(matches!(q.join(p(3, "D1"), Roles::DPS), JoinResult::Joined));
    assert!(matches!(q.join(p(4, "D2"), Roles::DPS), JoinResult::Joined));
    assert!(q.try_form_group().is_none());
    assert_eq!(q.pool_len(Roles::Tank), 1);
    assert_eq!(q.pool_len(Roles::Healer), 1);
    assert_eq!(q.pool_len(Roles::DPS), 2);
}

#[test]
fn exact_fill_forms_exactly_one_group() {
    let mut q = QueueState::new(standard());
    let calls = [
        (p(1, "D1"), Roles::DPS),
        (p(2, "T"), Roles::Tank),
        (p(3, "D2"), Roles::DPS),
        (p(4, "H"), Roles::Healer),
        (p(5, "D3"), Roles::DPS),
    ];
    let mut formed = 0;
    for (who, role) in calls {
        match q.join(who, role) {
            JoinResult::JoinedAndGroupFormed(_) => formed += 1,
            JoinResult::Joined => {}
            _ => panic!("every caller is fresh"),
        }
    }
    assert_eq!(formed, 1);
    assert_eq!(q.pool_len(Roles::Tank), 0);
    assert_eq!(q.pool_len(Roles::Healer), 0);
    assert_eq!(q.pool_len(Roles::DPS), 0);
}

#[test]
fn snapshot_reports_labels_in_arrival_order() {
    let mut q = QueueState::new(standard());
    assert!(matches!(q.join(p(1, "Ann"), Roles::DPS), JoinResult::Joined));
    assert!(matches!(q.join(p(2, "Bob"), Roles::DPS), JoinResult::Joined));
    assert!(matches!(q.join(p(3, "Cid"), Roles::Tank), JoinResult::Joined));
    let s = q.snapshot();
    assert_eq!(s.tank, vec!["Cid".to_owned()]);
    assert!(s.healer.is_empty());
    assert_eq!(s.dps, vec!["Ann".to_owned(), "Bob".to_owned()]);
}

#[test]
fn requirement_is_immutable_and_readable() {
    let q = QueueState::new(standard());
    let r = q.requirement();
    assert_eq!(r.required(Roles::Tank), 1);
    assert_eq!(r.required(Roles::Healer), 1);
    assert_eq!(r.required(Roles::DPS), 3);
}

#[test]
fn wider_compositions_drain_only_the_required_counts() {
    let mut q = QueueState::new(Requirement { tank: 2, healer: 1, dps: 1 });
    assert!(matches!(q.join(p(1, "T1"), Roles::Tank), JoinResult::Joined));
    assert!(matches!(q.join(p(2, "T2"), Roles::Tank), JoinResult::Joined));
    assert!(matches!(q.join(p(3, "T3"), Roles::Tank), JoinResult::Joined));
    assert!(matches!(q.join(p(4, "H"), Roles::Healer), JoinResult::Joined));
    let r = q.join(p(5, "D"), Roles::DPS);
    match r {
        JoinResult::JoinedAndGroupFormed(g) => {
            assert_eq!(g.tank.len(), 2);
            assert_eq!(g.tank[0].id, 1);
            assert_eq!(g.tank[1].id, 2);
        }
        _ => panic!("the completing join must form the group"),
    }
    assert_eq!(q.pool_len(Roles::Tank), 1);
    let s = q.snapshot();
    assert_eq!(s.tank, vec!["T3".to_owned()]);
}
