use idstore::id_manager::{ID, IDManager1, IDManager2, IDManager3};

#[derive(Debug, PartialEq, Eq, Hash)]
struct Token(u64);

#[test]
fn id_step_counts_up() {
    let mut id: ID = Default::default();
    let zero = id;
    id.step();
    assert_ne!(id, zero);
    let one = id;
    id.step();
    assert_ne!(id, one);
    assert_ne!(id, zero);
}

#[test]
fn scenario_basic_round_trip() {
    let mut m: IDManager3<String> = IDManager3::new();
    let id_alpha = m.insert("alpha".to_string());
    let id_beta = m.insert("beta".to_string());

    let mut expected: ID = Default::default();
    assert_eq!(id_alpha, expected);
    expected.step();
    assert_eq!(id_beta, expected);
    expected.step();
    let id_two = expected;

    assert_eq!(m.get_id(&"alpha".to_string()), Some(id_alpha));
    assert_eq!(m.get_id(&"beta".to_string()), Some(id_beta));
    assert_eq!(m.get_item(id_alpha), Some(&"alpha".to_string()));
    assert_eq!(m.get_item(id_beta), Some(&"beta".to_string()));
    assert_eq!(m.get_item(id_two), None);
}

#[test]
fn scenario_remove_and_monotonicity() {
    let mut m: IDManager3<String> = IDManager3::new();
    let id_alpha = m.insert("alpha".to_string());
    let id_beta = m.insert("beta".to_string());

    assert!(m.delete(&"alpha".to_string()));
    assert_eq!(m.get_item(id_alpha), None);
    assert_eq!(m.get_id(&"alpha".to_string()), None);
    assert_eq!(m.get_item(id_beta), Some(&"beta".to_string()));

    let id_gamma = m.insert("gamma".to_string());
    // The retired identifier is not reused: the new one is a fresh, larger one.
    assert_ne!(id_gamma, id_alpha);
    assert_ne!(id_gamma, id_beta);
    let mut expected: ID = Default::default();
    expected.step();
    expected.step();
    assert_eq!(id_gamma, expected);
    assert_eq!(m.get_item(id_gamma), Some(&"gamma".to_string()));
}

#[test]
fn scenario_double_remove() {
    let mut m: IDManager3<String> = IDManager3::new();
    m.insert("alpha".to_string());
    m.insert("beta".to_string());
    assert!(m.delete(&"alpha".to_string()));
    // Removing the same value again reports absence and changes nothing.
    assert!(!m.delete(&"alpha".to_string()));
    assert_eq!(m.get_id(&"beta".to_string()).is_some(), true);
}

#[test]
fn scenario_reinsert_equal_value() {
    let mut m: IDManager3<String> = IDManager3::new();
    let id_first = m.insert("x".to_string());
    let id_second = m.insert("x".to_string());
    assert_ne!(id_first, id_second);
    // The displaced identifier no longer resolves; the value resolves only
    // to the identifier of the later insert.
    assert_eq!(m.get_item(id_first), None);
    assert_eq!(m.get_item(id_second), Some(&"x".to_string()));
    assert_eq!(m.get_id(&"x".to_string()), Some(id_second));
}

#[test]
fn scenario_non_duplicable_type() {
    // Token cannot be cloned; the sharing manager never needs it to be.
    let mut m: IDManager3<Token> = IDManager3::new();
    let id_a = m.insert(Token(7));
    let id_b = m.insert(Token(8));
    assert_eq!(m.get_id(&Token(7)), Some(id_a));
    assert_eq!(m.get_item(id_b), Some(&Token(8)));
    assert!(m.delete(&Token(7)));
    assert_eq!(m.get_id(&Token(7)), None);
}

#[test]
fn scenario_large_run_bijection() {
    let n: u64 = 10_000;
    let mut m: IDManager3<u64> = IDManager3::new();
    let mut issued: Vec<ID> = Vec::new();
    for v in 0..n {
        issued.push(m.insert(v));
    }
    // Bijection and index symmetry for every surviving association.
    for v in 0..n {
        let id = issued[v as usize];
        assert_eq!(m.get_item(id), Some(&v));
        assert_eq!(m.get_id(&v), Some(id));
    }
    // Remove every other value and re-verify.
    for v in (0..n).step_by(2) {
        assert!(m.delete(&v));
    }
    for v in 0..n {
        let id = issued[v as usize];
        if v % 2 == 0 {
            assert_eq!(m.get_item(id), None);
            assert_eq!(m.get_id(&v), None);
        } else {
            assert_eq!(m.get_item(id), Some(&v));
            assert_eq!(m.get_id(&v), Some(id));
        }
    }
    // Fresh inserts collide with no identifier ever issued.
    for v in n..n + 5_000 {
        let id = m.insert(v);
        assert!(!issued.contains(&id));
        issued.push(id);
    }
}

#[test]
fn round_trip_insert_then_lookup() {
    let mut m: IDManager3<u64> = IDManager3::new();
    m.insert(1);
    let id = m.insert(2);
    assert_eq!(m.get_id(&2), Some(id));
}

#[test]
fn empty_manager_lookups_are_absent() {
    let m: IDManager3<u64> = IDManager3::new();
    assert_eq!(m.get_id(&5), None);
    assert_eq!(m.get_item(Default::default()), None);
}

#[test]
fn empty_manager_delete_reports_false() {
    let mut m: IDManager3<u64> = IDManager3::new();
    assert!(!m.delete(&5));
}

#[test]
fn duplicating_manager_round_trip() {
    let mut m: IDManager1<String> = IDManager1::new();
    let id_a = m.insert("alpha".to_string());
    let id_b = m.insert("beta".to_string());
    assert_ne!(id_a, id_b);
    assert_eq!(m.get_id(&"alpha".to_string()), Some(id_a));
    assert_eq!(m.get_item(id_b), Some(&"beta".to_string()));
    assert!(m.delete(&"alpha".to_string()));
    assert!(!m.delete(&"alpha".to_string()));
    assert_eq!(m.get_item(id_a), None);
    let id_c = m.insert("alpha".to_string());
    assert_ne!(id_c, id_a);
    assert_ne!(id_c, id_b);
}

#[test]
fn duplicating_manager_reinsert_replaces() {
    let mut m: IDManager1<u64> = IDManager1::new();
    let id_first = m.insert(9);
    let id_second = m.insert(9);
    assert_ne!(id_first, id_second);
    assert_eq!(m.get_item(id_first), None);
    assert_eq!(m.get_item(id_second), Some(&9));
    assert_eq!(m.get_id(&9), Some(id_second));
}

#[test]
fn reference_keyed_manager_is_empty() {
    let m: IDManager2<u64> = IDManager2::new();
    assert_eq!(m.get_id(&5), None);
    assert_eq!(m.get_item(Default::default()), None);
}
