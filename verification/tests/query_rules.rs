use docstore::query::{Comparison, Observation, Operator, QueryExecutor};

fn seen(equal: bool, ordering: Option<Comparison>, listed: Option<bool>) -> Observation {
    Observation { equal, ordering, listed }
}

#[test]
fn missing_field_matches_nothing() {
    let executor = QueryExecutor;
    for operator in [
        Operator::Eq,
        Operator::Ne,
        Operator::Gt,
        Operator::Lt,
        Operator::Gte,
        Operator::Lte,
        Operator::In,
        Operator::Nin,
    ] {
        assert!(!executor.matches_condition(&operator, None));
    }
}

#[test]
fn equality_operators() {
    let executor = QueryExecutor;
    let same = seen(true, Some(Comparison::Equal), None);
    let other = seen(false, None, None);
    assert!(executor.matches_condition(&Operator::Eq, Some(&same)));
    assert!(!executor.matches_condition(&Operator::Eq, Some(&other)));
    assert!(!executor.matches_condition(&Operator::Ne, Some(&same)));
    assert!(executor.matches_condition(&Operator::Ne, Some(&other)));
}

#[test]
fn ordering_operators() {
    let executor = QueryExecutor;
    let less = seen(false, Some(Comparison::Less), None);
    let equal = seen(true, Some(Comparison::Equal), None);
    let greater = seen(false, Some(Comparison::Greater), None);
    let unknown = seen(false, None, None);
    assert!(executor.matches_condition(&Operator::Gt, Some(&greater)));
    assert!(!executor.matches_condition(&Operator::Gt, Some(&equal)));
    assert!(!executor.matches_condition(&Operator::Gt, Some(&less)));
    assert!(executor.matches_condition(&Operator::Lt, Some(&less)));
    assert!(!executor.matches_condition(&Operator::Lt, Some(&equal)));
    assert!(executor.matches_condition(&Operator::Gte, Some(&greater)));
    assert!(executor.matches_condition(&Operator::Gte, Some(&equal)));
    assert!(!executor.matches_condition(&Operator::Gte, Some(&less)));
    assert!(executor.matches_condition(&Operator::Lte, Some(&less)));
    assert!(executor.matches_condition(&Operator::Lte, Some(&equal)));
    assert!(!executor.matches_condition(&Operator::Lte, Some(&greater)));
    for operator in [Operator::Gt, Operator::Lt, Operator::Gte, Operator::Lte] {
        assert!(!executor.matches_condition(&operator, Some(&unknown)));
    }
}

#[test]
fn membership_operators() {
    let executor = QueryExecutor;
    let listed = seen(false, None, Some(true));
    let unlisted = seen(false, None, Some(false));
    let no_list = seen(true, None, None);
    assert!(executor.matches_condition(&Operator::In, Some(&listed)));
    assert!(!executor.matches_condition(&Operator::In, Some(&unlisted)));
    assert!(!executor.matches_condition(&Operator::In, Some(&no_list)));
    assert!(!executor.matches_condition(&Operator::Nin, Some(&listed)));
    assert!(executor.matches_condition(&Operator::Nin, Some(&unlisted)));
    assert!(executor.matches_condition(&Operator::Nin, Some(&no_list)));
}

#[test]
fn all_conditions_must_be_met() {
    let executor = QueryExecutor;
    assert!(executor.matches_all_conditions(&[]));
    assert!(executor.matches_all_conditions(&[true, true, true]));
    assert!(!executor.matches_all_conditions(&[true, false, true]));
    assert!(!executor.matches_all_conditions(&[false]));
}

#[test]
fn integers_compare_by_value() {
    let executor = QueryExecutor;
    assert_eq!(executor.compare_integers(25, 30), Some(Comparison::Less));
    assert_eq!(executor.compare_integers(30, 30), Some(Comparison::Equal));
    assert_eq!(executor.compare_integers(35, 30), Some(Comparison::Greater));
    assert_eq!(executor.compare_integers(i64::MIN, i64::MAX), Some(Comparison::Less));
}
