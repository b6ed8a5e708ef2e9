use flag_frenzy::intern::{FeatureMap, FeatureStorage};
use flag_frenzy::rule::{FeatureExpr, InvalidConfigError, Rule};
use flag_frenzy::schema::{self, FeatureSet, TrueOrFeatureSet};

fn one(name: &str) -> FeatureSet {
    FeatureSet::One(name.to_string())
}

#[test]
fn rule_from_schema() {
    let mut storage = FeatureStorage::new();
    let empty_map = FeatureMap::new();

    let foo = storage.insert("foo".to_string(), &empty_map);
    let bar = storage.insert("bar".to_string(), &empty_map);
    let baz = storage.insert("baz".to_string(), &empty_map);

    let empty = Rule::from_schema(
        &schema::Rule {
            when: TrueOrFeatureSet::True,
            require: None,
            forbid: None,
        },
        &storage,
    )
    .unwrap();

    assert_eq!(
        empty,
        Rule {
            when: FeatureExpr::Always,
            require: FeatureExpr::Always,
            forbid: FeatureExpr::Never,
        }
    );

    let always_forbid = Rule::from_schema(
        &schema::Rule {
            when: TrueOrFeatureSet::True,
            require: None,
            forbid: Some(TrueOrFeatureSet::True),
        },
        &storage,
    )
    .unwrap();

    assert_eq!(
        always_forbid,
        Rule {
            when: FeatureExpr::Always,
            require: FeatureExpr::Always,
            forbid: FeatureExpr::Always,
        }
    );

    let empty_forbid = Rule::from_schema(
        &schema::Rule {
            when: TrueOrFeatureSet::True,
            require: None,
            forbid: Some(TrueOrFeatureSet::FeatureSet(FeatureSet::Many(Vec::new()))),
        },
        &storage,
    )
    .unwrap();

    assert_eq!(
        empty_forbid,
        Rule {
            when: FeatureExpr::Always,
            require: FeatureExpr::Always,
            forbid: FeatureExpr::Never,
        }
    );

    let normal = Rule::from_schema(
        &schema::Rule {
            when: TrueOrFeatureSet::FeatureSet(one("foo")),
            require: Some(one("bar")),
            forbid: Some(TrueOrFeatureSet::FeatureSet(one("baz"))),
        },
        &storage,
    )
    .unwrap();

    assert_eq!(
        normal,
        Rule {
            when: FeatureExpr::Contains(foo),
            require: FeatureExpr::Contains(bar),
            forbid: FeatureExpr::Contains(baz),
        }
    );
}

#[test]
fn rule_validate() {
    let mut storage = FeatureStorage::new();
    let empty_map = FeatureMap::new();

    let foo = storage.insert("foo".to_string(), &empty_map);
    let bar = storage.insert("bar".to_string(), &empty_map);
    let baz = storage.insert("baz".to_string(), &empty_map);

    let always_deny_foo = Rule {
        when: FeatureExpr::Always,
        require: FeatureExpr::Always,
        forbid: FeatureExpr::Contains(foo),
    };

    assert!(!always_deny_foo.validate(&[foo]));
    assert!(always_deny_foo.validate(&[]));
    assert!(always_deny_foo.validate(&[bar, baz]));

    let require_bar_or_baz_when_foo = Rule {
        when: FeatureExpr::Contains(foo),
        require: FeatureExpr::Or(
            Box::new(FeatureExpr::Contains(bar)),
            Box::new(FeatureExpr::Contains(baz)),
        ),
        forbid: FeatureExpr::Never,
    };

    assert!(require_bar_or_baz_when_foo.validate(&[]));
    assert!(!require_bar_or_baz_when_foo.validate(&[foo]));
    assert!(require_bar_or_baz_when_foo.validate(&[foo, bar]));
    assert!(require_bar_or_baz_when_foo.validate(&[foo, bar, baz]));

    let bar_baz_incompatible = Rule {
        when: FeatureExpr::And(
            Box::new(FeatureExpr::Contains(bar)),
            Box::new(FeatureExpr::Contains(baz)),
        ),
        require: FeatureExpr::Always,
        forbid: FeatureExpr::Always,
    };

    assert!(bar_baz_incompatible.validate(&[]));
    assert!(bar_baz_incompatible.validate(&[bar]));
    assert!(bar_baz_incompatible.validate(&[baz]));
    assert!(!bar_baz_incompatible.validate(&[bar, baz]));
}

#[test]
fn parse_expression() {
    let mut storage = FeatureStorage::new();
    let empty_map = FeatureMap::new();

    let foo = storage.insert("foo".to_string(), &empty_map);
    let bar = storage.insert("bar".to_string(), &empty_map);
    let baz = storage.insert("baz".to_string(), &empty_map);

    let empty = FeatureExpr::parse(&FeatureSet::Many(vec![]), &storage).unwrap();

    assert_eq!(empty, FeatureExpr::Always);

    let one_expr = FeatureExpr::parse(&one("foo"), &storage).unwrap();

    assert_eq!(one_expr, FeatureExpr::Contains(foo));

    let and_2 =
        FeatureExpr::parse(&FeatureSet::Many(vec![one("foo"), one("bar")]), &storage).unwrap();

    assert_eq!(
        and_2,
        FeatureExpr::And(
            Box::new(FeatureExpr::Contains(foo)),
            Box::new(FeatureExpr::Contains(bar)),
        ),
    );

    let and_3 = FeatureExpr::parse(
        &FeatureSet::Many(vec![one("foo"), one("bar"), one("baz")]),
        &storage,
    )
    .unwrap();

    assert_eq!(
        and_3,
        FeatureExpr::And(
            Box::new(FeatureExpr::And(
                Box::new(FeatureExpr::Contains(foo)),
                Box::new(FeatureExpr::Contains(bar)),
            )),
            Box::new(FeatureExpr::Contains(baz)),
        ),
    );

    let or_2 = FeatureExpr::parse(
        &FeatureSet::Many(vec![one("foo"), one("OR"), one("bar")]),
        &storage,
    )
    .unwrap();

    assert_eq!(
        or_2,
        FeatureExpr::Or(
            Box::new(FeatureExpr::Contains(foo)),
            Box::new(FeatureExpr::Contains(bar)),
        ),
    );

    let or_3 = FeatureExpr::parse(
        &FeatureSet::Many(vec![
            one("foo"),
            one("OR"),
            one("bar"),
            one("OR"),
            one("baz"),
        ]),
        &storage,
    )
    .unwrap();

    assert_eq!(
        or_3,
        FeatureExpr::Or(
            Box::new(FeatureExpr::Or(
                Box::new(FeatureExpr::Contains(foo)),
                Box::new(FeatureExpr::Contains(bar)),
            )),
            Box::new(FeatureExpr::Contains(baz)),
        ),
    );

    // Evaluated left-to-right, equivalent to `(foo || bar) && baz`.
    let and_or_mixed = FeatureExpr::parse(
        &FeatureSet::Many(vec![one("foo"), one("OR"), one("bar"), one("baz")]),
        &storage,
    )
    .unwrap();

    assert_eq!(
        and_or_mixed,
        FeatureExpr::And(
            Box::new(FeatureExpr::Or(
                Box::new(FeatureExpr::Contains(foo)),
                Box::new(FeatureExpr::Contains(bar)),
            )),
            Box::new(FeatureExpr::Contains(baz)),
        ),
    );

    // The square brackets get evaluated first, equivalent to `foo || (bar && baz)`.
    let explicit_oop = FeatureExpr::parse(
        &FeatureSet::Many(vec![
            one("foo"),
            one("OR"),
            FeatureSet::Many(vec![one("bar"), one("baz")]),
        ]),
        &storage,
    )
    .unwrap();

    assert_eq!(
        explicit_oop,
        FeatureExpr::Or(
            Box::new(FeatureExpr::Contains(foo)),
            Box::new(FeatureExpr::And(
                Box::new(FeatureExpr::Contains(bar)),
                Box::new(FeatureExpr::Contains(baz)),
            )),
        ),
    );

    let depth_unwinding = FeatureExpr::parse(
        &FeatureSet::Many(vec![FeatureSet::Many(vec![
            FeatureSet::Many(vec![FeatureSet::Many(vec![FeatureSet::Many(vec![
                FeatureSet::Many(vec![one("foo")]),
            ])])]),
            FeatureSet::Many(vec![FeatureSet::Many(vec![FeatureSet::Many(vec![
                FeatureSet::Many(vec![FeatureSet::Many(vec![FeatureSet::Many(vec![
                    FeatureSet::Many(vec![FeatureSet::Many(vec![one("bar")])]),
                ])])]),
            ])])]),
        ])]),
        &storage,
    )
    .unwrap();

    assert_eq!(
        depth_unwinding,
        FeatureExpr::And(
            Box::new(FeatureExpr::Contains(foo)),
            Box::new(FeatureExpr::Contains(bar)),
        ),
    );
}

#[test]
fn evaluate_expression() {
    let mut storage = FeatureStorage::new();
    let empty_map = FeatureMap::new();

    let foo = storage.insert("foo".to_string(), &empty_map);
    let bar = storage.insert("bar".to_string(), &empty_map);
    let baz = storage.insert("baz".to_string(), &empty_map);

    let always = FeatureExpr::Always;

    assert!(always.evaluate(&[]));
    assert!(always.evaluate(&[foo]));

    let never = FeatureExpr::Never;

    assert!(!never.evaluate(&[]));
    assert!(!never.evaluate(&[foo]));

    let contains = FeatureExpr::Contains(foo);

    assert!(contains.evaluate(&[foo]));
    assert!(contains.evaluate(&[foo, bar]));
    assert!(!contains.evaluate(&[]));
    assert!(!contains.evaluate(&[bar]));

    let and = FeatureExpr::And(
        Box::new(FeatureExpr::Contains(foo)),
        Box::new(FeatureExpr::Contains(bar)),
    );

    assert!(and.evaluate(&[foo, bar]));
    assert!(and.evaluate(&[foo, bar, baz]));
    assert!(!and.evaluate(&[foo]));
    assert!(!and.evaluate(&[]));

    let or = FeatureExpr::Or(
        Box::new(FeatureExpr::Contains(foo)),
        Box::new(FeatureExpr::Contains(bar)),
    );

    assert!(or.evaluate(&[foo]));
    assert!(or.evaluate(&[bar]));
    assert!(or.evaluate(&[foo, bar]));
    assert!(!or.evaluate(&[]));
}

#[test]
fn leading_or_is_rejected() {
    let storage = FeatureStorage::new();

    assert_eq!(
        FeatureExpr::parse(&one("OR"), &storage),
        Err(InvalidConfigError::LeadingOr)
    );
    assert_eq!(
        FeatureExpr::parse(&FeatureSet::Many(vec![one("OR"), one("foo")]), &storage),
        Err(InvalidConfigError::LeadingOr)
    );
}

#[test]
fn dangling_or_is_rejected() {
    let storage = FeatureStorage::new();

    assert_eq!(
        FeatureExpr::parse(&FeatureSet::Many(vec![one("foo"), one("OR")]), &storage),
        Err(InvalidConfigError::DanglingOr)
    );
}

#[test]
fn invalid_rule_fails_compilation() {
    let storage = FeatureStorage::new();

    let bad = schema::Rule {
        when: TrueOrFeatureSet::True,
        require: Some(FeatureSet::Many(vec![one("foo"), one("OR")])),
        forbid: None,
    };
    assert_eq!(
        Rule::from_schema(&bad, &storage),
        Err(InvalidConfigError::DanglingOr)
    );
}

#[test]
fn validate_is_pure() {
    // Repeated evaluation on the same combination yields identical
    // results.
    let mut storage = FeatureStorage::new();
    let empty_map = FeatureMap::new();
    let foo = storage.insert("foo".to_string(), &empty_map);
    let bar = storage.insert("bar".to_string(), &empty_map);

    let rule = Rule {
        when: FeatureExpr::Contains(foo),
        require: FeatureExpr::Contains(bar),
        forbid: FeatureExpr::Never,
    };
    let combo = [foo, bar];
    let first = rule.validate(&combo);
    for _ in 0..5 {
        assert_eq!(rule.validate(&combo), first);
    }
}
