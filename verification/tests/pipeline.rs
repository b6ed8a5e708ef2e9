use flag_frenzy::config::{CrateConfig, WorkspaceConfig};
use flag_frenzy::intern::{intern_features, FeatureMap};
use flag_frenzy::pipeline::feature_combos;
use flag_frenzy::schema::{self, FeatureSet, TrueOrFeatureSet};

fn build_map(features: Vec<(&str, Vec<&str>)>) -> FeatureMap {
    let mut map = FeatureMap::new();
    for (name, deps) in features {
        map.insert(
            name.to_string(),
            deps.into_iter().map(str::to_string).collect(),
        );
    }
    map
}

/// Interns the map under the package's configuration, runs the pipeline,
/// and compares the sorted name lists against the expectation.
fn run(
    package_name: &str,
    features: Vec<(&str, Vec<&str>)>,
    crates: Vec<(&str, schema::Config)>,
    global: schema::Config,
    expected: Vec<Vec<&str>>,
) {
    let map = build_map(features);
    let crate_configs: Vec<(String, CrateConfig)> = crates
        .into_iter()
        .map(|(n, c)| (n.to_string(), CrateConfig::from_schema(c)))
        .collect();
    let wc = WorkspaceConfig::new(crate_configs, global);
    let name = package_name.to_string();
    let cfg = wc.get(&name);
    let storage = intern_features(map, &cfg);
    let mut combos: Vec<Vec<String>> = feature_combos(&storage, &cfg)
        .unwrap()
        .iter()
        .map(|combo| {
            let mut v: Vec<String> = combo
                .iter()
                .map(|key| storage.get(*key).unwrap().clone())
                .collect();
            v.sort_unstable();
            v
        })
        .collect();
    combos.sort_unstable();

    let exp: Vec<Vec<String>> = expected
        .into_iter()
        .map(|c| c.into_iter().map(str::to_string).collect())
        .collect();
    assert_eq!(combos, exp);
}

#[test]
fn test_filter_dependencies() {
    let map = build_map(vec![
        ("foo", vec![]),
        ("bar", vec!["foo"]),
        ("foobar", vec!["bar"]),
        ("unrelated", vec![]),
    ]);

    let schema_config = schema::Config {
        max_combo_size: Some(3),
        skip_optional_deps: None,
        rules: vec![],
    };
    let workspace_config = WorkspaceConfig::new(Vec::new(), schema_config);
    let storage = intern_features(map, &workspace_config.get(&String::new()));

    let mut combos: Vec<Vec<&String>> =
        feature_combos(&storage, &workspace_config.get(&"foo".to_string()))
            .unwrap()
            .iter()
            .map(|combo| {
                let mut vec: Vec<&String> = combo
                    .iter()
                    .map(|key| storage.get(*key).unwrap())
                    .collect();
                vec.sort();
                vec
            })
            .collect();
    combos.sort();

    let foo = "foo".to_string();
    let bar = "bar".to_string();
    let foobar = "foobar".to_string();
    let unrelated = "unrelated".to_string();
    let mut expected = vec![
        vec![],
        vec![&foo],
        vec![&bar],
        vec![&unrelated],
        vec![&foobar],
        vec![&unrelated, &foo],
        vec![&unrelated, &bar],
        vec![&unrelated, &foobar],
    ];
    for combo in &mut expected {
        combo.sort();
    }
    expected.sort();

    assert_eq!(combos, expected);
}

#[test]
fn parse_empty() {
    run("empty", vec![], vec![], schema::Config::default(), vec![vec![]]);
}

#[test]
fn parse_simple() {
    run(
        "simple",
        vec![("foo", vec![]), ("bar", vec![]), ("baz", vec!["bar"])],
        vec![],
        schema::Config::default(),
        vec![
            vec![],
            vec!["bar"],
            vec!["bar", "foo"],
            vec!["baz"],
            vec!["baz", "foo"],
            vec!["foo"],
        ],
    );
}

#[test]
fn parse_complex() {
    let one = |s: &str| FeatureSet::One(s.to_string());
    let rules = vec![
        schema::Rule {
            when: TrueOrFeatureSet::True,
            require: Some(one("always-required")),
            forbid: None,
        },
        schema::Rule {
            when: TrueOrFeatureSet::True,
            require: Some(FeatureSet::Many(vec![
                one("choose-required-1"),
                one("OR"),
                one("choose-required-2"),
            ])),
            forbid: None,
        },
        schema::Rule {
            when: TrueOrFeatureSet::FeatureSet(FeatureSet::Many(vec![
                one("incompatible-1"),
                one("incompatible-2"),
            ])),
            require: None,
            forbid: Some(TrueOrFeatureSet::True),
        },
    ];
    let crate_config = schema::Config {
        max_combo_size: None,
        skip_optional_deps: None,
        rules,
    };
    run(
        "complex",
        vec![
            ("always-required", vec![]),
            ("choose-required-1", vec![]),
            ("choose-required-2", vec![]),
            ("incompatible-1", vec![]),
            ("incompatible-2", vec![]),
        ],
        vec![("complex", crate_config)],
        schema::Config::default(),
        vec![
            vec!["always-required", "choose-required-1"],
            vec!["always-required", "choose-required-1", "choose-required-2"],
            vec![
                "always-required",
                "choose-required-1",
                "choose-required-2",
                "incompatible-1",
            ],
            vec![
                "always-required",
                "choose-required-1",
                "choose-required-2",
                "incompatible-2",
            ],
            vec!["always-required", "choose-required-1", "incompatible-1"],
            vec!["always-required", "choose-required-1", "incompatible-2"],
            vec!["always-required", "choose-required-2"],
            vec!["always-required", "choose-required-2", "incompatible-1"],
            vec!["always-required", "choose-required-2", "incompatible-2"],
        ],
    );
}

#[test]
fn parse_dependencies() {
    run(
        "dependencies",
        vec![
            ("simple", vec![]),
            ("empty", vec![]),
            ("dependency1", vec![]),
            ("dependency2", vec!["empty"]),
            ("dependency3", vec!["dependency1"]),
            ("contains-dependencies", vec!["dependency2", "dependency3"]),
        ],
        vec![],
        schema::Config::default(),
        vec![
            vec![],
            vec!["contains-dependencies"],
            vec!["contains-dependencies", "simple"],
            vec!["dependency1"],
            vec!["dependency1", "dependency2"],
            vec!["dependency1", "dependency2", "simple"],
            vec!["dependency1", "empty"],
            vec!["dependency1", "empty", "simple"],
            vec!["dependency1", "simple"],
            vec!["dependency2"],
            vec!["dependency2", "dependency3"],
            vec!["dependency2", "dependency3", "simple"],
            vec!["dependency2", "simple"],
            vec!["dependency3"],
            vec!["dependency3", "empty"],
            vec!["dependency3", "empty", "simple"],
            vec!["dependency3", "simple"],
            vec!["empty"],
            vec!["empty", "simple"],
            vec!["simple"],
        ],
    );
}

#[test]
fn parse_optional_dependencies_without_filtering_used_dependencies() {
    run(
        "optional-dependencies",
        vec![
            ("explicit", vec![]),
            ("implicit", vec![]),
            ("foo", vec!["used"]),
            ("used", vec!["dep:used"]),
        ],
        vec![],
        schema::Config::default(),
        vec![
            vec![],
            vec!["explicit"],
            vec!["explicit", "foo"],
            vec!["explicit", "foo", "implicit"],
            vec!["explicit", "implicit"],
            vec!["explicit", "implicit", "used"],
            vec!["explicit", "used"],
            vec!["foo"],
            vec!["foo", "implicit"],
            vec!["implicit"],
            vec!["implicit", "used"],
            vec!["used"],
        ],
    );
}

#[test]
fn parse_optional_dependencies_and_filter_used_dependencies() {
    let global = schema::Config {
        max_combo_size: None,
        skip_optional_deps: Some(true),
        rules: vec![],
    };
    run(
        "optional-dependencies",
        vec![
            ("explicit", vec![]),
            ("implicit", vec![]),
            ("foo", vec!["used"]),
            ("used", vec!["dep:used"]),
        ],
        vec![],
        global,
        vec![
            vec![],
            vec!["explicit"],
            vec!["explicit", "foo"],
            vec!["explicit", "foo", "implicit"],
            vec!["explicit", "implicit"],
            vec!["foo"],
            vec!["foo", "implicit"],
            vec!["implicit"],
        ],
    );
}

#[test]
fn simple_all_independent() {
    // Three independent features: every subset of size at most three.
    run(
        "simple",
        vec![("foo", vec![]), ("bar", vec![]), ("baz", vec![])],
        vec![],
        schema::Config::default(),
        vec![
            vec![],
            vec!["bar"],
            vec!["bar", "baz"],
            vec!["bar", "baz", "foo"],
            vec!["bar", "foo"],
            vec!["baz"],
            vec!["baz", "foo"],
            vec!["foo"],
        ],
    );
}

#[test]
fn pipeline_respects_max_combo_size() {
    let global = schema::Config {
        max_combo_size: Some(1),
        skip_optional_deps: None,
        rules: vec![],
    };
    run(
        "simple",
        vec![("foo", vec![]), ("bar", vec![])],
        vec![],
        global,
        vec![vec![], vec!["bar"], vec!["foo"]],
    );
}

#[test]
fn pipeline_reports_invalid_rule() {
    let map = build_map(vec![("foo", vec![])]);
    let bad_rule = schema::Rule {
        when: TrueOrFeatureSet::FeatureSet(FeatureSet::One("OR".to_string())),
        require: None,
        forbid: None,
    };
    let crate_config = schema::Config {
        max_combo_size: None,
        skip_optional_deps: None,
        rules: vec![bad_rule],
    };
    let wc = WorkspaceConfig::new(
        vec![(
            "broken".to_string(),
            CrateConfig::from_schema(crate_config),
        )],
        schema::Config::default(),
    );
    let cfg = wc.get(&"broken".to_string());
    let storage = intern_features(map, &cfg);
    assert!(feature_combos(&storage, &cfg).is_err());
}

#[test]
fn pipeline_yields_at_most_estimate() {
    // The pipeline never yields more combinations than the cumulative
    // binomial estimate.
    let map = build_map(vec![
        ("foo", vec![]),
        ("bar", vec!["foo"]),
        ("baz", vec![]),
        ("qux", vec!["baz"]),
    ]);
    let wc = WorkspaceConfig::new(Vec::new(), schema::Config::default());
    let cfg = wc.get(&String::new());
    let storage = intern_features(map, &cfg);
    let combos = feature_combos(&storage, &cfg).unwrap();
    let estimate = flag_frenzy::ncr::estimate_combos(storage.len() as u128, None).unwrap();
    assert!((combos.len() as u128) <= estimate);
}
