use flag_frenzy::ansi::Color;
use flag_frenzy::chunk::select_chunk;
use flag_frenzy::cli::{ColorChoice, InvalidArgumentError, CLI};
use flag_frenzy::config::{build_workspace_config, WorkspaceConfig};
use flag_frenzy::driver::{join_features, process_packages, sort_feature_names};
use flag_frenzy::intern::FeatureMap;
use flag_frenzy::manifest::{Manifest, Package};
use flag_frenzy::rule::InvalidConfigError as RuleError;
use flag_frenzy::schema;
use flag_frenzy::schema::TrueOrFeatureSet;

fn package(name: &str, feature_count: usize) -> Package {
    let mut features = FeatureMap::new();
    for i in 0..feature_count {
        features.insert(format!("feature-{i}"), Vec::new());
    }
    Package {
        name: name.to_string(),
        features,
    }
}

fn cli(package: Option<&str>, chunk: Option<usize>, total_chunks: Option<usize>) -> CLI {
    CLI {
        manifest_path: "Cargo.toml".to_string(),
        config: None,
        package: package.map(str::to_string),
        chunk,
        total_chunks,
        color: ColorChoice::Never,
        dry_run: false,
    }
}

#[test]
fn chunking_splits_by_estimated_size() {
    // Estimated sizes with a global max combo size of 1:
    // big: 1 + 99 = 100, mid-*: 1 + 9 = 10, tiny: 1 + 0 = 1.
    let global = schema::Config {
        max_combo_size: Some(1),
        skip_optional_deps: None,
        rules: vec![],
    };
    let wc = WorkspaceConfig::new(Vec::new(), global);

    let packages = || {
        vec![
            package("big", 99),
            package("mid-one", 9),
            package("mid-two", 9),
            package("tiny", 0),
        ]
    };

    let worker0 = select_chunk(2, 0, packages(), &wc);
    let names0: Vec<&str> = worker0.iter().map(|p| p.name.as_str()).collect();
    assert_eq!(names0, vec!["big"]);

    let worker1 = select_chunk(2, 1, packages(), &wc);
    let names1: Vec<&str> = worker1.iter().map(|p| p.name.as_str()).collect();
    assert_eq!(names1, vec!["mid-two", "mid-one", "tiny"]);
}

#[test]
fn cli_validate_accepts_consistent_flags() {
    assert_eq!(cli(None, None, None).validate(), Ok(()));
    assert_eq!(cli(None, Some(0), Some(2)).validate(), Ok(()));
    assert_eq!(cli(Some("pkg"), None, None).validate(), Ok(()));
}

#[test]
fn cli_validate_rejects_inconsistent_flags() {
    assert_eq!(
        cli(None, Some(0), None).validate(),
        Err(InvalidArgumentError::ChunkFlagsMismatch)
    );
    assert_eq!(
        cli(None, None, Some(2)).validate(),
        Err(InvalidArgumentError::ChunkFlagsMismatch)
    );
    assert_eq!(
        cli(None, Some(2), Some(2)).validate(),
        Err(InvalidArgumentError::ChunkOutOfRange)
    );
    assert_eq!(
        cli(Some("pkg"), Some(0), Some(2)).validate(),
        Err(InvalidArgumentError::ChunkWithPackage)
    );
}

#[test]
fn process_packages_sorts_by_name() {
    let manifest = Manifest {
        packages: vec![package("zeta", 0), package("alpha", 1), package("mid", 2)],
    };
    let wc = WorkspaceConfig::new(Vec::new(), schema::Config::default());
    let r = process_packages(manifest, &cli(None, None, None), &wc).unwrap();
    let names: Vec<&str> = r.iter().map(|p| p.name.as_str()).collect();
    assert_eq!(names, vec!["alpha", "mid", "zeta"]);
}

#[test]
fn process_packages_selects_single_package() {
    let manifest = Manifest {
        packages: vec![package("zeta", 0), package("alpha", 1)],
    };
    let wc = WorkspaceConfig::new(Vec::new(), schema::Config::default());
    let r = process_packages(manifest, &cli(Some("alpha"), None, None), &wc).unwrap();
    let names: Vec<&str> = r.iter().map(|p| p.name.as_str()).collect();
    assert_eq!(names, vec!["alpha"]);

    let manifest = Manifest {
        packages: vec![package("zeta", 0)],
    };
    let missing = process_packages(manifest, &cli(Some("missing"), None, None), &wc);
    assert!(matches!(missing, Err(InvalidArgumentError::PackageNotFound)));
}

#[test]
fn color_palettes() {
    let with_color = Color::from_color_choice(ColorChoice::Always);
    assert_eq!(with_color.reset, "\x1b[0m");
    assert_eq!(with_color.bold, "\x1b[1m");
    assert_eq!(with_color.info, "\x1b[36m");

    let plain = Color::from_color_choice(ColorChoice::Never);
    assert_eq!(plain.reset, "");
    assert_eq!(plain.error, "");
}

#[test]
fn join_features_comma_separates() {
    let names = vec!["alpha".to_string(), "beta".to_string()];
    assert_eq!(join_features(&names), "alpha,beta,");
    assert_eq!(join_features(&Vec::new()), "");
}

#[test]
fn sort_feature_names_orders_lexicographically() {
    let names = vec![
        "gamma".to_string(),
        "alpha".to_string(),
        "beta".to_string(),
    ];
    let sorted = sort_feature_names(names);
    assert_eq!(sorted, vec!["alpha", "beta", "gamma"]);
}

#[test]
fn build_workspace_config_accepts_and_resolves() {
    let global = schema::Config {
        max_combo_size: Some(4),
        skip_optional_deps: Some(true),
        rules: vec![],
    };
    let per_crate = schema::Config {
        max_combo_size: Some(2),
        skip_optional_deps: None,
        rules: vec![],
    };
    let wc = build_workspace_config(vec![
        ("global".to_string(), global),
        ("alpha".to_string(), per_crate),
    ])
    .unwrap();

    let alpha = wc.get(&"alpha".to_string());
    assert_eq!(alpha.max_combo_size(), Some(2));
    assert!(alpha.skip_optional_deps());

    let other = wc.get(&"other".to_string());
    assert_eq!(other.max_combo_size(), Some(4));
    assert!(other.skip_optional_deps());
    assert!(other.rules().is_empty());
}

#[test]
fn build_workspace_config_rejects_global_rules() {
    let global = schema::Config {
        max_combo_size: None,
        skip_optional_deps: None,
        rules: vec![schema::Rule {
            when: TrueOrFeatureSet::True,
            require: None,
            forbid: None,
        }],
    };
    assert_eq!(
        build_workspace_config(vec![("global".to_string(), global)]).err(),
        Some(RuleError::GlobalDefinesRules)
    );
}

#[test]
fn build_workspace_config_rejects_empty_name() {
    assert_eq!(
        build_workspace_config(vec![(String::new(), schema::Config::default())]).err(),
        Some(RuleError::EmptyFileName)
    );
}
