use flag_frenzy::config::WorkspaceConfig;
use flag_frenzy::intern::{intern_features, FeatureMap, FeatureStorage};
use flag_frenzy::schema;

#[test]
fn equal_features_are_equal_keys() {
    let storage = FeatureStorage::new();

    const FEATURE: &str = "nyan-cat";

    let (key1, key2) = (storage.create_key(FEATURE), storage.create_key(FEATURE));

    assert_eq!(
        key1, key2,
        "Hashing the same feature with the same storage does not produce the same key."
    );
}

#[test]
fn insert_and_get_feature() {
    let mut storage = FeatureStorage::new();
    let empty = FeatureMap::new();

    let keys: Vec<_> = (0..5)
        .map(|i: i32| storage.insert(i.to_string(), &empty))
        .collect();

    for i in 0..5usize {
        assert_eq!(
            storage.get(keys[i]).unwrap(),
            &i.to_string(),
            "The feature returned by `FeatureStorage::get()` is incorrect."
        );
    }
}

#[test]
fn iter_keys() {
    let mut storage = FeatureStorage::new();
    let empty = FeatureMap::new();

    let mut inserted_keys: Vec<_> = (0..10)
        .map(|i: i32| storage.insert(i.to_string(), &empty))
        .map(|k| k.0)
        .collect();

    let mut retrieved_keys: Vec<_> = storage.keys().into_iter().map(|k| k.0).collect();

    // We sort both lists to ensure that the order is equal, so that they can be compared.
    inserted_keys.sort_unstable();
    retrieved_keys.sort_unstable();

    assert_eq!(inserted_keys, retrieved_keys, "The keys returned by `FeatureStorage::insert()` are not the keys returned by `FeatureStorage::keys()`.");
}

#[test]
fn len() {
    let mut storage = FeatureStorage::new();
    let empty = FeatureMap::new();

    assert_eq!(
        storage.len(),
        0,
        "`FeatureStorage` did not start out empty."
    );

    // Insert 2 unique features.
    storage.insert("hello".to_string(), &empty);
    storage.insert("goodbye".to_string(), &empty);

    assert_eq!(
        storage.len(),
        2,
        "`FeatureStorage::len()` did not reflect the amount of features in storage."
    );

    // Insert a duplicate feature.
    storage.insert("hello".to_string(), &empty);

    assert_eq!(
        storage.len(),
        2,
        "Feature was not de-duplicated by `FeatureStorage::insert()`."
    );
}

#[test]
fn map_sub_dependencies() {
    let mut features_map = FeatureMap::new();
    features_map.insert("foo".to_string(), Vec::new());
    features_map.insert("bar".to_string(), vec!["foo".to_string()]);
    features_map.insert("foobar".to_string(), vec!["bar".to_string()]);
    features_map.insert("unrelated".to_string(), Vec::new());

    let schema_config = schema::Config::default();
    let workspace_config = WorkspaceConfig::new(Vec::new(), schema_config);
    let storage = intern_features(features_map, &workspace_config.get(&String::new()));

    let foobar_key = storage.create_key("foobar");
    let foo_key = storage.create_key("foo");
    let bar_key = storage.create_key("bar");
    let unrelated_key = storage.create_key("unrelated");
    assert_eq!(storage.len(), 4);

    assert!(storage.is_dependency(foobar_key, foo_key));
    assert!(storage.is_dependency(foobar_key, bar_key));
    assert!(!storage.is_dependency(foobar_key, unrelated_key));
    assert!(!storage.is_dependency(foobar_key, foobar_key));

    assert!(!storage.is_dependency(foo_key, foo_key));
    assert!(!storage.is_dependency(foo_key, bar_key));
    assert!(!storage.is_dependency(foo_key, foobar_key));
    assert!(!storage.is_dependency(foo_key, unrelated_key));

    assert!(storage.is_dependency(bar_key, foo_key));
    assert!(!storage.is_dependency(bar_key, foobar_key));
    assert!(!storage.is_dependency(bar_key, bar_key));
    assert!(!storage.is_dependency(bar_key, unrelated_key));

    assert!(!storage.is_dependency(unrelated_key, foo_key));
    assert!(!storage.is_dependency(unrelated_key, bar_key));
    assert!(!storage.is_dependency(unrelated_key, foobar_key));
    assert!(!storage.is_dependency(unrelated_key, unrelated_key));
}

#[test]
fn handle_self_named_dependencies() {
    let mut features_map = FeatureMap::new();
    features_map.insert("foobar".to_string(), vec!["foo".to_string()]);
    features_map.insert("foo".to_string(), vec!["dep:foo".to_string()]);

    let schema_config = schema::Config::default();
    let workspace_config = WorkspaceConfig::new(Vec::new(), schema_config);
    let storage = intern_features(features_map, &workspace_config.get(&String::new()));

    let foobar_key = storage.create_key("foobar");
    let foo_key = storage.create_key("foo");
    let dep_foo_key = storage.create_key("dep:foo");

    assert_eq!(storage.len(), 2);
    assert_eq!(storage.get(foobar_key).map(|s| s.as_str()), Some("foobar"));
    assert_eq!(storage.get(foo_key).map(|s| s.as_str()), Some("foo"));
    assert_eq!(storage.get(dep_foo_key), None);
    assert!(storage.is_dependency(foobar_key, foo_key));
    assert!(!storage.is_dependency(foo_key, foobar_key));
}

#[test]
fn filter_optional_features() {
    let mut features_map = FeatureMap::new();
    features_map.insert("foobar".to_string(), vec!["foo".to_string()]);
    features_map.insert("foo".to_string(), vec!["dep:foo".to_string()]);

    let mut schema_config = schema::Config::default();
    schema_config.skip_optional_deps = Some(true);
    let workspace_config = WorkspaceConfig::new(Vec::new(), schema_config);
    let storage = intern_features(features_map, &workspace_config.get(&String::new()));

    let foobar_key = storage.create_key("foobar");
    let foo_key = storage.create_key("foo");
    let dep_foo_key = storage.create_key("dep:foo");

    assert_eq!(storage.len(), 1);
    assert_eq!(storage.get(foobar_key).map(|s| s.as_str()), Some("foobar"));
    assert_eq!(storage.get(foo_key), None);
    assert_eq!(storage.get(dep_foo_key), None);
}

#[test]
fn insert_same_name_twice_keeps_keys() {
    // Inserting the same name twice changes neither len() nor keys().
    let mut storage = FeatureStorage::new();
    let empty = FeatureMap::new();

    let k1 = storage.insert("alpha".to_string(), &empty);
    let len_before = storage.len();
    let keys_before = storage.keys();

    let k2 = storage.insert("alpha".to_string(), &empty);

    assert_eq!(k1, k2);
    assert_eq!(storage.len(), len_before);
    assert_eq!(storage.keys(), keys_before);
}
