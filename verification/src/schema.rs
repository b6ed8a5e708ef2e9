//! The configuration schema: what a per-package TOML config file holds
//! once parsed.  Parsing itself is an adapter concern; these are the plain
//! data types the engine consumes.

use vstd::prelude::*;

verus! {

/// The configuration for a specific crate.
#[derive(Debug)]
pub struct Config {
    pub max_combo_size: Option<usize>,
    pub skip_optional_deps: Option<bool>,
    pub rules: Vec<Rule>,
}

impl Default for Config {
    /// An empty configuration: no bound, no filtering, no rules.
    fn default() -> (r: Config)
        ensures
            r.max_combo_size is None,
            r.skip_optional_deps is None,
            r.rules@ == Seq::<Rule>::empty(),
    {
        Config { max_combo_size: None, skip_optional_deps: None, rules: Vec::new() }
    }
}

/// One declarative rule: `when` the guard holds, `require` must hold and
/// `forbid` must not.
#[derive(Debug, PartialEq)]
pub struct Rule {
    pub when: TrueOrFeatureSet,
    pub require: Option<FeatureSet>,
    pub forbid: Option<TrueOrFeatureSet>,
}

/// A rule field that is either the literal boolean `true` or a feature
/// set.  (`false` is rejected by the schema.)
#[derive(Debug, PartialEq)]
pub enum TrueOrFeatureSet {
    True,
    FeatureSet(FeatureSet),
}

/// A feature set: a bare feature name, or an ordered list of feature sets
/// evaluated left to right with `"OR"` as an infix operator.
#[derive(Debug, PartialEq)]
pub enum FeatureSet {
    One(String),
    Many(Vec<FeatureSet>),
}

} // verus!
