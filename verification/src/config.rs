//! Per-package and workspace-global configuration with inheritance.
//!
//! A [`WorkspaceConfig`] maps package names to their [`CrateConfig`]s and
//! keeps workspace-wide defaults for `max_combo_size` and
//! `skip_optional_deps`.  [`WorkspaceConfig::get`] resolves the view for
//! one package: the two defaultable settings fall back from the package
//! entry to the global one, while rules are never inherited.

use crate::schema;
use vstd::prelude::*;

verus! {

/// The resolved configuration of one package, borrowing its rules from
/// the workspace configuration it was resolved from.
pub struct Config<'a> {
    max_combo_size: Option<usize>,
    skip_optional_deps: bool,
    rules: &'a Vec<schema::Rule>,
}

impl<'a> Config<'a> {
    /// The resolved maximum combination size.
    pub closed spec fn max_combo_size_spec(self) -> Option<usize> {
        self.max_combo_size
    }

    /// The resolved optional-dependency filtering flag.
    pub closed spec fn skip_optional_deps_spec(self) -> bool {
        self.skip_optional_deps
    }

    /// The package's rules.
    pub closed spec fn rules_spec(self) -> Seq<schema::Rule> {
        self.rules@
    }

    /// The maximum combination size; defaults to `None`.
    pub fn max_combo_size(&self) -> (r: Option<usize>)
        ensures
            r == self.max_combo_size_spec(),
    {
        self.max_combo_size
    }

    /// Whether optional-dependency features are skipped; defaults to false.
    pub fn skip_optional_deps(&self) -> (r: bool)
        ensures
            r == self.skip_optional_deps_spec(),
    {
        self.skip_optional_deps
    }

    /// The rules for this package; defaults to an empty list.
    pub fn rules(&self) -> (r: &'a Vec<schema::Rule>)
        ensures
            r@ == self.rules_spec(),
    {
        self.rules
    }
}

/// The configuration of one package as read from its own file.
pub struct CrateConfig {
    max_combo_size: Option<usize>,
    skip_optional_deps: Option<bool>,
    rules: Vec<schema::Rule>,
}

impl CrateConfig {
    /// The package's own maximum combination size, if set.
    pub closed spec fn max_combo_size_spec(self) -> Option<usize> {
        self.max_combo_size
    }

    /// The package's own filtering flag, if set.
    pub closed spec fn skip_optional_deps_spec(self) -> Option<bool> {
        self.skip_optional_deps
    }

    /// The package's rules.
    pub closed spec fn rules_spec(self) -> Seq<schema::Rule> {
        self.rules@
    }

    /// Adopts a parsed configuration file as a per-package configuration.
    pub fn from_schema(value: schema::Config) -> (r: CrateConfig)
        ensures
            r == crate_config_of(value),
            r.max_combo_size_spec() == value.max_combo_size,
            r.skip_optional_deps_spec() == value.skip_optional_deps,
            r.rules_spec() == value.rules@,
    {
        let schema::Config { max_combo_size, skip_optional_deps, rules } = value;
        CrateConfig { max_combo_size, skip_optional_deps, rules }
    }
}

/// All per-package configurations plus the workspace-global defaults.
pub struct WorkspaceConfig {
    crates: Vec<(String, CrateConfig)>,
    max_combo_size: Option<usize>,
    skip_optional_deps: Option<bool>,
    /// The empty rule list handed out for packages without an entry.
    no_rules: Vec<schema::Rule>,
}

/// The first entry with the given name, if any.
pub open spec fn find_crate(s: Seq<(String, CrateConfig)>, name: Seq<char>) -> Option<
    CrateConfig,
>
    decreases s.len(),
{
    if s.len() == 0 {
        None
    } else if s[0].0@ == name {
        Some(s[0].1)
    } else {
        find_crate(s.drop_first(), name)
    }
}

impl WorkspaceConfig {
    /// The per-package entries.
    pub closed spec fn crates_spec(self) -> Seq<(String, CrateConfig)> {
        self.crates@
    }

    /// The global default maximum combination size.
    pub closed spec fn max_combo_size_spec(self) -> Option<usize> {
        self.max_combo_size
    }

    /// The global default filtering flag.
    pub closed spec fn skip_optional_deps_spec(self) -> Option<bool> {
        self.skip_optional_deps
    }

    /// The rule list handed out for packages without an entry.
    pub closed spec fn no_rules_spec(self) -> Seq<schema::Rule> {
        self.no_rules@
    }

    /// Builds a workspace configuration from per-package entries and the
    /// global defaults file.  Rules in the global configuration are
    /// ignored: they are not inherited.
    pub fn new(crates: Vec<(String, CrateConfig)>, global: schema::Config) -> (r:
        WorkspaceConfig)
        ensures
            r.crates_spec() == crates@,
            r.max_combo_size_spec() == global.max_combo_size,
            r.skip_optional_deps_spec() == global.skip_optional_deps,
            r.no_rules_spec() == Seq::<schema::Rule>::empty(),
    {
        let schema::Config { max_combo_size, skip_optional_deps, rules: _ } = global;
        WorkspaceConfig { crates, max_combo_size, skip_optional_deps, no_rules: Vec::new() }
    }

    /// Creates a workspace configuration with no entries and no defaults.
    pub fn empty() -> (r: WorkspaceConfig)
        ensures
            r.crates_spec() == Seq::<(String, CrateConfig)>::empty(),
            r.max_combo_size_spec() is None,
            r.skip_optional_deps_spec() is None,
            r.no_rules_spec() == Seq::<schema::Rule>::empty(),
    {
        WorkspaceConfig {
            crates: Vec::new(),
            max_combo_size: None,
            skip_optional_deps: None,
            no_rules: Vec::new(),
        }
    }

    /// Resolves the configuration view for one package: the defaultable
    /// settings fall back from the package entry to the global defaults,
    /// and the rules come from the package entry alone.
    pub fn get<'a>(&'a self, name: &String) -> (r: Config<'a>)
        ensures
            ({
                match find_crate(self.crates_spec(), name@) {
                    Some(c) => {
                        &&& r.max_combo_size_spec() == (if c.max_combo_size_spec() is Some {
                            c.max_combo_size_spec()
                        } else {
                            self.max_combo_size_spec()
                        })
                        &&& r.skip_optional_deps_spec() == (if c.skip_optional_deps_spec()
                            is Some {
                            c.skip_optional_deps_spec()->0
                        } else if self.skip_optional_deps_spec() is Some {
                            self.skip_optional_deps_spec()->0
                        } else {
                            false
                        })
                        &&& r.rules_spec() == c.rules_spec()
                    },
                    None => {
                        &&& r.max_combo_size_spec() == self.max_combo_size_spec()
                        &&& r.skip_optional_deps_spec() == (if self.skip_optional_deps_spec()
                            is Some {
                            self.skip_optional_deps_spec()->0
                        } else {
                            false
                        })
                        &&& r.rules_spec() == self.no_rules_spec()
                    },
                }
            }),
    {
        proof {
            assert(self.crates@.subrange(0, self.crates@.len() as int) =~= self.crates@);
        }
        let mut i: usize = 0;
        while i < self.crates.len()
            invariant
                0 <= i <= self.crates@.len(),
                find_crate(self.crates@, name@) == find_crate(
                    self.crates@.subrange(i as int, self.crates@.len() as int),
                    name@,
                ),
            decreases self.crates@.len() - i,
        {
            let ghost rest = self.crates@.subrange(i as int, self.crates@.len() as int);
            if self.crates[i].0.eq(name) {
                proof {
                    assert(rest[0] == self.crates@[i as int]);
                }
                let c = &self.crates[i].1;
                let max = match c.max_combo_size {
                    Some(m) => Some(m),
                    None => self.max_combo_size,
                };
                let skip = match c.skip_optional_deps {
                    Some(s) => s,
                    None => match self.skip_optional_deps {
                        Some(s) => s,
                        None => false,
                    },
                };
                return Config { max_combo_size: max, skip_optional_deps: skip, rules: &c.rules };
            }
            proof {
                assert(rest[0] == self.crates@[i as int]);
                assert(rest.drop_first() =~= self.crates@.subrange(
                    i + 1,
                    self.crates@.len() as int,
                ));
            }
            i = i + 1;
        }
        proof {
            assert(self.crates@.subrange(
                self.crates@.len() as int,
                self.crates@.len() as int,
            ) =~= Seq::<(String, CrateConfig)>::empty());
        }
        let skip = match self.skip_optional_deps {
            Some(s) => s,
            None => false,
        };
        Config {
            max_combo_size: self.max_combo_size,
            skip_optional_deps: skip,
            rules: &self.no_rules,
        }
    }
}

/// The per-package configuration a parsed file turns into.
pub closed spec fn crate_config_of(value: schema::Config) -> CrateConfig {
    CrateConfig {
        max_combo_size: value.max_combo_size,
        skip_optional_deps: value.skip_optional_deps,
        rules: value.rules,
    }
}

/// A configuration file that cannot be accepted: a file without a name,
/// or a global file that defines rules.
pub open spec fn bad_config_file(f: (String, schema::Config)) -> bool {
    f.0@.len() == 0 || (f.0@ == "global"@ && f.1.rules@.len() > 0)
}

/// The error reported for an unacceptable configuration file.
pub open spec fn config_file_err(f: (String, schema::Config)) -> crate::rule::InvalidConfigError {
    if f.0@.len() == 0 {
        crate::rule::InvalidConfigError::EmptyFileName
    } else {
        crate::rule::InvalidConfigError::GlobalDefinesRules
    }
}

/// The per-package entries of a list of parsed files: every non-global
/// file, keyed by its name, in order.
pub open spec fn built_crates(files: Seq<(String, schema::Config)>) -> Seq<(String, CrateConfig)>
    decreases files.len(),
{
    if files.len() == 0 {
        Seq::<(String, CrateConfig)>::empty()
    } else {
        let rest = built_crates(files.drop_last());
        let f = files.last();
        if f.0@ == "global"@ {
            rest
        } else {
            rest.push((f.0, crate_config_of(f.1)))
        }
    }
}

/// The workspace-global defaults of a list of parsed files: those of the
/// last global file, or none.
pub open spec fn built_globals(files: Seq<(String, schema::Config)>) -> (
    Option<usize>,
    Option<bool>,
)
    decreases files.len(),
{
    if files.len() == 0 {
        (None::<usize>, None::<bool>)
    } else if files.last().0@ == "global"@ {
        (files.last().1.max_combo_size, files.last().1.skip_optional_deps)
    } else {
        built_globals(files.drop_last())
    }
}

/// Exec comparison of a file name against the distinguished global name.
fn is_global_name(name: &String) -> (r: bool)
    ensures
        r == (name@ == "global"@),
{
    let g: String = String::from_str("global");
    name.eq(&g)
}

/// Builds the workspace configuration from parsed configuration files,
/// each given as its base file name and parsed contents, in directory
/// order.  Every non-global file configures the package of its name; the
/// file named `global` supplies the defaults and must not define rules.
/// The first unacceptable file is reported.
pub fn build_workspace_config(files: Vec<(String, schema::Config)>) -> (r: Result<
    WorkspaceConfig,
    crate::rule::InvalidConfigError,
>)
    ensures
        r is Ok <==> (forall|i: int| 0 <= i < files@.len() ==> !bad_config_file(
            #[trigger] files@[i],
        )),
        r is Ok ==> ({
            let wc = r->Ok_0;
            &&& wc.crates_spec() == built_crates(files@)
            &&& wc.max_combo_size_spec() == built_globals(files@).0
            &&& wc.skip_optional_deps_spec() == built_globals(files@).1
            &&& wc.no_rules_spec() == Seq::<schema::Rule>::empty()
        }),
        r is Err ==> exists|i: int|
            0 <= i < files@.len() && bad_config_file(#[trigger] files@[i]) && r->Err_0
                == config_file_err(files@[i]) && (forall|j: int| 0 <= j < i ==> !bad_config_file(
                #[trigger] files@[j],
            )),
{
    let ghost orig = files@;
    let mut rem = files;
    let mut crates: Vec<(String, CrateConfig)> = Vec::new();
    let mut max_combo_size: Option<usize> = None;
    let mut skip_optional_deps: Option<bool> = None;
    let ghost mut processed = Seq::<(String, schema::Config)>::empty();
    proof {
        assert(orig =~= processed + rem@);
        assert(built_crates(processed) =~= Seq::<(String, CrateConfig)>::empty());
    }
    while rem.len() > 0
        invariant
            orig == files@,
            orig == processed + rem@,
            forall|j: int| 0 <= j < processed.len() ==> !bad_config_file(
                #[trigger] processed[j],
            ),
            crates@ == built_crates(processed),
            max_combo_size == built_globals(processed).0,
            skip_optional_deps == built_globals(processed).1,
        decreases rem@.len(),
    {
        let ghost rem0 = rem@;
        let (name, config) = rem.remove(0);
        proof {
            assert(rem@ =~= rem0.drop_first());
            assert(orig =~= (processed + seq![rem0[0]]) + rem@);
            assert(rem0[0] == (name, config));
        }
        if name.as_str().unicode_len() == 0 {
            proof {
                assert(processed =~= orig.subrange(0, processed.len() as int));
                lemma_bad_file_witness(orig, processed.len() as int, processed);
                assert(orig[processed.len() as int] == (name, config));
            }
            return Err(crate::rule::InvalidConfigError::EmptyFileName);
        }
        let ghost processed2 = processed + seq![(name, config)];
        proof {
            assert(processed2.drop_last() =~= processed);
            assert(processed2.last() == (name, config));
        }
        if is_global_name(&name) {
            if config.rules.len() > 0 {
                proof {
                    assert(processed =~= orig.subrange(0, processed.len() as int));
                    lemma_bad_file_witness(orig, processed.len() as int, processed);
                    assert(orig[processed.len() as int] == (name, config));
                }
                return Err(crate::rule::InvalidConfigError::GlobalDefinesRules);
            }
            max_combo_size = config.max_combo_size;
            skip_optional_deps = config.skip_optional_deps;
            proof {
                processed = processed2;
            }
        } else {
            let entry = (name, CrateConfig::from_schema(config));
            crates.push(entry);
            proof {
                processed = processed2;
            }
        }
    }
    proof {
        assert(processed =~= orig);
    }
    let wc = WorkspaceConfig { crates, max_combo_size, skip_optional_deps, no_rules: Vec::new() };
    Ok(wc)
}

/// If every earlier file is acceptable and the file at `i` is not, it is
/// the first unacceptable file.
proof fn lemma_bad_file_witness(
    orig: Seq<(String, schema::Config)>,
    i: int,
    processed: Seq<(String, schema::Config)>,
)
    requires
        0 <= i < orig.len(),
        processed == orig.subrange(0, i),
        forall|j: int| 0 <= j < processed.len() ==> !bad_config_file(#[trigger] processed[j]),
    ensures
        forall|j: int| 0 <= j < i ==> !bad_config_file(#[trigger] orig[j]),
{
    assert forall|j: int| 0 <= j < i implies !bad_config_file(#[trigger] orig[j]) by {
        assert(processed[j] == orig[j]);
    }
}

} // verus!
