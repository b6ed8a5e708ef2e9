//! Rule compilation and evaluation.
//!
//! A schema rule ([`crate::schema::Rule`]) is compiled into a [`Rule`] of
//! evaluable [`FeatureExpr`] trees.  A feature-set list is read left to
//! right: every item is joined to the accumulator with an implicit AND,
//! except that the reserved word `"OR"` acts as an infix operator of equal
//! precedence.  A leading or dangling `"OR"` is a configuration error.

use crate::intern::{spec_hash, FeatureKey, FeatureStorage};
use crate::schema;
use crate::schema::{FeatureSet, TrueOrFeatureSet};
use vstd::prelude::*;

verus! {

broadcast use vstd::std_specs::vec::axiom_vec_index_decreases;

/// A schema-level configuration error.
#[derive(Clone, Copy, PartialEq, Eq, Structural, Debug)]
pub enum InvalidConfigError {
    /// A feature set begins with the reserved word `"OR"`.
    LeadingOr,
    /// An `"OR"` operator is not followed by an operand.
    DanglingOr,
    /// A configuration file has an empty name.
    EmptyFileName,
    /// The global configuration file defines rules, which are never
    /// inherited.
    GlobalDefinesRules,
}

/// A compiled, evaluable expression over feature keys.
#[derive(Debug, PartialEq)]
pub enum FeatureExpr {
    /// Always evaluates as true.
    Always,
    /// Always evaluates as false.
    Never,
    /// True iff the combination contains the key.
    Contains(FeatureKey),
    /// True iff both sub-expressions are true.
    And(Box<FeatureExpr>, Box<FeatureExpr>),
    /// True iff at least one sub-expression is true.
    Or(Box<FeatureExpr>, Box<FeatureExpr>),
}

/// The reserved infix operator word.
pub open spec fn or_marker() -> Seq<char> {
    seq!['O', 'R']
}

/// True if the item is the bare `"OR"` operator word.
pub open spec fn is_or_item(fs: FeatureSet) -> bool {
    match fs {
        FeatureSet::One(s) => s@ == or_marker(),
        FeatureSet::Many(_) => false,
    }
}

/// What a feature set compiles to: the defining equations of the
/// left-to-right fold described in the module documentation.
pub open spec fn parse_spec(fs: FeatureSet) -> Result<FeatureExpr, InvalidConfigError>
    decreases fs, 0int, 0int,
{
    match fs {
        FeatureSet::One(s) => if s@ == or_marker() {
            Err(InvalidConfigError::LeadingOr)
        } else {
            Ok(FeatureExpr::Contains(FeatureKey(spec_hash(s@))))
        },
        FeatureSet::Many(v) => if v@.len() == 0 {
            Ok(FeatureExpr::Always)
        } else {
            match parse_spec(v@[0]) {
                Err(e) => Err(e),
                Ok(acc) => parse_items_spec(v@, 1, acc),
            }
        },
    }
}

/// Folds the remaining items of a feature-set list onto `acc`.
pub open spec fn parse_items_spec(
    v: Seq<FeatureSet>,
    i: int,
    acc: FeatureExpr,
) -> Result<FeatureExpr, InvalidConfigError>
    decreases v, 1int, v.len() - i,
{
    if i < 0 || i >= v.len() {
        Ok(acc)
    } else if is_or_item(v[i]) {
        if i + 1 >= v.len() {
            Err(InvalidConfigError::DanglingOr)
        } else {
            match parse_spec(v[i + 1]) {
                Err(e) => Err(e),
                Ok(rhs) => parse_items_spec(
                    v,
                    i + 2,
                    FeatureExpr::Or(Box::new(acc), Box::new(rhs)),
                ),
            }
        }
    } else {
        match parse_spec(v[i]) {
            Err(e) => Err(e),
            Ok(x) => parse_items_spec(v, i + 1, FeatureExpr::And(Box::new(acc), Box::new(x))),
        }
    }
}

/// Schema validity of a feature set: no leading and no dangling `"OR"`.
pub open spec fn set_valid(fs: FeatureSet) -> bool
    decreases fs, 0int, 0int,
{
    match fs {
        FeatureSet::One(s) => s@ != or_marker(),
        FeatureSet::Many(v) => v@.len() == 0 || (set_valid(v@[0]) && items_valid(v@, 1)),
    }
}

/// Schema validity of the remaining items of a feature-set list.
pub open spec fn items_valid(v: Seq<FeatureSet>, i: int) -> bool
    decreases v, 1int, v.len() - i,
{
    if i < 0 || i >= v.len() {
        true
    } else if is_or_item(v[i]) {
        i + 1 < v.len() && set_valid(v[i + 1]) && items_valid(v, i + 2)
    } else {
        set_valid(v[i]) && items_valid(v, i + 1)
    }
}

/// Rule compilation is total on schema-valid feature sets, and fails with
/// a configuration error exactly on the schema-invalid ones.
pub proof fn lemma_parse_total(fs: FeatureSet)
    ensures
        parse_spec(fs) is Ok <==> set_valid(fs),
    decreases fs, 0int, 0int,
{
    match fs {
        FeatureSet::One(_) => {},
        FeatureSet::Many(v) => {
            if v@.len() > 0 {
                lemma_parse_total(v@[0]);
                if parse_spec(v@[0]) is Ok {
                    lemma_parse_items_total(v@, 1, parse_spec(v@[0])->Ok_0);
                }
            }
        },
    }
}

proof fn lemma_parse_items_total(v: Seq<FeatureSet>, i: int, acc: FeatureExpr)
    ensures
        parse_items_spec(v, i, acc) is Ok <==> items_valid(v, i),
    decreases v, 1int, v.len() - i,
{
    if 0 <= i < v.len() {
        if is_or_item(v[i]) {
            if i + 1 < v.len() {
                lemma_parse_total(v[i + 1]);
                if parse_spec(v[i + 1]) is Ok {
                    lemma_parse_items_total(
                        v,
                        i + 2,
                        FeatureExpr::Or(Box::new(acc), Box::new(parse_spec(v[i + 1])->Ok_0)),
                    );
                }
            }
        } else {
            lemma_parse_total(v[i]);
            if parse_spec(v[i]) is Ok {
                lemma_parse_items_total(
                    v,
                    i + 1,
                    FeatureExpr::And(Box::new(acc), Box::new(parse_spec(v[i])->Ok_0)),
                );
            }
        }
    }
}

/// The value of an expression on a combination of keys.
pub open spec fn eval_expr(e: FeatureExpr, combo: Seq<FeatureKey>) -> bool
    decreases e,
{
    match e {
        FeatureExpr::Always => true,
        FeatureExpr::Never => false,
        FeatureExpr::Contains(k) => combo.contains(k),
        FeatureExpr::And(l, r) => eval_expr(*l, combo) && eval_expr(*r, combo),
        FeatureExpr::Or(l, r) => eval_expr(*l, combo) || eval_expr(*r, combo),
    }
}

/// Exec test for the `"OR"` operator word.
fn is_or_exec(fs: &FeatureSet) -> (r: bool)
    ensures
        r == is_or_item(*fs),
{
    match fs {
        FeatureSet::One(s) => {
            let slice = s.as_str();
            if slice.unicode_len() != 2 {
                proof {
                    assert(s@ != or_marker());
                }
                return false;
            }
            let r = slice.get_char(0) == 'O' && slice.get_char(1) == 'R';
            proof {
                if r {
                    assert(s@ =~= or_marker());
                } else {
                    assert(s@ != or_marker()) by {
                        if s@ == or_marker() {
                            assert(s@[0] == 'O' && s@[1] == 'R');
                        }
                    }
                }
            }
            r
        },
        FeatureSet::Many(_) => false,
    }
}

impl FeatureExpr {
    /// Compiles a feature set into an expression; the storage supplies
    /// the key of each named feature.
    pub fn parse(schema: &FeatureSet, storage: &FeatureStorage) -> (r: Result<
        FeatureExpr,
        InvalidConfigError,
    >)
        ensures
            r == parse_spec(*schema),
        decreases *schema,
    {
        match schema {
            FeatureSet::One(s) => {
                if is_or_exec(schema) {
                    Err(InvalidConfigError::LeadingOr)
                } else {
                    let key = storage.create_key(s.as_str());
                    Ok(FeatureExpr::Contains(key))
                }
            },
            FeatureSet::Many(sets) => {
                if sets.len() == 0 {
                    return Ok(FeatureExpr::Always);
                }
                let mut acc = match Self::parse(&sets[0], storage) {
                    Ok(a) => a,
                    Err(e) => {
                        return Err(e);
                    },
                };
                let mut i: usize = 1;
                while i < sets.len()
                    invariant
                        1 <= i <= sets@.len() + 1,
                        *schema == FeatureSet::Many(*sets),
                        parse_spec(*schema) == parse_items_spec(sets@, i as int, acc),
                    decreases sets@.len() - i,
                {
                    proof {
                        assert(decreases_to!(FeatureSet::Many(*sets) => *sets));
                        assert(decreases_to!(*sets => sets[i as int]));
                        if i + 1 < sets.len() {
                            assert(decreases_to!(*sets => sets[i + 1]));
                        }
                    }
                    if is_or_exec(&sets[i]) {
                        if i + 1 >= sets.len() {
                            return Err(InvalidConfigError::DanglingOr);
                        }
                        let rhs = match Self::parse(&sets[i + 1], storage) {
                            Ok(x) => x,
                            Err(e) => {
                                return Err(e);
                            },
                        };
                        acc = FeatureExpr::Or(Box::new(acc), Box::new(rhs));
                        i = i + 2;
                    } else {
                        let x = match Self::parse(&sets[i], storage) {
                            Ok(x) => x,
                            Err(e) => {
                                return Err(e);
                            },
                        };
                        acc = FeatureExpr::And(Box::new(acc), Box::new(x));
                        i = i + 1;
                    }
                }
                Ok(acc)
            },
        }
    }

    /// Evaluates this expression for a given combination.
    pub fn evaluate(&self, combo: &[FeatureKey]) -> (r: bool)
        ensures
            r == eval_expr(*self, combo@),
        decreases *self,
    {
        match self {
            FeatureExpr::Always => true,
            FeatureExpr::Never => false,
            FeatureExpr::Contains(key) => contains_key(combo, *key),
            FeatureExpr::And(l, r) => l.evaluate(combo) && r.evaluate(combo),
            FeatureExpr::Or(l, r) => l.evaluate(combo) || r.evaluate(combo),
        }
    }
}

/// Linear membership probe over a combination (combinations are small).
fn contains_key(combo: &[FeatureKey], key: FeatureKey) -> (r: bool)
    ensures
        r == combo@.contains(key),
{
    let mut i: usize = 0;
    while i < combo.len()
        invariant
            0 <= i <= combo@.len(),
            forall|j: int| 0 <= j < i ==> combo@[j] != key,
        decreases combo@.len() - i,
    {
        if combo[i].0 == key.0 {
            proof {
                assert(combo@[i as int] == key);
            }
            return true;
        }
        i = i + 1;
    }
    proof {
        if combo@.contains(key) {
            let j = choose|j: int| 0 <= j < combo@.len() && combo@[j] == key;
            assert(combo@[j] != key);
        }
    }
    false
}

/// A compiled feature rule.
#[derive(Debug, PartialEq)]
pub struct Rule {
    pub when: FeatureExpr,
    pub require: FeatureExpr,
    pub forbid: FeatureExpr,
}

/// What a schema rule compiles to: the `when` guard (absent fields
/// defaulting to `Always` for `require` and `Never` for `forbid`, and an
/// empty `forbid` list meaning "forbid nothing").
pub open spec fn rule_spec(r: schema::Rule) -> Result<Rule, InvalidConfigError> {
    let when = match r.when {
        TrueOrFeatureSet::True => Ok(FeatureExpr::Always),
        TrueOrFeatureSet::FeatureSet(fs) => parse_spec(fs),
    };
    let require = match r.require {
        Some(fs) => parse_spec(fs),
        None => Ok(FeatureExpr::Always),
    };
    let forbid = match r.forbid {
        Some(TrueOrFeatureSet::True) => Ok(FeatureExpr::Always),
        Some(TrueOrFeatureSet::FeatureSet(FeatureSet::Many(v))) => if v@.len() == 0 {
            Ok(FeatureExpr::Never)
        } else {
            parse_spec(FeatureSet::Many(v))
        },
        Some(TrueOrFeatureSet::FeatureSet(fs)) => parse_spec(fs),
        None => Ok(FeatureExpr::Never),
    };
    if when is Err {
        Err(when->Err_0)
    } else if require is Err {
        Err(require->Err_0)
    } else if forbid is Err {
        Err(forbid->Err_0)
    } else {
        Ok(Rule { when: when->Ok_0, require: require->Ok_0, forbid: forbid->Ok_0 })
    }
}

/// The value of a rule on a combination: when the guard holds, the
/// requirement must hold and the forbidden expression must not.
pub open spec fn rule_validate_spec(r: Rule, combo: Seq<FeatureKey>) -> bool {
    if eval_expr(r.when, combo) {
        eval_expr(r.require, combo) && !eval_expr(r.forbid, combo)
    } else {
        true
    }
}

impl Rule {
    /// Compiles a schema rule, resolving feature names through the given
    /// storage.
    pub fn from_schema(schema: &schema::Rule, storage: &FeatureStorage) -> (r: Result<
        Rule,
        InvalidConfigError,
    >)
        ensures
            r == rule_spec(*schema),
    {
        let when = match &schema.when {
            TrueOrFeatureSet::True => FeatureExpr::Always,
            TrueOrFeatureSet::FeatureSet(fs) => match FeatureExpr::parse(fs, storage) {
                Ok(e) => e,
                Err(e) => {
                    return Err(e);
                },
            },
        };
        let require = match &schema.require {
            Some(fs) => match FeatureExpr::parse(fs, storage) {
                Ok(e) => e,
                Err(e) => {
                    return Err(e);
                },
            },
            None => FeatureExpr::Always,
        };
        let forbid = match &schema.forbid {
            Some(TrueOrFeatureSet::True) => FeatureExpr::Always,
            Some(TrueOrFeatureSet::FeatureSet(fs)) => {
                let empty_list = match fs {
                    FeatureSet::Many(v) => v.len() == 0,
                    FeatureSet::One(_) => false,
                };
                if empty_list {
                    // `forbid = []` means "forbid nothing", not "forbid
                    // everything".
                    FeatureExpr::Never
                } else {
                    match FeatureExpr::parse(fs, storage) {
                        Ok(e) => e,
                        Err(e) => {
                            return Err(e);
                        },
                    }
                }
            },
            None => FeatureExpr::Never,
        };
        Ok(Rule { when, require, forbid })
    }

    /// Returns true if the features in a given combination pass this rule.
    pub fn validate(&self, combo: &[FeatureKey]) -> (r: bool)
        ensures
            r == rule_validate_spec(*self, combo@),
    {
        if self.when.evaluate(combo) {
            self.require.evaluate(combo) && !self.forbid.evaluate(combo)
        } else {
            true
        }
    }
}

/// Rule evaluation is pure: the result of [`Rule::validate`] is a
/// function of the rule and the combination alone, so repeated evaluation
/// on the same combination always yields the same result.
pub proof fn lemma_validate_deterministic(r: Rule, c1: Seq<FeatureKey>, c2: Seq<FeatureKey>)
    requires
        c1 == c2,
    ensures
        rule_validate_spec(r, c1) == rule_validate_spec(r, c2),
{
}

/// Whole-rule schema validity, and its totality law: a schema rule
/// compiles exactly when each of its present fields is schema-valid (an
/// empty `forbid` list being valid by special case).
pub open spec fn rule_schema_valid(r: schema::Rule) -> bool {
    let when_ok = match r.when {
        TrueOrFeatureSet::True => true,
        TrueOrFeatureSet::FeatureSet(fs) => set_valid(fs),
    };
    let require_ok = match r.require {
        Some(fs) => set_valid(fs),
        None => true,
    };
    let forbid_ok = match r.forbid {
        Some(TrueOrFeatureSet::True) => true,
        Some(TrueOrFeatureSet::FeatureSet(FeatureSet::Many(v))) => v@.len() == 0 || set_valid(
            FeatureSet::Many(v),
        ),
        Some(TrueOrFeatureSet::FeatureSet(fs)) => set_valid(fs),
        None => true,
    };
    when_ok && require_ok && forbid_ok
}

/// Rule compilation is total: every schema-valid rule compiles to a
/// [`Rule`], and every schema-invalid rule fails with a configuration
/// error.
pub proof fn lemma_rule_total(r: schema::Rule)
    ensures
        rule_spec(r) is Ok <==> rule_schema_valid(r),
{
    match r.when {
        TrueOrFeatureSet::True => {},
        TrueOrFeatureSet::FeatureSet(fs) => lemma_parse_total(fs),
    }
    match r.require {
        Some(fs) => lemma_parse_total(fs),
        None => {},
    }
    match r.forbid {
        Some(TrueOrFeatureSet::True) => {},
        Some(TrueOrFeatureSet::FeatureSet(fs)) => lemma_parse_total(fs),
        None => {},
    }
}

} // verus!
