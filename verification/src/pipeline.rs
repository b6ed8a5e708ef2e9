//! The combination pipeline: enumerates every candidate feature
//! combination of a package, maps index tuples to feature keys, and keeps
//! exactly the combinations that pass every rule and contain no feature
//! together with one of its own transitive dependencies.

use crate::combos::{combo_list, is_combo, lemma_combo_list_elems, lemma_combo_list_len, Combos};
use crate::config::Config;
use crate::intern::{FeatureKey, FeatureStorage};
use crate::ncr::spec_sum_ncr;
use crate::rule::{rule_spec, rule_validate_spec, InvalidConfigError, Rule};
use crate::schema;
use vstd::prelude::*;

verus! {

/// The stored keys of a storage, as `FeatureKey`s in stored order.
pub open spec fn fkeys(s: FeatureStorage) -> Seq<FeatureKey> {
    s.key_seq().map_values(|h: u64| FeatureKey(h))
}

/// Maps an index combination to feature keys through the stored order.
pub open spec fn keys_of_combo(keys: Seq<FeatureKey>, idxs: Seq<int>) -> Seq<FeatureKey> {
    idxs.map_values(|i: int| keys[i])
}

/// All index combinations of sizes `0..=k`, in emission order.
pub open spec fn all_combos(n: int, k: int) -> Seq<Seq<int>>
    decreases k + 1,
{
    if k < 0 {
        Seq::<Seq<int>>::empty()
    } else {
        all_combos(n, k - 1) + combo_list(n, k)
    }
}

/// A combination passes a rule list if every rule validates it.
pub open spec fn rules_pass(rules: Seq<Rule>, combo: Seq<FeatureKey>) -> bool {
    forall|i: int| 0 <= i < rules.len() ==> rule_validate_spec(#[trigger] rules[i], combo)
}

/// A combination is dependency-free if no member is a transitive
/// dependency of another member (nor of itself).
pub open spec fn dep_free(s: FeatureStorage, combo: Seq<FeatureKey>) -> bool {
    forall|i: int, j: int|
        0 <= i < combo.len() && 0 <= j < combo.len() ==> !(s.has_hash((#[trigger] combo[i]).0)
            && s.deps_at(combo[i].0).contains((#[trigger] combo[j]).0))
}

/// Both pipeline filters together.
pub open spec fn combo_passes(s: FeatureStorage, rules: Seq<Rule>, combo: Seq<FeatureKey>) -> bool {
    rules_pass(rules, combo) && dep_free(s, combo)
}

/// The pipeline output for a given list of index combinations: each one
/// mapped to keys, kept iff it passes the filters, order preserved.
pub open spec fn filtered_combos(
    s: FeatureStorage,
    rules: Seq<Rule>,
    keys: Seq<FeatureKey>,
    cs: Seq<Seq<int>>,
) -> Seq<Seq<FeatureKey>>
    decreases cs.len(),
{
    if cs.len() == 0 {
        Seq::<Seq<FeatureKey>>::empty()
    } else {
        let rest = filtered_combos(s, rules, keys, cs.drop_last());
        let mapped = keys_of_combo(keys, cs.last());
        if combo_passes(s, rules, mapped) {
            rest.push(mapped)
        } else {
            rest
        }
    }
}

/// The effective maximum combination size: the configured bound where one
/// is set, capped at the number of features.
pub open spec fn eff_k(n: int, mk: Option<usize>) -> int {
    match mk {
        Some(m) => if m <= n {
            m as int
        } else {
            n
        },
        None => n,
    }
}

/// The whole pipeline: every combination of at most `k` of the stored
/// features, in emission order, filtered by the rules and the dependency
/// check.
pub open spec fn pipeline_spec(s: FeatureStorage, rules: Seq<Rule>, k: int) -> Seq<
    Seq<FeatureKey>,
> {
    filtered_combos(s, rules, fkeys(s), all_combos(s.key_seq().len() as int, k))
}

/// The compiled forms of a list of schema rules (meaningful when each
/// compiles).
pub open spec fn compiled_rules(rs: Seq<schema::Rule>) -> Seq<Rule> {
    rs.map_values(|sr: schema::Rule| rule_spec(sr)->Ok_0)
}

/// The filtered output is never longer than the input list.
proof fn lemma_filtered_len(
    s: FeatureStorage,
    rules: Seq<Rule>,
    keys: Seq<FeatureKey>,
    cs: Seq<Seq<int>>,
)
    ensures
        filtered_combos(s, rules, keys, cs).len() <= cs.len(),
    decreases cs.len(),
{
    if cs.len() > 0 {
        lemma_filtered_len(s, rules, keys, cs.drop_last());
    }
}

/// Every filtered combination comes from the input list.
proof fn lemma_filtered_from(
    s: FeatureStorage,
    rules: Seq<Rule>,
    keys: Seq<FeatureKey>,
    cs: Seq<Seq<int>>,
    m: int,
)
    requires
        0 <= m < filtered_combos(s, rules, keys, cs).len(),
    ensures
        exists|p: int| 0 <= p < cs.len() && filtered_combos(s, rules, keys, cs)[m]
            == keys_of_combo(keys, #[trigger] cs[p]),
    decreases cs.len(),
{
    if cs.len() > 0 {
        let rest = filtered_combos(s, rules, keys, cs.drop_last());
        if m < rest.len() {
            lemma_filtered_from(s, rules, keys, cs.drop_last(), m);
            let p = choose|p: int|
                0 <= p < cs.drop_last().len() && rest[m] == keys_of_combo(
                    keys,
                    #[trigger] cs.drop_last()[p],
                );
            assert(cs[p] == cs.drop_last()[p]);
        } else {
            assert(cs[cs.len() - 1] == cs.last());
        }
    }
}

/// The number of index combinations of sizes `0..=k` is the cumulative
/// binomial sum.
proof fn lemma_all_combos_len(n: int, k: int)
    requires
        0 <= n,
        0 <= k,
    ensures
        all_combos(n, k).len() == spec_sum_ncr(n, k),
    decreases k,
{
    lemma_combo_list_len(n, k);
    if k > 0 {
        lemma_all_combos_len(n, k - 1);
    } else {
        assert(all_combos(n, -1).len() == 0);
    }
}

/// Every index combination of the flattened enumeration is well-formed
/// for its own size, which is at most `k`.
proof fn lemma_all_combos_elems(n: int, k: int)
    requires
        0 <= n,
        0 <= k,
    ensures
        forall|m: int| 0 <= m < all_combos(n, k).len() ==> (#[trigger] all_combos(n, k)[m]).len()
            <= k && is_combo(n, all_combos(n, k)[m].len() as int, all_combos(n, k)[m]),
    decreases k,
{
    lemma_combo_list_elems(n, k);
    let pre = all_combos(n, k - 1);
    if k > 0 {
        lemma_all_combos_elems(n, k - 1);
    } else {
        assert(all_combos(n, -1).len() == 0);
    }
    assert forall|m: int| 0 <= m < all_combos(n, k).len() implies (#[trigger] all_combos(
        n,
        k,
    )[m]).len() <= k && is_combo(n, all_combos(n, k)[m].len() as int, all_combos(n, k)[m]) by {
        if m < pre.len() {
            assert(all_combos(n, k)[m] == pre[m]);
        } else {
            assert(all_combos(n, k)[m] == combo_list(n, k)[m - pre.len()]);
            assert(is_combo(n, k, combo_list(n, k)[m - pre.len()]));
        }
    }
}

/// The pipeline yields at most the cumulative binomial count
/// `C(n,0) + ... + C(n,k)`, rules and dependency filtering included.
pub proof fn lemma_pipeline_bound(s: FeatureStorage, rules: Seq<Rule>, k: int)
    requires
        0 <= k,
    ensures
        pipeline_spec(s, rules, k).len() <= spec_sum_ncr(s.key_seq().len() as int, k),
{
    let n = s.key_seq().len() as int;
    lemma_filtered_len(s, rules, fkeys(s), all_combos(n, k));
    lemma_all_combos_len(n, k);
}

/// Every key of every combination the pipeline yields is stored: it
/// resolves through the storage to an interned feature name.
pub proof fn lemma_pipeline_keys_resolve(s: FeatureStorage, rules: Seq<Rule>, k: int)
    requires
        s.wf(),
        0 <= k,
    ensures
        forall|m: int, j: int|
            0 <= m < pipeline_spec(s, rules, k).len() && 0 <= j < (#[trigger] pipeline_spec(
                s,
                rules,
                k,
            )[m]).len() ==> s.has_hash((#[trigger] pipeline_spec(s, rules, k)[m][j]).0),
{
    let n = s.key_seq().len() as int;
    let cs = all_combos(n, k);
    lemma_all_combos_elems(n, k);
    s.lemma_wf_keys();
    assert forall|m: int, j: int|
        0 <= m < pipeline_spec(s, rules, k).len() && 0 <= j < (#[trigger] pipeline_spec(
            s,
            rules,
            k,
        )[m]).len() implies s.has_hash((#[trigger] pipeline_spec(s, rules, k)[m][j]).0) by {
        lemma_filtered_from(s, rules, fkeys(s), cs, m);
        let p = choose|p: int|
            0 <= p < cs.len() && pipeline_spec(s, rules, k)[m] == keys_of_combo(
                fkeys(s),
                #[trigger] cs[p],
            );
        assert(is_combo(n, cs[p].len() as int, cs[p]));
        let idx = cs[p][j];
        assert(0 <= idx < n);
        assert(pipeline_spec(s, rules, k)[m][j] == fkeys(s)[idx]);
        assert(fkeys(s)[idx].0 == s.key_seq()[idx]);
        assert(s.key_seq().contains(s.key_seq()[idx]));
    }
}

/// Enumerates, filters and returns every valid feature combination for a
/// package, in the enumerator's deterministic order.  Fails with the
/// first rule that does not fit the schema.
#[verifier::rlimit(100)]
pub fn feature_combos(storage: &FeatureStorage, config: &Config) -> (r: Result<
    Vec<Vec<FeatureKey>>,
    InvalidConfigError,
>)
    requires
        storage.wf(),
    ensures
        ({
            let rs = config.rules_spec();
            match r {
                Ok(v) => {
                    &&& (forall|i: int| 0 <= i < rs.len() ==> (#[trigger] rule_spec(rs[i]))
                        is Ok)
                    &&& v@.map_values(|c: Vec<FeatureKey>| c@) == pipeline_spec(
                        *storage,
                        compiled_rules(rs),
                        eff_k(storage.key_seq().len() as int, config.max_combo_size_spec()),
                    )
                },
                Err(e) => exists|i: int|
                    0 <= i < rs.len() && #[trigger] rule_spec(rs[i]) == Err::<
                        Rule,
                        InvalidConfigError,
                    >(e) && (forall|j: int| 0 <= j < i ==> (#[trigger] rule_spec(rs[j])) is Ok),
            }
        }),
{
    let ghost rs = config.rules_spec();

    // Compile the rules for this package.
    let schema_rules = config.rules();
    let mut rules: Vec<Rule> = Vec::new();
    let mut ri: usize = 0;
    while ri < schema_rules.len()
        invariant
            rs == config.rules_spec(),
            schema_rules@ == rs,
            0 <= ri <= rs.len(),
            rules@.len() == ri,
            forall|j: int| 0 <= j < ri ==> (#[trigger] rule_spec(rs[j])) is Ok && rules@[j]
                == rule_spec(rs[j])->Ok_0,
        decreases rs.len() - ri,
    {
        match Rule::from_schema(&schema_rules[ri], storage) {
            Ok(rule) => {
                rules.push(rule);
            },
            Err(e) => {
                proof {
                    assert(rule_spec(rs[ri as int]) == Err::<Rule, InvalidConfigError>(e));
                    assert(exists|i: int|
                        0 <= i < rs.len() && #[trigger] rule_spec(rs[i]) == Err::<
                            Rule,
                            InvalidConfigError,
                        >(e) && (forall|j: int| 0 <= j < i ==> (#[trigger] rule_spec(rs[j]))
                            is Ok));
                }
                return Err(e);
            },
        }
        ri = ri + 1;
    }
    proof {
        assert(rules@ =~= compiled_rules(rs));
    }

    let keys = storage.keys();
    let n = keys.len();
    proof {
        assert(keys@.map_values(|k: FeatureKey| k.0).len() == storage.key_seq().len());
        assert forall|i: int| 0 <= i < n implies keys@[i] == fkeys(*storage)[i] by {
            assert(keys@.map_values(|k: FeatureKey| k.0)[i] == storage.key_seq()[i]);
        }
        assert(keys@ =~= fkeys(*storage));
    }

    let max_k = match config.max_combo_size() {
        Some(m) => if m <= n {
            m
        } else {
            n
        },
        None => n,
    };
    let ghost kk = eff_k(storage.key_seq().len() as int, config.max_combo_size_spec());
    proof {
        assert(max_k == kk);
    }

    let mut result: Vec<Vec<FeatureKey>> = Vec::new();
    let mut k: usize = 0;
    loop
        invariant
            storage.wf(),
            keys@ == fkeys(*storage),
            n == storage.key_seq().len(),
            rs == config.rules_spec(),
            rules@ == compiled_rules(rs),
            forall|i: int| 0 <= i < rs.len() ==> (#[trigger] rule_spec(rs[i])) is Ok,
            kk == eff_k(storage.key_seq().len() as int, config.max_combo_size_spec()),
            max_k == kk,
            max_k <= n,
            0 <= k <= max_k,
            result@.map_values(|c: Vec<FeatureKey>| c@) == filtered_combos(
                *storage,
                rules@,
                keys@,
                all_combos(n as int, k - 1),
            ),
        decreases kk - k,
    {
        let mut co = Combos::new(n, k);
        proof {
            lemma_combo_list_elems(n as int, k as int);
        }
        loop
            invariant
                storage.wf(),
                keys@ == fkeys(*storage),
                n == storage.key_seq().len(),
                rules@ == compiled_rules(rs),
                k <= n,
                co.wf(),
                co.pool() == n,
                co.size() == k,
                0 <= co.pos() <= combo_list(n as int, k as int).len(),
                forall|m: int| 0 <= m < combo_list(n as int, k as int).len() ==> is_combo(
                    n as int,
                    k as int,
                    #[trigger] combo_list(n as int, k as int)[m],
                ),
                result@.map_values(|c: Vec<FeatureKey>| c@) == filtered_combos(
                    *storage,
                    rules@,
                    keys@,
                    all_combos(n as int, k - 1) + combo_list(n as int, k as int).take(co.pos()),
                ),
            ensures
                co.pos() == combo_list(n as int, k as int).len(),
                result@.map_values(|c: Vec<FeatureKey>| c@) == filtered_combos(
                    *storage,
                    rules@,
                    keys@,
                    all_combos(n as int, k - 1) + combo_list(n as int, k as int).take(co.pos()),
                ),
            decreases combo_list(n as int, k as int).len() - co.pos(),
        {
            let ghost pos0 = co.pos();
            let idxs = match co.next() {
                Some(idxs) => idxs,
                None => {
                    break ;
                },
            };
            let ghost cv = combo_list(n as int, k as int)[pos0];
            proof {
                assert(idxs@.map_values(|v: usize| v as int) == cv);
                assert(is_combo(n as int, k as int, cv));
            }

            // Convert index tuples into feature keys.
            let mut combo: Vec<FeatureKey> = Vec::with_capacity(idxs.len());
            let mut j: usize = 0;
            while j < idxs.len()
                invariant
                    keys@ == fkeys(*storage),
                    n == storage.key_seq().len(),
                    idxs@.map_values(|v: usize| v as int) == cv,
                    is_combo(n as int, k as int, cv),
                    cv.len() == idxs@.len(),
                    0 <= j <= idxs@.len(),
                    combo@.len() == j,
                    forall|p: int| 0 <= p < j ==> combo@[p] == keys_of_combo(keys@, cv)[p],
                decreases idxs@.len() - j,
            {
                proof {
                    assert(cv[j as int] == idxs@[j as int] as int);
                    assert(0 <= cv[j as int] < n);
                }
                combo.push(keys[idxs[j]]);
                j = j + 1;
            }
            proof {
                assert(combo@ =~= keys_of_combo(keys@, cv));
            }

            // Keep the combination only if every rule validates it and it
            // is free of internal dependencies.
            let mut keep = true;
            let mut ri2: usize = 0;
            while ri2 < rules.len()
                invariant
                    rules@ == compiled_rules(rs),
                    0 <= ri2 <= rules@.len(),
                    combo@ == keys_of_combo(keys@, cv),
                    keep <==> (forall|p: int| 0 <= p < ri2 ==> rule_validate_spec(
                        #[trigger] rules@[p],
                        combo@,
                    )),
                decreases rules@.len() - ri2,
            {
                if !rules[ri2].validate(combo.as_slice()) {
                    proof {
                        assert(!rule_validate_spec(rules@[ri2 as int], combo@));
                    }
                    keep = false;
                }
                ri2 = ri2 + 1;
            }
            proof {
                assert(keep == rules_pass(rules@, combo@));
            }
            let rules_ok = keep;
            if keep {
                let mut a: usize = 0;
                while a < combo.len()
                    invariant
                        storage.wf(),
                        combo@ == keys_of_combo(keys@, cv),
                        0 <= a <= combo@.len(),
                        keep <==> (forall|p: int, q: int|
                            0 <= p < a && 0 <= q < combo@.len() ==> !(storage.has_hash(
                                (#[trigger] combo@[p]).0,
                            ) && storage.deps_at(combo@[p].0).contains((#[trigger] combo@[q]).0))),
                    decreases combo@.len() - a,
                {
                    let ghost keep_row = keep;
                    let mut b: usize = 0;
                    while b < combo.len()
                        invariant
                            storage.wf(),
                            combo@ == keys_of_combo(keys@, cv),
                            0 <= a < combo@.len(),
                            0 <= b <= combo@.len(),
                            keep_row <==> (forall|p: int, q: int|
                                0 <= p < a && 0 <= q < combo@.len() ==> !(storage.has_hash(
                                    (#[trigger] combo@[p]).0,
                                ) && storage.deps_at(combo@[p].0).contains(
                                    (#[trigger] combo@[q]).0,
                                ))),
                            keep <==> keep_row && (forall|q: int|
                                0 <= q < b ==> !(storage.has_hash(combo@[a as int].0)
                                    && storage.deps_at(combo@[a as int].0).contains(
                                    (#[trigger] combo@[q]).0,
                                ))),
                        decreases combo@.len() - b,
                    {
                        if storage.is_dependency(combo[a], combo[b]) {
                            proof {
                                assert(storage.has_hash(combo@[a as int].0) && storage.deps_at(
                                    combo@[a as int].0,
                                ).contains(combo@[b as int].0));
                            }
                            keep = false;
                        }
                        b = b + 1;
                    }
                    a = a + 1;
                }
                proof {
                    assert(keep == (rules_ok && dep_free(*storage, combo@)));
                }
            }

            proof {
                let done0 = all_combos(n as int, k - 1) + combo_list(n as int, k as int).take(
                    pos0,
                );
                let done1 = all_combos(n as int, k - 1) + combo_list(n as int, k as int).take(
                    pos0 + 1,
                );
                assert(done1 =~= done0.push(cv));
                assert(done1.drop_last() =~= done0);
                assert(done1.last() == cv);
                if keep {
                    assert(combo_passes(*storage, rules@, combo@));
                } else {
                    assert(!rules_ok ==> !rules_pass(rules@, combo@));
                    assert(!combo_passes(*storage, rules@, combo@));
                }
            }
            if keep {
                let ghost res0 = result@;
                result.push(combo);
                proof {
                    assert(result@.map_values(|c: Vec<FeatureKey>| c@) =~= res0.map_values(
                        |c: Vec<FeatureKey>| c@,
                    ).push(combo@));
                }
            }
        }
        proof {
            assert(combo_list(n as int, k as int).take(co.pos()) =~= combo_list(
                n as int,
                k as int,
            ));
            assert(all_combos(n as int, k - 1) + combo_list(n as int, k as int) == all_combos(
                n as int,
                k as int,
            ));
        }
        if k == max_k {
            proof {
                assert(result@.map_values(|c: Vec<FeatureKey>| c@) == pipeline_spec(
                    *storage,
                    compiled_rules(rs),
                    kk,
                ));
            }
            return Ok(result);
        }
        k = k + 1;
    }
}

} // verus!
