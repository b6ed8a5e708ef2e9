//! The per-worker driver logic: selecting and ordering the packages a
//! worker processes, and turning key combinations back into sorted
//! feature-name lists for the external check tool.

use crate::chunk::{select_chunk, select_chunk_spec};
use crate::cli::{InvalidArgumentError, CLI};
use crate::config::WorkspaceConfig;
use crate::intern::{FeatureKey, FeatureStorage};
use crate::manifest::{Manifest, Package};
use vstd::prelude::*;

verus! {

/// Lexicographic order on character sequences (by code point, total).
pub open spec fn str_le(a: Seq<char>, b: Seq<char>) -> bool
    decreases a.len(),
{
    if a.len() == 0 {
        true
    } else if b.len() == 0 {
        false
    } else if a[0] != b[0] {
        (a[0] as u32) < (b[0] as u32)
    } else {
        str_le(a.drop_first(), b.drop_first())
    }
}

/// Exec comparison realising [`str_le`].
pub fn str_le_exec(a: &String, b: &String) -> (r: bool)
    ensures
        r == str_le(a@, b@),
{
    let sa = a.as_str();
    let sb = b.as_str();
    let la = sa.unicode_len();
    let lb = sb.unicode_len();
    proof {
        assert(a@.skip(0) =~= a@);
        assert(b@.skip(0) =~= b@);
    }
    let mut i: usize = 0;
    loop
        invariant
            sa@ == a@,
            sb@ == b@,
            la == a@.len(),
            lb == b@.len(),
            0 <= i,
            i <= la,
            i <= lb,
            str_le(a@, b@) == str_le(a@.skip(i as int), b@.skip(i as int)),
        decreases la - i,
    {
        if i == la {
            proof {
                assert(a@.skip(i as int).len() == 0);
            }
            return true;
        }
        if i == lb {
            proof {
                assert(b@.skip(i as int).len() == 0 && a@.skip(i as int).len() > 0);
            }
            return false;
        }
        let ca = sa.get_char(i);
        let cb = sb.get_char(i);
        proof {
            assert(a@.skip(i as int)[0] == a@[i as int]);
            assert(b@.skip(i as int)[0] == b@[i as int]);
        }
        if ca != cb {
            return (ca as u32) < (cb as u32);
        }
        proof {
            assert(a@.skip(i as int).drop_first() =~= a@.skip(i + 1));
            assert(b@.skip(i as int).drop_first() =~= b@.skip(i + 1));
        }
        i = i + 1;
    }
}

/// Inserts a package after every package whose name is no greater.
pub open spec fn insert_by_name(s: Seq<Package>, x: Package) -> Seq<Package>
    decreases s.len(),
{
    if s.len() == 0 {
        seq![x]
    } else if str_le(s.last().name@, x.name@) {
        s.push(x)
    } else {
        insert_by_name(s.drop_last(), x).push(s.last())
    }
}

/// Stable ascending insertion sort of packages by name.
pub open spec fn sort_by_name(s: Seq<Package>) -> Seq<Package>
    decreases s.len(),
{
    if s.len() == 0 {
        Seq::<Package>::empty()
    } else {
        insert_by_name(sort_by_name(s.drop_last()), s.last())
    }
}

/// [`insert_by_name`] splices the new package exactly at the boundary of
/// the trailing strictly-greater names.
proof fn lemma_insert_name_position(s: Seq<Package>, x: Package, j: int)
    requires
        0 <= j <= s.len(),
        forall|l: int| j <= l < s.len() ==> !str_le((#[trigger] s[l]).name@, x.name@),
        j > 0 ==> str_le(s[j - 1].name@, x.name@),
    ensures
        insert_by_name(s, x) == s.subrange(0, j) + seq![x] + s.subrange(j, s.len() as int),
    decreases s.len(),
{
    if s.len() == 0 {
        assert(insert_by_name(s, x) =~= s.subrange(0, j) + seq![x] + s.subrange(
            j,
            s.len() as int,
        ));
    } else if j == s.len() {
        assert(insert_by_name(s, x) =~= s.subrange(0, j) + seq![x] + s.subrange(
            j,
            s.len() as int,
        ));
    } else {
        assert(!str_le(s[s.len() - 1].name@, x.name@));
        lemma_insert_name_position(s.drop_last(), x, j);
        assert(forall|l: int| 0 <= l < s.len() - 1 ==> s[l] == #[trigger] s.drop_last()[l]);
        assert(insert_by_name(s, x) =~= s.subrange(0, j) + seq![x] + s.subrange(
            j,
            s.len() as int,
        ));
    }
}

/// Sorts packages ascending by name, stably.
pub fn sort_packages(packages: Vec<Package>) -> (r: Vec<Package>)
    ensures
        r@ == sort_by_name(packages@),
{
    let ghost orig = packages@;
    let mut rem = packages;
    let mut sorted: Vec<Package> = Vec::new();
    let ghost mut processed = Seq::<Package>::empty();
    proof {
        assert(orig =~= processed + rem@);
        assert(sort_by_name(processed) =~= Seq::<Package>::empty());
    }
    while rem.len() > 0
        invariant
            orig == processed + rem@,
            sorted@ == sort_by_name(processed),
        decreases rem@.len(),
    {
        let ghost rem0 = rem@;
        let p = rem.remove(0);
        proof {
            assert(rem@ =~= rem0.drop_first());
            assert(orig =~= (processed + seq![rem0[0]]) + rem@);
        }
        let mut idx: usize = sorted.len();
        while idx > 0 && !str_le_exec(&sorted[idx - 1].name, &p.name)
            invariant
                0 <= idx <= sorted@.len(),
                forall|l: int| idx <= l < sorted@.len() ==> !str_le(
                    (#[trigger] sorted@[l]).name@,
                    p.name@,
                ),
            decreases idx,
        {
            idx = idx - 1;
        }
        let ghost sorted0 = sorted@;
        let ghost pv = p;
        sorted.insert(idx, p);
        proof {
            lemma_insert_name_position(sorted0, pv, idx as int);
            assert(sorted@ =~= sorted0.subrange(0, idx as int) + seq![pv] + sorted0.subrange(
                idx as int,
                sorted0.len() as int,
            ));
            let processed2 = processed + seq![pv];
            assert(processed2.drop_last() =~= processed);
            assert(processed2.last() == pv);
            processed = processed2;
        }
    }
    proof {
        assert(processed =~= orig);
    }
    sorted
}

/// The first package with the given name, if any.
pub open spec fn first_package(s: Seq<Package>, name: Seq<char>) -> Option<Package>
    decreases s.len(),
{
    if s.len() == 0 {
        None
    } else if s[0].name@ == name {
        Some(s[0])
    } else {
        first_package(s.drop_first(), name)
    }
}

/// Selects and orders the packages this worker will process:
/// - with `--package`, exactly the first package of that name (an
///   argument error if there is none);
/// - otherwise every package, sorted by name, restricted to this worker's
///   chunk when chunking is requested.
#[verifier::loop_isolation(false)]
pub fn process_packages(manifest: Manifest, cli: &CLI, config: &WorkspaceConfig) -> (r: Result<
    Vec<Package>,
    InvalidArgumentError,
>)
    requires
        cli.chunk is Some && cli.total_chunks is Some ==> cli.chunk->0 < cli.total_chunks->0,
    ensures
        cli.package is Some ==> ({
            match first_package(manifest.packages@, cli.package->0@) {
                Some(p) => r is Ok && r->Ok_0@ == seq![p],
                None => r == Err::<Vec<Package>, InvalidArgumentError>(
                    InvalidArgumentError::PackageNotFound,
                ),
            }
        }),
        cli.package is None ==> r is Ok && r->Ok_0@ == (if cli.chunk is Some && cli.total_chunks
            is Some {
            select_chunk_spec(
                cli.total_chunks->0 as int,
                cli.chunk->0 as int,
                sort_by_name(manifest.packages@),
                *config,
            )
        } else {
            sort_by_name(manifest.packages@)
        }),
{
    let mut packages = manifest.packages;
    let ghost orig = packages@;

    if let Some(name) = &cli.package {
        proof {
            assert(orig.subrange(0, orig.len() as int) =~= orig);
        }
        let mut i: usize = 0;
        while i < packages.len()
            invariant
                packages@ == orig,
                0 <= i <= orig.len(),
                first_package(orig, name@) == first_package(
                    orig.subrange(i as int, orig.len() as int),
                    name@,
                ),
            decreases orig.len() - i,
        {
            let ghost rest = orig.subrange(i as int, orig.len() as int);
            proof {
                assert(rest[0] == orig[i as int]);
                assert(rest.drop_first() =~= orig.subrange(i + 1, orig.len() as int));
            }
            if packages[i].name.eq(name) {
                proof {
                    assert(first_package(rest, name@) == Some(orig[i as int]));
                }
                let p = packages.swap_remove(i);
                let mut one: Vec<Package> = Vec::new();
                one.push(p);
                proof {
                    assert(one@ =~= seq![orig[i as int]]);
                }
                return Ok(one);
            }
            i = i + 1;
        }
        proof {
            assert(orig.subrange(orig.len() as int, orig.len() as int) =~= Seq::<
                Package,
            >::empty());
        }
        return Err(InvalidArgumentError::PackageNotFound);
    }

    let sorted = sort_packages(packages);

    if let (Some(chunk), Some(total_chunks)) = (&cli.chunk, &cli.total_chunks) {
        let selected = select_chunk(*total_chunks, *chunk, sorted, config);
        return Ok(selected);
    }

    Ok(sorted)
}

/// Resolves a combination of keys to the feature names stored for them.
pub fn resolve_combo(storage: &FeatureStorage, combo: &Vec<FeatureKey>) -> (r: Vec<String>)
    requires
        storage.wf(),
        forall|j: int| 0 <= j < combo@.len() ==> storage.has_hash((#[trigger] combo@[j]).0),
    ensures
        r@.map_values(|s: String| s@) == combo@.map_values(
            |k: FeatureKey| storage.name_at(k.0),
        ),
{
    let mut r: Vec<String> = Vec::with_capacity(combo.len());
    let mut i: usize = 0;
    while i < combo.len()
        invariant
            storage.wf(),
            forall|j: int| 0 <= j < combo@.len() ==> storage.has_hash((#[trigger] combo@[j]).0),
            0 <= i <= combo@.len(),
            r@.len() == i,
            forall|j: int| 0 <= j < i ==> (#[trigger] r@[j])@ == storage.name_at(combo@[j].0),
        decreases combo@.len() - i,
    {
        match storage.get(combo[i]) {
            Some(name) => {
                r.push(name.clone());
            },
            None => {
                proof {
                    assert(false);
                }
            },
        }
        i = i + 1;
    }
    proof {
        assert(r@.map_values(|s: String| s@) =~= combo@.map_values(
            |k: FeatureKey| storage.name_at(k.0),
        ));
    }
    r
}

/// Inserts a name after every name that is no greater.
pub open spec fn insert_name(s: Seq<Seq<char>>, x: Seq<char>) -> Seq<Seq<char>>
    decreases s.len(),
{
    if s.len() == 0 {
        seq![x]
    } else if str_le(s.last(), x) {
        s.push(x)
    } else {
        insert_name(s.drop_last(), x).push(s.last())
    }
}

/// Stable ascending insertion sort of names.
pub open spec fn sort_names(s: Seq<Seq<char>>) -> Seq<Seq<char>>
    decreases s.len(),
{
    if s.len() == 0 {
        Seq::<Seq<char>>::empty()
    } else {
        insert_name(sort_names(s.drop_last()), s.last())
    }
}

/// [`insert_name`] splices the new name exactly at the boundary of the
/// trailing strictly-greater names.
proof fn lemma_insert_plain_position(s: Seq<Seq<char>>, x: Seq<char>, j: int)
    requires
        0 <= j <= s.len(),
        forall|l: int| j <= l < s.len() ==> !str_le(#[trigger] s[l], x),
        j > 0 ==> str_le(s[j - 1], x),
    ensures
        insert_name(s, x) == s.subrange(0, j) + seq![x] + s.subrange(j, s.len() as int),
    decreases s.len(),
{
    if s.len() == 0 {
        assert(insert_name(s, x) =~= s.subrange(0, j) + seq![x] + s.subrange(j, s.len() as int));
    } else if j == s.len() {
        assert(insert_name(s, x) =~= s.subrange(0, j) + seq![x] + s.subrange(j, s.len() as int));
    } else {
        assert(!str_le(s[s.len() - 1], x));
        lemma_insert_plain_position(s.drop_last(), x, j);
        assert(forall|l: int| 0 <= l < s.len() - 1 ==> s[l] == #[trigger] s.drop_last()[l]);
        assert(insert_name(s, x) =~= s.subrange(0, j) + seq![x] + s.subrange(j, s.len() as int));
    }
}

/// Sorts feature names ascending, stably.
pub fn sort_feature_names(names: Vec<String>) -> (r: Vec<String>)
    ensures
        r@.map_values(|s: String| s@) == sort_names(names@.map_values(|s: String| s@)),
{
    let ghost orig = names@.map_values(|s: String| s@);
    let mut rem = names;
    let mut sorted: Vec<String> = Vec::new();
    let ghost mut processed = Seq::<Seq<char>>::empty();
    proof {
        assert(orig =~= processed + rem@.map_values(|s: String| s@));
        assert(sort_names(processed) =~= Seq::<Seq<char>>::empty());
        assert(sorted@.map_values(|s: String| s@) =~= sort_names(processed));
    }
    while rem.len() > 0
        invariant
            orig == processed + rem@.map_values(|s: String| s@),
            sorted@.map_values(|s: String| s@) == sort_names(processed),
        decreases rem@.len(),
    {
        let ghost rem0 = rem@.map_values(|s: String| s@);
        let p = rem.remove(0);
        proof {
            assert(rem@.map_values(|s: String| s@) =~= rem0.drop_first());
            assert(orig =~= (processed + seq![rem0[0]]) + rem@.map_values(|s: String| s@));
        }
        let mut idx: usize = sorted.len();
        while idx > 0 && !str_le_exec(&sorted[idx - 1], &p)
            invariant
                0 <= idx <= sorted@.len(),
                forall|l: int| idx <= l < sorted@.len() ==> !str_le(
                    (#[trigger] sorted@[l])@,
                    p@,
                ),
            decreases idx,
        {
            idx = idx - 1;
        }
        let ghost sorted0 = sorted@.map_values(|s: String| s@);
        let ghost pv = p@;
        sorted.insert(idx, p);
        proof {
            lemma_insert_plain_position(sorted0, pv, idx as int);
            assert(sorted@.map_values(|s: String| s@) =~= sorted0.subrange(0, idx as int) + seq![
                pv,
            ] + sorted0.subrange(idx as int, sorted0.len() as int));
            let processed2 = processed + seq![pv];
            assert(processed2.drop_last() =~= processed);
            assert(processed2.last() == pv);
            processed = processed2;
        }
    }
    proof {
        assert(processed =~= orig);
    }
    sorted
}

/// The comma-joined form of a name list, one trailing comma per name
/// (the external check tool accepts the trailing comma).
pub open spec fn joined(s: Seq<Seq<char>>) -> Seq<char>
    decreases s.len(),
{
    if s.len() == 0 {
        Seq::<char>::empty()
    } else {
        joined(s.drop_last()) + s.last() + seq![',']
    }
}

/// Builds the comma-separated feature list handed to the external check
/// tool.
pub fn join_features(names: &Vec<String>) -> (r: String)
    ensures
        r@ == joined(names@.map_values(|s: String| s@)),
{
    let ghost nv = names@.map_values(|s: String| s@);
    let mut acc = String::new();
    let mut i: usize = 0;
    while i < names.len()
        invariant
            nv == names@.map_values(|s: String| s@),
            0 <= i <= names@.len(),
            acc@ == joined(nv.take(i as int)),
        decreases names@.len() - i,
    {
        acc.append(names[i].as_str());
        acc.append(",");
        proof {
            reveal_strlit(",");
            assert(nv.take(i + 1).drop_last() =~= nv.take(i as int));
            assert(nv.take(i + 1).last() == nv[i as int]);
            assert(acc@ =~= joined(nv.take(i + 1)));
        }
        i = i + 1;
    }
    proof {
        assert(nv.take(names@.len() as int) =~= nv);
    }
    acc
}

} // verus!
