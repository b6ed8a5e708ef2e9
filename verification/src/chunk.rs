//! The chunk scheduler: partitions packages across parallel workers,
//! balancing by each package's estimated combination count
//! (longest-processing-time-first bin packing).
//!
//! The whole computation is pinned down by spec functions, so that every
//! worker running [`select_chunk`] with the same inputs sees the same
//! partition; [`lemma_chunks_cover`] shows that the workers' chunks
//! together hold exactly the input packages.

use crate::config::{find_crate, WorkspaceConfig};
use crate::manifest::{pkg_view, pkg_views, Package};
use crate::ncr::{estimate_combos, ncr_overflows, spec_effective_k, spec_estimate};
use vstd::multiset::Multiset;
use vstd::prelude::*;
use vstd::seq_lib::group_to_multiset_ensures;
use vstd::std_specs::vec::vec_index_mut;

verus! {

broadcast use group_to_multiset_ensures;

/// The resolved maximum combination size of a package, as the estimator
/// takes it.
pub open spec fn resolved_max(wc: WorkspaceConfig, name: Seq<char>) -> Option<u128> {
    let mk = match find_crate(wc.crates_spec(), name) {
        Some(c) => if c.max_combo_size_spec() is Some {
            c.max_combo_size_spec()
        } else {
            wc.max_combo_size_spec()
        },
        None => wc.max_combo_size_spec(),
    };
    match mk {
        Some(m) => Some(m as u128),
        None => None,
    }
}

/// A package's estimated combination count, saturating to `u128::MAX`
/// when a binomial overflows.
pub open spec fn size_of(wc: WorkspaceConfig, p: Package) -> u128 {
    let n = p.features.len_spec();
    let kk = spec_effective_k(n, resolved_max(wc, p.name@));
    if ncr_overflows(n, kk) {
        u128::MAX
    } else {
        spec_estimate(n, kk) as u128
    }
}

/// Each package paired with its estimated size.
pub open spec fn paired(pkgs: Seq<Package>, wc: WorkspaceConfig) -> Seq<(Package, u128)> {
    pkgs.map_values(|p: Package| (p, size_of(wc, p)))
}

/// Inserts a pair after every element of no greater size: the insertion
/// step of a stable ascending sort.
pub open spec fn insert_by_size(s: Seq<(Package, u128)>, x: (Package, u128)) -> Seq<
    (Package, u128),
>
    decreases s.len(),
{
    if s.len() == 0 {
        seq![x]
    } else if s.last().1 <= x.1 {
        s.push(x)
    } else {
        insert_by_size(s.drop_last(), x).push(s.last())
    }
}

/// Stable ascending insertion sort by estimated size.
pub open spec fn sort_by_size(s: Seq<(Package, u128)>) -> Seq<(Package, u128)>
    decreases s.len(),
{
    if s.len() == 0 {
        Seq::<(Package, u128)>::empty()
    } else {
        insert_by_size(sort_by_size(s.drop_last()), s.last())
    }
}

/// The first index holding the minimum of a load vector.
pub open spec fn min_idx(sizes: Seq<u128>) -> int
    decreases sizes.len(),
{
    if sizes.len() <= 1 {
        0
    } else {
        let m = min_idx(sizes.drop_last());
        if sizes.last() < sizes[m] {
            sizes.len() - 1
        } else {
            m
        }
    }
}

/// The first-minimum characterisation of [`min_idx`].
proof fn lemma_min_idx_char(sizes: Seq<u128>)
    requires
        sizes.len() >= 1,
    ensures
        0 <= min_idx(sizes) < sizes.len(),
        forall|j: int| 0 <= j < sizes.len() ==> sizes[min_idx(sizes)] <= #[trigger] sizes[j],
        forall|j: int| 0 <= j < min_idx(sizes) ==> #[trigger] sizes[j] > sizes[min_idx(sizes)],
    decreases sizes.len(),
{
    if sizes.len() > 1 {
        let d = sizes.drop_last();
        lemma_min_idx_char(d);
        let m = min_idx(d);
        assert(forall|j: int| 0 <= j < d.len() ==> #[trigger] d[j] == sizes[j]);
        let mi = min_idx(sizes);
        assert forall|j: int| 0 <= j < sizes.len() implies sizes[mi] <= #[trigger] sizes[j] by {
            if j < sizes.len() - 1 {
                assert(d[m] <= d[j]);
            }
        }
        assert forall|j: int| 0 <= j < mi implies #[trigger] sizes[j] > sizes[mi] by {
            if sizes.last() < sizes[m] {
                assert(d[m] <= d[j]);
            } else {
                assert(d[j] > d[m]);
            }
        }
    }
}

/// Saturating addition on `u128` values, as the scheduler accumulates
/// loads.
pub open spec fn sat_load(a: u128, b: u128) -> u128 {
    if a + b > u128::MAX {
        u128::MAX
    } else {
        (a + b) as u128
    }
}

/// Longest-processing-time-first assignment: repeatedly pop the largest
/// remaining package (the last of the ascending list) and give it to the
/// currently least-loaded worker, ties broken by worker index.
pub open spec fn lpt(
    rem: Seq<(Package, u128)>,
    chunks: Seq<Seq<Package>>,
    sizes: Seq<u128>,
) -> (Seq<Seq<Package>>, Seq<u128>)
    decreases rem.len(),
{
    if rem.len() == 0 {
        (chunks, sizes)
    } else {
        let pr = rem.last();
        let i = min_idx(sizes);
        lpt(
            rem.drop_last(),
            chunks.update(i, chunks[i].push(pr.0)),
            sizes.update(i, sat_load(sizes[i], pr.1)),
        )
    }
}

/// The initial empty chunks.
pub open spec fn empty_chunks(n: int) -> Seq<Seq<Package>> {
    Seq::new(n as nat, |i: int| Seq::<Package>::empty())
}

/// The initial zero loads.
pub open spec fn zero_sizes(n: int) -> Seq<u128> {
    Seq::new(n as nat, |i: int| 0u128)
}

/// The partition that every worker computes, and the part of it that the
/// worker with index `chunk` keeps.
pub open spec fn select_chunk_spec(
    total: int,
    chunk: int,
    pkgs: Seq<Package>,
    wc: WorkspaceConfig,
) -> Seq<Package> {
    lpt(sort_by_size(paired(pkgs, wc)), empty_chunks(total), zero_sizes(total)).0[chunk]
}

/// Computes each package's estimated size and sorts ascending by it,
/// stably.
pub fn sort_by_combos(packages: Vec<Package>, config: &WorkspaceConfig) -> (r: Vec<
    (Package, u128),
>)
    ensures
        r@ == sort_by_size(paired(packages@, *config)),
{
    let ghost orig = packages@;
    let mut rem = packages;
    let mut sorted: Vec<(Package, u128)> = Vec::new();
    let ghost mut processed = Seq::<Package>::empty();
    proof {
        assert(orig =~= processed + rem@);
        assert(paired(processed, *config) =~= Seq::<(Package, u128)>::empty());
    }
    while rem.len() > 0
        invariant
            orig == processed + rem@,
            sorted@ == sort_by_size(paired(processed, *config)),
        decreases rem@.len(),
    {
        let ghost rem0 = rem@;
        let p = rem.remove(0);
        proof {
            assert(rem@ =~= rem0.drop_first());
            assert(orig =~= (processed + seq![rem0[0]]) + rem@);
        }
        let max_k = match config.get(&p.name).max_combo_size() {
            Some(m) => Some(m as u128),
            None => None,
        };
        proof {
            assert(max_k == resolved_max(*config, p.name@));
        }
        let size = match estimate_combos(p.features.len() as u128, max_k) {
            Ok(c) => c,
            Err(_) => u128::MAX,
        };
        proof {
            assert(size == size_of(*config, p));
        }

        // Insert the pair after every element of no greater size.
        let mut idx: usize = sorted.len();
        while idx > 0 && sorted[idx - 1].1 > size
            invariant
                0 <= idx <= sorted@.len(),
                forall|l: int| idx <= l < sorted@.len() ==> (#[trigger] sorted@[l]).1 > size,
            decreases idx,
        {
            idx = idx - 1;
        }
        let ghost sorted0 = sorted@;
        let ghost pr = (p, size);
        sorted.insert(idx, (p, size));
        proof {
            lemma_insert_position(sorted0, pr, idx as int);
            assert(sorted@ =~= sorted0.subrange(0, idx as int) + seq![pr] + sorted0.subrange(
                idx as int,
                sorted0.len() as int,
            ));
            let processed2 = processed + seq![pr.0];
            assert(paired(processed2, *config) =~= paired(processed, *config).push(pr));
            assert(paired(processed2, *config).drop_last() =~= paired(processed, *config));
            processed = processed2;
        }
    }
    proof {
        assert(processed =~= orig);
    }
    sorted
}

/// [`insert_by_size`] splices the new element exactly at the boundary of
/// the trailing strictly-larger elements.
proof fn lemma_insert_position(s: Seq<(Package, u128)>, x: (Package, u128), j: int)
    requires
        0 <= j <= s.len(),
        forall|l: int| j <= l < s.len() ==> (#[trigger] s[l]).1 > x.1,
        j > 0 ==> s[j - 1].1 <= x.1,
    ensures
        insert_by_size(s, x) == s.subrange(0, j) + seq![x] + s.subrange(j, s.len() as int),
    decreases s.len(),
{
    if s.len() == 0 {
        assert(insert_by_size(s, x) =~= s.subrange(0, j) + seq![x] + s.subrange(
            j,
            s.len() as int,
        ));
    } else if j == s.len() {
        assert(s.last().1 <= x.1);
        assert(insert_by_size(s, x) =~= s.subrange(0, j) + seq![x] + s.subrange(
            j,
            s.len() as int,
        ));
    } else {
        assert(s[s.len() - 1].1 > x.1);
        lemma_insert_position(s.drop_last(), x, j);
        assert(forall|l: int| 0 <= l < s.len() - 1 ==> s[l] == #[trigger] s.drop_last()[l]);
        assert(insert_by_size(s, x) =~= s.subrange(0, j) + seq![x] + s.subrange(
            j,
            s.len() as int,
        ));
    }
}

/// Finds the first least-loaded worker.
fn min_load_index(sizes: &Vec<u128>) -> (r: usize)
    requires
        sizes@.len() >= 1,
    ensures
        r == min_idx(sizes@),
        0 <= r < sizes@.len(),
{
    let mut best: usize = 0;
    let mut i: usize = 1;
    while i < sizes.len()
        invariant
            sizes@.len() >= 1,
            0 <= best < i <= sizes@.len(),
            forall|j: int| 0 <= j < i ==> sizes@[best as int] <= #[trigger] sizes@[j],
            forall|j: int| 0 <= j < best ==> #[trigger] sizes@[j] > sizes@[best as int],
        decreases sizes@.len() - i,
    {
        if sizes[i] < sizes[best] {
            best = i;
        }
        i = i + 1;
    }
    proof {
        lemma_min_idx_char(sizes@);
        let m = min_idx(sizes@);
        if m < best {
            assert(sizes@[m] > sizes@[best as int]);
            assert(sizes@[m] <= sizes@[best as int]);
        } else if best < m {
            assert(sizes@[best as int] > sizes@[m]);
            assert(sizes@[best as int] <= sizes@[m]);
        }
    }
    best
}

/// Assigns each package, largest estimated size first, to the currently
/// least-loaded worker.
pub fn create_chunks(sorted: Vec<(Package, u128)>, total_chunks: usize) -> (r: Vec<Vec<Package>>)
    requires
        total_chunks >= 1,
    ensures
        r@.map_values(|v: Vec<Package>| v@) == lpt(
            sorted@,
            empty_chunks(total_chunks as int),
            zero_sizes(total_chunks as int),
        ).0,
{
    let ghost orig = sorted@;
    let mut chunks: Vec<Vec<Package>> = Vec::new();
    let mut sizes: Vec<u128> = Vec::new();
    let mut ci: usize = 0;
    while ci < total_chunks
        invariant
            0 <= ci <= total_chunks,
            chunks@.len() == ci,
            sizes@.len() == ci,
            forall|j: int| 0 <= j < ci ==> (#[trigger] chunks@[j])@ == Seq::<Package>::empty(),
            forall|j: int| 0 <= j < ci ==> #[trigger] sizes@[j] == 0u128,
        decreases total_chunks - ci,
    {
        chunks.push(Vec::new());
        sizes.push(0);
        ci = ci + 1;
    }
    proof {
        assert(chunks@.map_values(|v: Vec<Package>| v@) =~= empty_chunks(total_chunks as int));
        assert(sizes@ =~= zero_sizes(total_chunks as int));
    }

    let ghost target = lpt(
        orig,
        empty_chunks(total_chunks as int),
        zero_sizes(total_chunks as int),
    );
    let mut rem = sorted;
    while rem.len() > 0
        invariant
            total_chunks >= 1,
            chunks@.len() == total_chunks,
            sizes@.len() == total_chunks,
            target == lpt(
                orig,
                empty_chunks(total_chunks as int),
                zero_sizes(total_chunks as int),
            ),
            lpt(rem@, chunks@.map_values(|v: Vec<Package>| v@), sizes@) == target,
        decreases rem@.len(),
    {
        let ghost rem0 = rem@;
        let ghost cview0 = chunks@.map_values(|v: Vec<Package>| v@);
        let ghost sizes0 = sizes@;
        let pr = match rem.pop() {
            Some(pr) => pr,
            None => {
                proof {
                    assert(false);
                }
                unreached()
            },
        };
        let (p, c) = pr;
        proof {
            assert(rem0.last() == (p, c));
            assert(rem0.drop_last() =~= rem@);
        }
        let i = min_load_index(&sizes);
        let new_size = sizes[i].saturating_add(c);
        let slot = vec_index_mut(&mut chunks, i);
        slot.push(p);
        sizes.set(i, new_size);
        proof {
            assert(chunks@.map_values(|v: Vec<Package>| v@) =~= cview0.update(
                i as int,
                cview0[i as int].push(rem0.last().0),
            ));
            assert(sizes@ =~= sizes0.update(i as int, sat_load(sizes0[i as int], rem0.last().1)));
        }
    }
    proof {
        assert(chunks@.map_values(|v: Vec<Package>| v@) == target.0);
    }
    chunks
}

/// Returns the set of packages assigned to the worker with index `chunk`
/// out of `total_chunks` workers.
pub fn select_chunk(
    total_chunks: usize,
    chunk: usize,
    packages: Vec<Package>,
    config: &WorkspaceConfig,
) -> (r: Vec<Package>)
    requires
        chunk < total_chunks,
    ensures
        r@ == select_chunk_spec(total_chunks as int, chunk as int, packages@, *config),
{
    let sorted = sort_by_combos(packages, config);
    proof {
        lemma_lpt_len(
            sorted@,
            empty_chunks(total_chunks as int),
            zero_sizes(total_chunks as int),
        );
    }
    let mut chunks = create_chunks(sorted, total_chunks);
    let r = chunks.swap_remove(chunk);
    r
}

/// The LPT assignment keeps the number of workers fixed.
proof fn lemma_lpt_len(rem: Seq<(Package, u128)>, chunks: Seq<Seq<Package>>, sizes: Seq<u128>)
    requires
        chunks.len() == sizes.len(),
        sizes.len() >= 1,
    ensures
        lpt(rem, chunks, sizes).0.len() == chunks.len(),
        lpt(rem, chunks, sizes).1.len() == sizes.len(),
    decreases rem.len(),
{
    if rem.len() > 0 {
        let i = min_idx(sizes);
        lemma_min_idx_char(sizes);
        lemma_lpt_len(
            rem.drop_last(),
            chunks.update(i, chunks[i].push(rem.last().0)),
            sizes.update(i, sat_load(sizes[i], rem.last().1)),
        );
    }
}

/// The multiset of package views held by a list of chunks.
pub open spec fn chunks_content(cs: Seq<Seq<Package>>) -> Multiset<
    (Seq<char>, Seq<(Seq<char>, Seq<Seq<char>>)>),
>
    decreases cs.len(),
{
    if cs.len() == 0 {
        Multiset::empty()
    } else {
        chunks_content(cs.drop_last()).add(pkg_views(cs.last()).to_multiset())
    }
}

/// Appending one package to one chunk adds exactly its view to the
/// content.
proof fn lemma_content_update(cs: Seq<Seq<Package>>, i: int, p: Package)
    requires
        0 <= i < cs.len(),
    ensures
        chunks_content(cs.update(i, cs[i].push(p))) == chunks_content(cs).insert(pkg_view(p)),
    decreases cs.len(),
{
    let cs2 = cs.update(i, cs[i].push(p));
    if i == cs.len() - 1 {
        assert(cs2.drop_last() =~= cs.drop_last());
        assert(cs2.last() == cs.last().push(p));
        assert(pkg_views(cs.last().push(p)) =~= pkg_views(cs.last()).push(pkg_view(p)));
        assert(chunks_content(cs2) =~= chunks_content(cs).insert(pkg_view(p)));
    } else {
        assert(cs2.drop_last() =~= cs.drop_last().update(i, cs.drop_last()[i].push(p)));
        assert(cs2.last() == cs.last());
        lemma_content_update(cs.drop_last(), i, p);
        assert(chunks_content(cs2) =~= chunks_content(cs).insert(pkg_view(p)));
    }
}

/// The views of the packages of a pair list.
pub open spec fn pair_views(s: Seq<(Package, u128)>) -> Seq<
    (Seq<char>, Seq<(Seq<char>, Seq<Seq<char>>)>),
> {
    s.map_values(|pr: (Package, u128)| pkg_view(pr.0))
}

/// The LPT assignment distributes exactly the remaining packages over the
/// chunks.
proof fn lemma_lpt_content(rem: Seq<(Package, u128)>, chunks: Seq<Seq<Package>>, sizes: Seq<u128>)
    requires
        chunks.len() == sizes.len(),
        sizes.len() >= 1,
    ensures
        chunks_content(lpt(rem, chunks, sizes).0) == chunks_content(chunks).add(
            pair_views(rem).to_multiset(),
        ),
    decreases rem.len(),
{
    if rem.len() == 0 {
        assert(pair_views(rem).to_multiset() =~= Multiset::empty());
        assert(chunks_content(lpt(rem, chunks, sizes).0) =~= chunks_content(chunks).add(
            pair_views(rem).to_multiset(),
        ));
    } else {
        let pr = rem.last();
        let i = min_idx(sizes);
        lemma_min_idx_char(sizes);
        let chunks2 = chunks.update(i, chunks[i].push(pr.0));
        let sizes2 = sizes.update(i, sat_load(sizes[i], pr.1));
        lemma_lpt_content(rem.drop_last(), chunks2, sizes2);
        lemma_content_update(chunks, i, pr.0);
        assert(pair_views(rem) =~= pair_views(rem.drop_last()).push(pkg_view(pr.0)));
        assert(pair_views(rem).to_multiset() == pair_views(rem.drop_last()).to_multiset().insert(
            pkg_view(pr.0),
        ));
        assert(chunks_content(lpt(rem, chunks, sizes).0) =~= chunks_content(chunks).add(
            pair_views(rem).to_multiset(),
        ));
    }
}

/// The stable insertion keeps the multiset of package views.
proof fn lemma_insert_views(s: Seq<(Package, u128)>, x: (Package, u128))
    ensures
        pair_views(insert_by_size(s, x)).to_multiset() == pair_views(s).to_multiset().insert(
            pkg_view(x.0),
        ),
    decreases s.len(),
{
    if s.len() == 0 {
        assert(pair_views(insert_by_size(s, x)) =~= Seq::empty().push(pkg_view(x.0)));
        assert(pair_views(s) =~= Seq::<
            (Seq<char>, Seq<(Seq<char>, Seq<Seq<char>>)>),
        >::empty());
        assert(pair_views(insert_by_size(s, x)).to_multiset() =~= pair_views(
            s,
        ).to_multiset().insert(pkg_view(x.0)));
    } else if s.last().1 <= x.1 {
        assert(pair_views(s.push(x)) =~= pair_views(s).push(pkg_view(x.0)));
    } else {
        lemma_insert_views(s.drop_last(), x);
        assert(pair_views(insert_by_size(s, x)) =~= pair_views(
            insert_by_size(s.drop_last(), x),
        ).push(pkg_view(s.last().0)));
        assert(pair_views(s) =~= pair_views(s.drop_last()).push(pkg_view(s.last().0)));
        assert(pair_views(insert_by_size(s, x)).to_multiset() =~= pair_views(
            s,
        ).to_multiset().insert(pkg_view(x.0)));
    }
}

/// The stable sort keeps the multiset of package views.
proof fn lemma_sort_views(s: Seq<(Package, u128)>)
    ensures
        pair_views(sort_by_size(s)).to_multiset() == pair_views(s).to_multiset(),
    decreases s.len(),
{
    if s.len() == 0 {
        assert(pair_views(sort_by_size(s)) =~= pair_views(s));
    } else {
        lemma_sort_views(s.drop_last());
        lemma_insert_views(sort_by_size(s.drop_last()), s.last());
        assert(pair_views(s) =~= pair_views(s.drop_last()).push(pkg_view(s.last().0)));
        assert(pair_views(s).to_multiset() == pair_views(s.drop_last()).to_multiset().insert(
            pkg_view(s.last().0),
        ));
    }
}

/// No chunks hold nothing.
proof fn lemma_empty_content(n: int)
    requires
        n >= 0,
    ensures
        chunks_content(empty_chunks(n)) == Multiset::<
            (Seq<char>, Seq<(Seq<char>, Seq<Seq<char>>)>),
        >::empty(),
    decreases n,
{
    if n > 0 {
        assert(empty_chunks(n).drop_last() =~= empty_chunks(n - 1));
        lemma_empty_content(n - 1);
        assert(pkg_views(empty_chunks(n).last()) =~= Seq::<
            (Seq<char>, Seq<(Seq<char>, Seq<Seq<char>>)>),
        >::empty());
        assert(chunks_content(empty_chunks(n)) =~= Multiset::empty());
    } else {
        assert(chunks_content(empty_chunks(0)) =~= Multiset::empty());
    }
}

/// Chunking covers: the union of all workers' assignments is exactly the
/// input packages (as multisets of package views), so the assignments are
/// pairwise disjoint and nothing is lost or duplicated.
pub proof fn lemma_chunks_cover(total: int, pkgs: Seq<Package>, wc: WorkspaceConfig)
    requires
        total >= 1,
    ensures
        chunks_content(Seq::new(total as nat, |w: int| select_chunk_spec(total, w, pkgs, wc)))
            == pkg_views(pkgs).to_multiset(),
{
    let sorted = sort_by_size(paired(pkgs, wc));
    let assigned = lpt(sorted, empty_chunks(total), zero_sizes(total)).0;
    lemma_lpt_len(sorted, empty_chunks(total), zero_sizes(total));
    assert(Seq::new(total as nat, |w: int| select_chunk_spec(total, w, pkgs, wc)) =~= assigned);
    lemma_lpt_content(sorted, empty_chunks(total), zero_sizes(total));
    lemma_empty_content(total);
    lemma_sort_views(paired(pkgs, wc));
    assert(pair_views(paired(pkgs, wc)) =~= pkg_views(pkgs));
    assert(chunks_content(assigned) =~= pkg_views(pkgs).to_multiset());
}

} // verus!
