//! Feature name internment.
//!
//! Feature names are interned in [`FeatureStorage`], which maps each name to
//! a cheap, copyable [`FeatureKey`].  A key is a 64-bit hash of the name,
//! computed by a fixed, deterministic hash function ([`spec_hash`]); the
//! storage keeps its entries sorted by key and looks them up by binary
//! search.  Hash collisions between distinct names would be catastrophic;
//! the storage resolves them by keeping the first-inserted name, and every
//! contract states exactly that behaviour.

use vstd::prelude::*;
use vstd::seq_lib::*;
use vstd::set_lib::lemma_len_subset;
use vstd::string::*;

verus! {

/// The offset basis of the 64-bit FNV-1a hash.
pub const HASH_OFFSET: u64 = 0xcbf29ce484222325;

/// The multiplier of the 64-bit FNV-1a hash.
pub const HASH_PRIME: u64 = 0x100000001b3;

/// One step of the hash: fold a single character into the state.
pub open spec fn hash_step(h: u64, c: char) -> u64 {
    (h ^ ((c as u32) as u64)).wrapping_mul(HASH_PRIME)
}

/// The 64-bit FNV-1a hash of a character sequence.  This fixed function is
/// the identity of a feature name: equal names always produce equal keys,
/// in every storage and every run.
pub open spec fn spec_hash(s: Seq<char>) -> u64
    decreases s.len(),
{
    if s.len() == 0 {
        HASH_OFFSET
    } else {
        hash_step(spec_hash(s.drop_last()), s.last())
    }
}

/// Computes [`spec_hash`] of a string.
pub fn hash_str(s: &str) -> (h: u64)
    ensures
        h == spec_hash(s@),
{
    let len = s.unicode_len();
    let mut h: u64 = HASH_OFFSET;
    let mut i: usize = 0;
    while i < len
        invariant
            len == s@.len(),
            0 <= i <= len,
            h == spec_hash(s@.take(i as int)),
        decreases len - i,
    {
        let c = s.get_char(i);
        h = (h ^ ((c as u32) as u64)).wrapping_mul(HASH_PRIME);
        proof {
            assert(s@.take(i + 1).drop_last() =~= s@.take(i as int));
            assert(s@.take(i + 1).last() == s@[i as int]);
        }
        i = i + 1;
    }
    proof {
        assert(s@.take(len as int) =~= s@);
    }
    h
}

/// A cheap key to a feature in [`FeatureStorage`]: the hash of its name.
#[derive(Clone, Copy, PartialEq, Eq, Structural, Debug, PartialOrd, Ord, Hash)]
pub struct FeatureKey(pub u64);

/// The four-character marker prefix `dep:` that denotes an optional
/// dependency rather than a feature of the package itself.
pub open spec fn dep_prefix() -> Seq<char> {
    seq!['d', 'e', 'p', ':']
}

/// True if a name carries the `dep:` marker prefix.
pub open spec fn is_dep_marker(s: Seq<char>) -> bool {
    s.len() >= 4 && s.subrange(0, 4) == dep_prefix()
}

/// Exec test for the `dep:` marker prefix.
pub fn has_dep_marker(s: &String) -> (r: bool)
    ensures
        r == is_dep_marker(s@),
{
    let slice = s.as_str();
    if slice.unicode_len() < 4 {
        proof {
            assert(!is_dep_marker(s@));
        }
        return false;
    }
    let r = slice.get_char(0) == 'd' && slice.get_char(1) == 'e' && slice.get_char(2) == 'p'
        && slice.get_char(3) == ':';
    proof {
        if r {
            assert(s@.subrange(0, 4) =~= dep_prefix());
        } else {
            assert(s@.subrange(0, 4) != dep_prefix()) by {
                if s@.subrange(0, 4) == dep_prefix() {
                    assert(s@.subrange(0, 4)[0] == 'd');
                    assert(s@.subrange(0, 4)[1] == 'e');
                    assert(s@.subrange(0, 4)[2] == 'p');
                    assert(s@.subrange(0, 4)[3] == ':');
                }
            }
        }
    }
    r
}

/// The feature map of one package: each feature name with the list of
/// feature names (and `dep:` markers) it enables.  Names are unique.
pub struct FeatureMap {
    entries: Vec<(String, Vec<String>)>,
}

/// The mathematical view of a list of map entries, later entries winning.
pub open spec fn entries_view(entries: Seq<(Seq<char>, Seq<Seq<char>>)>) -> Map<
    Seq<char>,
    Seq<Seq<char>>,
>
    decreases entries.len(),
{
    if entries.len() == 0 {
        Map::empty()
    } else {
        entries_view(entries.drop_last()).insert(entries.last().0, entries.last().1)
    }
}

/// The view of one stored entry.
pub open spec fn entry_view(e: (String, Vec<String>)) -> (Seq<char>, Seq<Seq<char>>) {
    (e.0@, e.1@.map_values(|d: String| d@))
}

impl FeatureMap {
    /// The sequence of entries, as mathematical values.
    pub closed spec fn entry_seq(self) -> Seq<(Seq<char>, Seq<Seq<char>>)> {
        self.entries@.map_values(|e: (String, Vec<String>)| entry_view(e))
    }

    /// The map from feature name to dependency list.
    pub open spec fn view(self) -> Map<Seq<char>, Seq<Seq<char>>> {
        entries_view(self.entry_seq())
    }

    /// Well-formed: names are unique.
    pub closed spec fn wf(self) -> bool {
        forall|i: int, j: int|
            0 <= i < j < self.entry_seq().len() ==> (#[trigger] self.entry_seq()[i]).0 != (
            #[trigger] self.entry_seq()[j]).0
    }

    /// Creates an empty feature map.
    pub fn new() -> (r: FeatureMap)
        ensures
            r.wf(),
            r@ == Map::<Seq<char>, Seq<Seq<char>>>::empty(),
            r.len_spec() == 0,
    {
        let r = FeatureMap { entries: Vec::new() };
        proof {
            assert(r.entry_seq() =~= Seq::<(Seq<char>, Seq<Seq<char>>)>::empty());
        }
        r
    }

    /// The number of entries.
    pub closed spec fn len_spec(self) -> int {
        self.entries@.len() as int
    }

    /// Returns how many features the map holds.
    pub fn len(&self) -> (r: usize)
        ensures
            r == self.len_spec(),
    {
        self.entries.len()
    }

    /// The unique-name and view properties of a well-formed map.
    pub proof fn lemma_view(self)
        requires
            self.wf(),
        ensures
            self@.dom().finite(),
            self@.dom().len() == self.len_spec(),
            forall|i: int| 0 <= i < self.entry_seq().len() ==> self@.dom().contains(
                (#[trigger] self.entry_seq()[i]).0,
            ) && self@[self.entry_seq()[i].0] == self.entry_seq()[i].1,
            forall|k: Seq<char>| self@.dom().contains(k) ==> exists|i: int|
                0 <= i < self.entry_seq().len() && (#[trigger] self.entry_seq()[i]).0 == k,
    {
        lemma_entries_view(self.entry_seq());
    }

    /// Index of the entry holding `name`, if any.
    fn find(&self, name: &String) -> (r: Option<usize>)
        ensures
            match r {
                Some(i) => 0 <= i < self.entry_seq().len() && self.entry_seq()[i as int].0
                    == name@,
                None => forall|i: int| 0 <= i < self.entry_seq().len() ==> (
                #[trigger] self.entry_seq()[i]).0 != name@,
            },
    {
        let mut i: usize = 0;
        while i < self.entries.len()
            invariant
                0 <= i <= self.entries@.len(),
                forall|j: int| 0 <= j < i ==> (#[trigger] self.entry_seq()[j]).0 != name@,
            decreases self.entries@.len() - i,
        {
            if self.entries[i].0.eq(name) {
                return Some(i);
            }
            i = i + 1;
        }
        None
    }

    /// True if `name` is a feature of this map.
    pub fn contains_key(&self, name: &String) -> (r: bool)
        requires
            self.wf(),
        ensures
            r == self@.dom().contains(name@),
    {
        proof {
            self.lemma_view();
        }
        self.find(name).is_some()
    }

    /// The dependency list of `name`, if it is a feature of this map.
    pub fn get(&self, name: &String) -> (r: Option<&Vec<String>>)
        requires
            self.wf(),
        ensures
            match r {
                Some(d) => self@.dom().contains(name@) && d@.map_values(|s: String| s@)
                    == self@[name@],
                None => !self@.dom().contains(name@),
            },
    {
        proof {
            self.lemma_view();
        }
        match self.find(name) {
            Some(i) => Some(&self.entries[i].1),
            None => None,
        }
    }

    /// Adds a feature with its dependency list.  A name that is already
    /// present keeps its existing list, and `false` is returned.
    pub fn insert(&mut self, name: String, deps: Vec<String>) -> (r: bool)
        requires
            old(self).wf(),
        ensures
            final(self).wf(),
            r == !old(self)@.dom().contains(name@),
            r ==> final(self)@ == old(self)@.insert(
                name@,
                deps@.map_values(|s: String| s@),
            ) && final(self).len_spec() == old(self).len_spec() + 1,
            !r ==> *final(self) == *old(self),
    {
        proof {
            self.lemma_view();
        }
        match self.find(&name) {
            Some(_) => false,
            None => {
                let ghost nv = name@;
                let ghost dv = deps@.map_values(|s: String| s@);
                self.entries.push((name, deps));
                proof {
                    assert(self.entry_seq() =~= old(self).entry_seq().push((nv, dv)));
                    assert(self.entry_seq().drop_last() =~= old(self).entry_seq());
                    assert forall|i: int, j: int|
                        0 <= i < j < self.entry_seq().len() implies (
                    #[trigger] self.entry_seq()[i]).0 != (#[trigger] self.entry_seq()[j]).0 by {
                        if j == self.entry_seq().len() - 1 {
                            assert(old(self).entry_seq()[i].0 != nv);
                        }
                    }
                }
                true
            },
        }
    }
}

/// The view of a well-formed entry list: a finite map with one key per
/// entry, holding each entry's dependency list.
proof fn lemma_entries_view(entries: Seq<(Seq<char>, Seq<Seq<char>>)>)
    requires
        forall|i: int, j: int| 0 <= i < j < entries.len() ==> (#[trigger] entries[i]).0 != (
        #[trigger] entries[j]).0,
    ensures
        entries_view(entries).dom().finite(),
        entries_view(entries).dom().len() == entries.len(),
        forall|i: int| 0 <= i < entries.len() ==> entries_view(entries).dom().contains(
            (#[trigger] entries[i]).0,
        ) && entries_view(entries)[entries[i].0] == entries[i].1,
        forall|k: Seq<char>| entries_view(entries).dom().contains(k) ==> exists|i: int|
            0 <= i < entries.len() && (#[trigger] entries[i]).0 == k,
    decreases entries.len(),
{
    if entries.len() > 0 {
        let prev = entries.drop_last();
        lemma_entries_view(prev);
        let last = entries.last();
        assert(!entries_view(prev).dom().contains(last.0)) by {
            if entries_view(prev).dom().contains(last.0) {
                let i = choose|i: int| 0 <= i < prev.len() && (#[trigger] prev[i]).0 == last.0;
                assert(entries[i].0 == entries[entries.len() - 1].0);
            }
        }
        assert(entries_view(entries).dom() =~= entries_view(prev).dom().insert(last.0));
        assert forall|i: int| 0 <= i < entries.len() implies entries_view(entries).dom().contains(
            (#[trigger] entries[i]).0,
        ) && entries_view(entries)[entries[i].0] == entries[i].1 by {
            if i < entries.len() - 1 {
                assert(prev[i] == entries[i]);
                assert(entries[i].0 != last.0);
            }
        }
        assert forall|k: Seq<char>| entries_view(entries).dom().contains(k) implies exists|i: int|
            0 <= i < entries.len() && (#[trigger] entries[i]).0 == k by {
            if k == last.0 {
                assert(entries[entries.len() - 1].0 == k);
            } else {
                let i = choose|i: int| 0 <= i < prev.len() && (#[trigger] prev[i]).0 == k;
                assert(entries[i].0 == k);
            }
        }
    }
}

} // verus!

verus! {

/// A dependency edge of the feature graph: `a` lists `b`, and `b` is itself
/// a feature of the map (not a `dep:` marker).
pub open spec fn edge(m: Map<Seq<char>, Seq<Seq<char>>>, a: Seq<char>, b: Seq<char>) -> bool {
    &&& m.dom().contains(a)
    &&& m[a].contains(b)
    &&& m.dom().contains(b)
    &&& !is_dep_marker(b)
}

/// A path of length at least one edge through the feature graph.
pub open spec fn is_path(m: Map<Seq<char>, Seq<Seq<char>>>, p: Seq<Seq<char>>) -> bool {
    p.len() >= 2 && forall|i: int| 0 <= i < p.len() - 1 ==> edge(m, #[trigger] p[i], p[i + 1])
}

/// Transitive reachability: some path of at least one edge leads from
/// `from` to `to`.
pub open spec fn reaches(
    m: Map<Seq<char>, Seq<Seq<char>>>,
    from: Seq<char>,
    to: Seq<char>,
) -> bool {
    exists|p: Seq<Seq<char>>| is_path(m, p) && p.first() == from && p.last() == to
}

/// The transitive dependency closure of `from`, as a set of hashes.
pub open spec fn reach_keys(m: Map<Seq<char>, Seq<Seq<char>>>, from: Seq<char>) -> Set<u64> {
    Set::new(|h: u64| exists|t: Seq<char>| reaches(m, from, t) && #[trigger] spec_hash(t) == h)
}

/// The names interned by inserting `from`: the feature itself and its
/// whole transitive closure.
pub open spec fn interned_names(m: Map<Seq<char>, Seq<Seq<char>>>, from: Seq<char>) -> Set<
    Seq<char>,
> {
    Set::new(|t: Seq<char>| t == from || reaches(m, from, t))
}

/// A single edge is a path of length two.
proof fn lemma_edge_reaches(m: Map<Seq<char>, Seq<Seq<char>>>, a: Seq<char>, b: Seq<char>)
    requires
        edge(m, a, b),
    ensures
        reaches(m, a, b),
{
    let p = seq![a, b];
    assert(is_path(m, p));
    assert(p.first() == a && p.last() == b);
}

/// Reachability extends along an edge.
proof fn lemma_reach_extend(
    m: Map<Seq<char>, Seq<Seq<char>>>,
    a: Seq<char>,
    b: Seq<char>,
    c: Seq<char>,
)
    requires
        reaches(m, a, b),
        edge(m, b, c),
    ensures
        reaches(m, a, c),
{
    let p = choose|p: Seq<Seq<char>>| is_path(m, p) && p.first() == a && p.last() == b;
    let q = p.push(c);
    assert forall|i: int| 0 <= i < q.len() - 1 implies edge(m, #[trigger] q[i], q[i + 1]) by {
        if i < p.len() - 1 {
            assert(edge(m, p[i], p[i + 1]));
        } else {
            assert(q[i] == b);
        }
    }
    assert(is_path(m, q) && q.first() == a && q.last() == c);
}

/// Any set that contains every direct successor of `start` and is closed
/// under edges contains everything reachable from `start`.
proof fn lemma_reach_closed(
    m: Map<Seq<char>, Seq<Seq<char>>>,
    start: Seq<char>,
    s: Set<Seq<char>>,
    t: Seq<char>,
)
    requires
        forall|d: Seq<char>| edge(m, start, d) ==> s.contains(d),
        forall|v: Seq<char>, d: Seq<char>| s.contains(v) && edge(m, v, d) ==> s.contains(d),
        reaches(m, start, t),
    ensures
        s.contains(t),
{
    let p = choose|p: Seq<Seq<char>>| is_path(m, p) && p.first() == start && p.last() == t;
    lemma_path_in(m, start, s, p, p.len() - 1);
}

proof fn lemma_path_in(
    m: Map<Seq<char>, Seq<Seq<char>>>,
    start: Seq<char>,
    s: Set<Seq<char>>,
    p: Seq<Seq<char>>,
    i: int,
)
    requires
        forall|d: Seq<char>| edge(m, start, d) ==> s.contains(d),
        forall|v: Seq<char>, d: Seq<char>| s.contains(v) && edge(m, v, d) ==> s.contains(d),
        is_path(m, p),
        p.first() == start,
        1 <= i < p.len(),
    ensures
        s.contains(p[i]),
    decreases i,
{
    if i == 1 {
        assert(edge(m, p[0], p[1]));
    } else {
        lemma_path_in(m, start, s, p, i - 1);
        assert(edge(m, p[i - 1], p[i]));
    }
}

/// One interned feature: its key (the hash of its name), its name, and its
/// transitive dependency closure.
struct Entry {
    hash: u64,
    name: String,
    deps: Vec<FeatureKey>,
}

/// A container that interns feature names and hands out [`FeatureKey`]s.
///
/// Entries are kept sorted by key, so lookups use binary search.  The key
/// of a name is a deterministic hash ([`spec_hash`]); in the astronomically
/// unlikely event that a second name collides with a stored key, the
/// storage keeps the first entry and the colliding name is not interned.
pub struct FeatureStorage {
    inner: Vec<Entry>,
}

impl FeatureStorage {
    /// The stored keys, in ascending order.
    pub closed spec fn key_seq(self) -> Seq<u64> {
        self.inner@.map_values(|e: Entry| e.hash)
    }

    /// True if some entry is stored under hash `h`.
    pub closed spec fn has_hash(self, h: u64) -> bool {
        exists|i: int| 0 <= i < self.inner@.len() && (#[trigger] self.inner@[i]).hash == h
    }

    /// The index of the entry stored under hash `h`.
    spec fn idx_of(self, h: u64) -> int {
        choose|i: int| 0 <= i < self.inner@.len() && (#[trigger] self.inner@[i]).hash == h
    }

    /// The name stored under hash `h`.
    pub closed spec fn name_at(self, h: u64) -> Seq<char> {
        self.inner@[self.idx_of(h)].name@
    }

    /// The dependency closure stored under hash `h`, in ascending key order.
    pub closed spec fn deps_seq_at(self, h: u64) -> Seq<u64> {
        self.inner@[self.idx_of(h)].deps@.map_values(|k: FeatureKey| k.0)
    }

    /// The dependency closure stored under hash `h`, as a set.
    pub open spec fn deps_at(self, h: u64) -> Set<u64> {
        self.deps_seq_at(h).to_set()
    }

    /// The set of stored names.
    pub open spec fn names(self) -> Set<Seq<char>> {
        Set::new(|t: Seq<char>| exists|h: u64| self.has_hash(h) && self.name_at(h) == t)
    }

    /// The storage invariant: entries strictly sorted by hash, each hash
    /// the hash of its own name, each dependency list strictly sorted.
    pub closed spec fn wf(self) -> bool {
        &&& forall|i: int, j: int|
            0 <= i < j < self.inner@.len() ==> (#[trigger] self.inner@[i]).hash < (
            #[trigger] self.inner@[j]).hash
        &&& forall|i: int| 0 <= i < self.inner@.len() ==> (#[trigger] self.inner@[i]).hash
            == spec_hash(self.inner@[i].name@)
        &&& forall|i: int, p: int, q: int|
            0 <= i < self.inner@.len() && 0 <= p < q < self.inner@[i].deps@.len() ==> (
            #[trigger] self.inner@[i].deps@[p]).0 < (#[trigger] self.inner@[i].deps@[q]).0
    }

    /// The key of every stored name is the hash of that name, and distinct
    /// stored entries never share a key.
    pub proof fn lemma_wf_keys(self)
        requires
            self.wf(),
        ensures
            forall|h: u64| #[trigger] self.has_hash(h) ==> spec_hash(self.name_at(h)) == h,
            forall|h: u64| #[trigger] self.has_hash(h) <==> self.key_seq().contains(h),
            self.key_seq().no_duplicates(),
    {
        assert forall|h: u64| #[trigger] self.has_hash(h) implies self.key_seq().contains(h) by {
            let i = self.idx_of(h);
            assert(self.key_seq()[i] == h);
        }
        assert forall|h: u64| self.key_seq().contains(h) implies self.has_hash(h) by {
            let i = choose|i: int| 0 <= i < self.key_seq().len() && self.key_seq()[i] == h;
            assert(self.inner@[i].hash == h);
        }
    }

    /// Looks up the position of hash `h`, or the sorted insertion point.
    fn find_hash(&self, h: u64) -> (r: Result<usize, usize>)
        requires
            self.wf(),
        ensures
            match r {
                Ok(i) => 0 <= i < self.inner@.len() && self.inner@[i as int].hash == h
                    && self.has_hash(h) && self.idx_of(h) == i,
                Err(i) => !self.has_hash(h) && 0 <= i <= self.inner@.len() && (forall|j: int|
                    0 <= j < i ==> (#[trigger] self.inner@[j]).hash < h) && (forall|j: int|
                    i <= j < self.inner@.len() ==> (#[trigger] self.inner@[j]).hash > h),
            },
    {
        let mut lo: usize = 0;
        let mut hi: usize = self.inner.len();
        while lo < hi
            invariant
                self.wf(),
                0 <= lo <= hi <= self.inner@.len(),
                forall|j: int| 0 <= j < lo ==> (#[trigger] self.inner@[j]).hash < h,
                forall|j: int| hi <= j < self.inner@.len() ==> (#[trigger] self.inner@[j]).hash
                    > h,
            decreases hi - lo,
        {
            let mid = lo + (hi - lo) / 2;
            let mh = self.inner[mid].hash;
            if mh == h {
                proof {
                    assert(self.has_hash(h));
                    let i = self.idx_of(h);
                    if i != mid {
                        if i < mid {
                            assert(self.inner@[i].hash < self.inner@[mid as int].hash);
                        } else {
                            assert(self.inner@[mid as int].hash < self.inner@[i].hash);
                        }
                    }
                }
                return Ok(mid);
            } else if mh < h {
                lo = mid + 1;
            } else {
                hi = mid;
            }
        }
        proof {
            if self.has_hash(h) {
                let i = self.idx_of(h);
                assert(self.inner@[i].hash == h);
            }
        }
        Err(lo)
    }

    /// Creates an empty storage.
    pub fn new() -> (r: FeatureStorage)
        ensures
            r.wf(),
            r.key_seq() == Seq::<u64>::empty(),
    {
        let r = FeatureStorage { inner: Vec::new() };
        proof {
            assert(r.key_seq() =~= Seq::<u64>::empty());
        }
        r
    }

    /// Creates an empty storage with a pre-allocated capacity.
    pub fn with_capacity(capacity: usize) -> (r: FeatureStorage)
        ensures
            r.wf(),
            r.key_seq() == Seq::<u64>::empty(),
    {
        let r = FeatureStorage { inner: Vec::with_capacity(capacity) };
        proof {
            assert(r.key_seq() =~= Seq::<u64>::empty());
        }
        r
    }

    /// Returns how many features are in storage.
    pub fn len(&self) -> (r: usize)
        ensures
            r == self.key_seq().len(),
    {
        self.inner.len()
    }

    /// Creates the key for a given name without inserting anything.
    pub fn create_key(&self, s: &str) -> (r: FeatureKey)
        ensures
            r == FeatureKey(spec_hash(s@)),
    {
        FeatureKey(hash_str(s))
    }

    /// Retrieves the feature name stored under a key, if any.
    pub fn get(&self, key: FeatureKey) -> (r: Option<&String>)
        requires
            self.wf(),
        ensures
            match r {
                Some(name) => self.has_hash(key.0) && name@ == self.name_at(key.0),
                None => !self.has_hash(key.0),
            },
    {
        match self.find_hash(key.0) {
            Ok(i) => Some(&self.inner[i].name),
            Err(_) => None,
        }
    }

    /// Returns the set of all direct and indirect dependencies of the
    /// feature stored under a key, if any.
    pub fn get_dependencies(&self, key: FeatureKey) -> (r: Option<&Vec<FeatureKey>>)
        requires
            self.wf(),
        ensures
            match r {
                Some(d) => self.has_hash(key.0) && d@.map_values(|k: FeatureKey| k.0)
                    == self.deps_seq_at(key.0),
                None => !self.has_hash(key.0),
            },
    {
        match self.find_hash(key.0) {
            Ok(i) => Some(&self.inner[i].deps),
            Err(_) => None,
        }
    }

    /// True if `dependency_key` is a direct or indirect dependency of
    /// `key`; `false` when `key` is not stored at all.
    pub fn is_dependency(&self, key: FeatureKey, dependency_key: FeatureKey) -> (r: bool)
        requires
            self.wf(),
        ensures
            r == (self.has_hash(key.0) && self.deps_at(key.0).contains(dependency_key.0)),
    {
        match self.get_dependencies(key) {
            Some(deps) => {
                let ghost dsq = self.deps_seq_at(key.0);
                let mut i: usize = 0;
                while i < deps.len()
                    invariant
                        self.wf(),
                        self.has_hash(key.0),
                        dsq == self.deps_seq_at(key.0),
                        deps@.map_values(|k: FeatureKey| k.0) == dsq,
                        0 <= i <= deps@.len(),
                        forall|j: int| 0 <= j < i ==> #[trigger] dsq[j] != dependency_key.0,
                    decreases deps@.len() - i,
                {
                    if deps[i].0 == dependency_key.0 {
                        proof {
                            assert(dsq[i as int] == dependency_key.0);
                            assert(dsq.contains(dependency_key.0));
                            assert(dsq.to_set().contains(dependency_key.0));
                        }
                        return true;
                    }
                    i = i + 1;
                }
                proof {
                    if dsq.to_set().contains(dependency_key.0) {
                        let j = choose|j: int| 0 <= j < dsq.len() && dsq[j] == dependency_key.0;
                        assert(dsq[j] != dependency_key.0);
                    }
                }
                false
            },
            None => false,
        }
    }

    /// Returns all stored keys, in ascending order.
    pub fn keys(&self) -> (r: Vec<FeatureKey>)
        ensures
            r@.map_values(|k: FeatureKey| k.0) == self.key_seq(),
    {
        let mut r: Vec<FeatureKey> = Vec::with_capacity(self.inner.len());
        let mut i: usize = 0;
        while i < self.inner.len()
            invariant
                0 <= i <= self.inner@.len(),
                r@.len() == i,
                forall|j: int| 0 <= j < i ==> (#[trigger] r@[j]).0 == self.key_seq()[j],
            decreases self.inner@.len() - i,
        {
            r.push(FeatureKey(self.inner[i].hash));
            i = i + 1;
        }
        proof {
            assert(r@.map_values(|k: FeatureKey| k.0) =~= self.key_seq());
        }
        r
    }
}

} // verus!

verus! {

/// Shorthand for the views of a vector of strings.
pub open spec fn views_of(v: Seq<String>) -> Seq<Seq<char>> {
    v.map_values(|s: String| s@)
}

/// Linear membership test on a vector of strings.
fn vec_contains_string(v: &Vec<String>, s: &String) -> (r: bool)
    ensures
        r == views_of(v@).contains(s@),
{
    let mut i: usize = 0;
    while i < v.len()
        invariant
            0 <= i <= v@.len(),
            forall|j: int| 0 <= j < i ==> #[trigger] views_of(v@)[j] != s@,
        decreases v@.len() - i,
    {
        if v[i].eq(s) {
            proof {
                assert(views_of(v@)[i as int] == s@);
            }
            return true;
        }
        i = i + 1;
    }
    proof {
        if views_of(v@).contains(s@) {
            let j = choose|j: int| 0 <= j < views_of(v@).len() && views_of(v@)[j] == s@;
            assert(views_of(v@)[j] != s@);
        }
    }
    false
}

/// A duplicate-free list of names, all in the map's domain, is no longer
/// than the map.
proof fn lemma_visited_bound(v: Seq<Seq<char>>, m: FeatureMap)
    requires
        m.wf(),
        v.no_duplicates(),
        forall|j: int| 0 <= j < v.len() ==> m@.dom().contains(#[trigger] v[j]),
    ensures
        v.len() <= m.len_spec(),
{
    m.lemma_view();
    v.unique_seq_to_set();
    assert(v.to_set().subset_of(m@.dom()));
    lemma_len_subset(v.to_set(), m@.dom());
}

/// Membership facts for appending one name to a list of names.
proof fn lemma_views_push(v: Seq<Seq<char>>, x: Seq<char>)
    ensures
        forall|t: Seq<char>| v.contains(t) ==> #[trigger] v.push(x).contains(t),
        v.push(x).contains(x),
        forall|t: Seq<char>| #[trigger] v.push(x).contains(t) ==> v.contains(t) || t == x,
{
    assert forall|t: Seq<char>| v.contains(t) implies #[trigger] v.push(x).contains(t) by {
        let j = choose|j: int| 0 <= j < v.len() && v[j] == t;
        assert(v.push(x)[j] == t);
    }
    assert(v.push(x)[v.len() as int] == x);
    assert forall|t: Seq<char>| #[trigger] v.push(x).contains(t) implies v.contains(t) || t
        == x by {
        let j = choose|j: int| 0 <= j < v.push(x).len() && v.push(x)[j] == t;
        if j < v.len() {
            assert(v[j] == t);
        }
    }
}

/// Computes the set of feature names transitively reachable from `start`
/// along dependency edges: a breadth-first walk over the feature map.
fn reach_list(map: &FeatureMap, start: &String) -> (r: Vec<String>)
    requires
        map.wf(),
    ensures
        views_of(r@).no_duplicates(),
        forall|t: Seq<char>| #[trigger] views_of(r@).contains(t) <==> reaches(map@, start@, t),
        forall|j: int| 0 <= j < r@.len() ==> map@.dom().contains(#[trigger] views_of(r@)[j]),
{
    proof {
        map.lemma_view();
    }
    let mut visited: Vec<String> = Vec::new();
    let mut pending: Vec<String> = Vec::new();

    // Process the direct successors of `start`.
    match map.get(start) {
        Some(deps) => {
            let mut di: usize = 0;
            while di < deps.len()
                invariant
                    map.wf(),
                    map@.dom().finite(),
                    map@.dom().len() == map.len_spec(),
                    map@.dom().contains(start@),
                    deps@.map_values(|s: String| s@) == map@[start@],
                    0 <= di <= deps@.len(),
                    views_of(visited@).no_duplicates(),
                    visited@.len() <= map.len_spec(),
                    views_of(pending@) == views_of(visited@),
                    forall|j: int| 0 <= j < visited@.len() ==> map@.dom().contains(
                        #[trigger] views_of(visited@)[j],
                    ),
                    forall|j: int| 0 <= j < visited@.len() ==> reaches(
                        map@,
                        start@,
                        #[trigger] views_of(visited@)[j],
                    ),
                    forall|d: int| 0 <= d < di && edge(map@, start@, #[trigger] map@[start@][d])
                        ==> views_of(visited@).contains(map@[start@][d]),
                decreases deps@.len() - di,
            {
                let d = &deps[di];
                proof {
                    assert(map@[start@][di as int] == d@);
                }
                if map.contains_key(d) && !has_dep_marker(d) {
                    if !vec_contains_string(&visited, d) {
                        let ghost vis0 = visited@;
                        let ghost pend0 = pending@;
                        visited.push(d.clone());
                        pending.push(d.clone());
                        proof {
                            assert(views_of(visited@) =~= views_of(vis0).push(d@));
                            assert(views_of(pending@) =~= views_of(pend0).push(d@));
                            lemma_views_push(views_of(vis0), d@);
                            lemma_views_push(views_of(pend0), d@);
                            assert(map@[start@].contains(d@));
                            assert(edge(map@, start@, d@));
                            lemma_edge_reaches(map@, start@, d@);
                            lemma_visited_bound(views_of(visited@), *map);
                        }
                    }
                }
                di = di + 1;
            }
        },
        None => {},
    }

    // Drain the worklist.
    while pending.len() > 0
        invariant
            map.wf(),
            map@.dom().finite(),
            map@.dom().len() == map.len_spec(),
            views_of(visited@).no_duplicates(),
            visited@.len() <= map.len_spec(),
            forall|j: int| 0 <= j < pending@.len() ==> views_of(visited@).contains(
                #[trigger] views_of(pending@)[j],
            ),
            forall|j: int| 0 <= j < visited@.len() ==> map@.dom().contains(
                #[trigger] views_of(visited@)[j],
            ),
            forall|j: int| 0 <= j < visited@.len() ==> reaches(
                map@,
                start@,
                #[trigger] views_of(visited@)[j],
            ),
            forall|d: Seq<char>| edge(map@, start@, d) ==> views_of(visited@).contains(d),
            forall|v: Seq<char>, d: Seq<char>|
                views_of(visited@).contains(v) && !views_of(pending@).contains(v) && edge(
                    map@,
                    v,
                    d,
                ) ==> views_of(visited@).contains(d),
        decreases map.len_spec() + 1 - visited@.len(), pending@.len(),
    {
        let ghost pend_start = pending@;
        let ghost vis_start = visited@;
        let x = match pending.pop() {
            Some(x) => x,
            None => {
                proof {
                    assert(false);
                }
                unreached()
            },
        };
        proof {
            assert(views_of(pend_start) =~= views_of(pending@).push(x@));
            lemma_views_push(views_of(pending@), x@);
            assert(views_of(pend_start).contains(x@)) by {
                assert(views_of(pend_start)[pend_start.len() - 1] == x@);
            }
            assert(views_of(visited@).contains(x@));
            assert(reaches(map@, start@, x@)) by {
                let j = choose|j: int|
                    0 <= j < views_of(visited@).len() && views_of(visited@)[j] == x@;
                assert(reaches(map@, start@, views_of(visited@)[j]));
            }
            assert(forall|j: int| 0 <= j < pending@.len() ==> views_of(pend_start)[j]
                == #[trigger] views_of(pending@)[j]);
        }
        match map.get(&x) {
            Some(deps) => {
                let ghost p0 = pending@.len() as int;
                let ghost vis0 = visited@.len() as int;
                let mut di: usize = 0;
                while di < deps.len()
                    invariant
                        map.wf(),
                        map@.dom().finite(),
                        map@.dom().len() == map.len_spec(),
                        map@.dom().contains(x@),
                        deps@.map_values(|s: String| s@) == map@[x@],
                        0 <= di <= deps@.len(),
                        views_of(visited@).no_duplicates(),
                        visited@.len() <= map.len_spec(),
                        vis0 <= visited@.len(),
                        pending@.len() == p0 + (visited@.len() - vis0),
                        forall|j: int| 0 <= j < pending@.len() ==> views_of(visited@).contains(
                            #[trigger] views_of(pending@)[j],
                        ),
                        forall|j: int| 0 <= j < visited@.len() ==> map@.dom().contains(
                            #[trigger] views_of(visited@)[j],
                        ),
                        forall|j: int| 0 <= j < visited@.len() ==> reaches(
                            map@,
                            start@,
                            #[trigger] views_of(visited@)[j],
                        ),
                        views_of(visited@).contains(x@),
                        reaches(map@, start@, x@),
                        forall|d: Seq<char>| edge(map@, start@, d) ==> views_of(
                            visited@,
                        ).contains(d),
                        forall|v: Seq<char>, d: Seq<char>|
                            v != x@ && views_of(visited@).contains(v) && !views_of(
                                pending@,
                            ).contains(v) && edge(map@, v, d) ==> views_of(visited@).contains(d),
                        forall|e: int| 0 <= e < di && edge(map@, x@, #[trigger] map@[x@][e])
                            ==> views_of(visited@).contains(map@[x@][e]),
                    decreases deps@.len() - di,
                {
                    let d = &deps[di];
                    proof {
                        assert(map@[x@][di as int] == d@);
                    }
                    if map.contains_key(d) && !has_dep_marker(d) {
                        if !vec_contains_string(&visited, d) {
                            let ghost visb = visited@;
                            let ghost pendb = pending@;
                            visited.push(d.clone());
                            pending.push(d.clone());
                            proof {
                                assert(views_of(visited@) =~= views_of(visb).push(d@));
                                assert(views_of(pending@) =~= views_of(pendb).push(d@));
                                lemma_views_push(views_of(visb), d@);
                                lemma_views_push(views_of(pendb), d@);
                                assert(map@[x@].contains(d@));
                                assert(edge(map@, x@, d@));
                                lemma_reach_extend(map@, start@, x@, d@);
                                lemma_visited_bound(views_of(visited@), *map);
                            }
                        }
                    }
                    di = di + 1;
                }
            },
            None => {
                proof {
                    // Every visited name is in the domain, so the lookup
                    // cannot fail for a popped name.
                    assert(map@.dom().contains(x@));
                    assert(false);
                }
            },
        }
    }

    // The worklist is empty: the visited set is closed under edges, so it
    // contains exactly the reachable names.
    proof {
        assert forall|t: Seq<char>| reaches(map@, start@, t) implies views_of(
            visited@,
        ).contains(t) by {
            let s = Set::new(|u: Seq<char>| views_of(visited@).contains(u));
            lemma_reach_closed(map@, start@, s, t);
        }
        assert forall|t: Seq<char>| views_of(visited@).contains(t) implies reaches(
            map@,
            start@,
            t,
        ) by {
            let j = choose|j: int|
                0 <= j < views_of(visited@).len() && views_of(visited@)[j] == t;
            assert(reaches(map@, start@, views_of(visited@)[j]));
        }
    }
    visited
}

} // verus!

verus! {

/// Shorthand for the raw hashes of a vector of keys.
pub open spec fn key_views(v: Seq<FeatureKey>) -> Seq<u64> {
    v.map_values(|k: FeatureKey| k.0)
}

/// Strictly ascending key vector.
pub open spec fn keys_sorted(v: Seq<FeatureKey>) -> bool {
    forall|p: int, q: int| 0 <= p < q < v.len() ==> (#[trigger] v[p]).0 < (#[trigger] v[q]).0
}

/// Inserts a key into a sorted key vector, keeping it sorted and
/// duplicate-free.
fn sorted_key_insert(v: &mut Vec<FeatureKey>, k: FeatureKey)
    requires
        keys_sorted(old(v)@),
    ensures
        keys_sorted(final(v)@),
        forall|h: u64| key_views(final(v)@).contains(h) <==> key_views(old(v)@).contains(h) || h
            == k.0,
{
    let mut i: usize = 0;
    while i < v.len() && v[i].0 < k.0
        invariant
            keys_sorted(v@),
            *v == *old(v),
            0 <= i <= v@.len(),
            forall|j: int| 0 <= j < i ==> (#[trigger] v@[j]).0 < k.0,
        decreases v@.len() - i,
    {
        i = i + 1;
    }
    if i < v.len() && v[i].0 == k.0 {
        proof {
            assert(key_views(v@)[i as int] == k.0);
            assert(key_views(v@).contains(k.0));
        }
        return ;
    }
    let ghost v0 = v@;
    v.insert(i, k);
    proof {
        assert(v@ =~= v0.insert(i as int, k));
        assert forall|p: int, q: int| 0 <= p < q < v@.len() implies (#[trigger] v@[p]).0 < (
        #[trigger] v@[q]).0 by {
            if q < i {
            } else if p < i && q == i {
            } else if p < i && q > i {
                assert(v@[q] == v0[q - 1]);
                assert(v0[q - 1].0 > k.0 || q - 1 >= i);
                if q - 1 == i as int {
                    assert(v0[q - 1].0 > k.0);
                } else {
                    assert(v0[i as int].0 >= k.0);
                    assert(v0[i as int].0 > k.0);
                }
            } else if p == i {
                assert(v@[q] == v0[q - 1]);
                assert(v0[q - 1].0 >= v0[i as int].0);
                assert(v0[i as int].0 > k.0);
            } else {
                assert(v@[p] == v0[p - 1]);
                assert(v@[q] == v0[q - 1]);
            }
        }
        assert forall|h: u64| key_views(v@).contains(h) implies key_views(v0).contains(h) || h
            == k.0 by {
            let j = choose|j: int| 0 <= j < key_views(v@).len() && key_views(v@)[j] == h;
            if j < i {
                assert(key_views(v0)[j] == h);
            } else if j > i {
                assert(key_views(v0)[j - 1] == h);
            }
        }
        assert forall|h: u64| key_views(v0).contains(h) implies key_views(v@).contains(h) by {
            let j = choose|j: int| 0 <= j < key_views(v0).len() && key_views(v0)[j] == h;
            if j < i {
                assert(key_views(v@)[j] == h);
            } else {
                assert(key_views(v@)[j + 1] == h);
            }
        }
        assert(key_views(v@)[i as int] == k.0);
    }
}

/// The keys of every name transitively reachable from `m`, sorted.
fn closure_keys(map: &FeatureMap, m: &String) -> (r: Vec<FeatureKey>)
    requires
        map.wf(),
    ensures
        keys_sorted(r@),
        key_views(r@).to_set() == reach_keys(map@, m@),
{
    let names = reach_list(map, m);
    let mut r: Vec<FeatureKey> = Vec::new();
    let mut i: usize = 0;
    while i < names.len()
        invariant
            map.wf(),
            keys_sorted(r@),
            0 <= i <= names@.len(),
            forall|t: Seq<char>| #[trigger] views_of(names@).contains(t) <==> reaches(
                map@,
                m@,
                t,
            ),
            forall|h: u64| key_views(r@).contains(h) <==> exists|j: int|
                0 <= j < i && spec_hash(#[trigger] views_of(names@)[j]) == h,
        decreases names@.len() - i,
    {
        let k = FeatureKey(hash_str(names[i].as_str()));
        proof {
            assert(views_of(names@)[i as int] == names@[i as int]@);
        }
        sorted_key_insert(&mut r, k);
        i = i + 1;
    }
    proof {
        assert forall|h: u64| key_views(r@).contains(h) implies reach_keys(map@, m@).contains(
            h,
        ) by {
            let j = choose|j: int|
                0 <= j < names@.len() && spec_hash(#[trigger] views_of(names@)[j]) == h;
            assert(views_of(names@).contains(views_of(names@)[j]));
            assert(reaches(map@, m@, views_of(names@)[j]));
        }
        assert forall|h: u64| reach_keys(map@, m@).contains(h) implies key_views(r@).contains(
            h,
        ) by {
            let t = choose|t: Seq<char>| reaches(map@, m@, t) && #[trigger] spec_hash(t) == h;
            assert(views_of(names@).contains(t));
            let j = choose|j: int|
                0 <= j < views_of(names@).len() && views_of(names@)[j] == t;
            assert(spec_hash(views_of(names@)[j]) == h);
        }
        assert(key_views(r@).to_set() =~= reach_keys(map@, m@));
    }
    r
}

/// What [`FeatureStorage::insert`] guarantees: existing entries are
/// untouched, the feature and its whole closure are interned, and every
/// fresh entry is one of the interned names with its reachability closure.
pub open spec fn insert_post(
    pre: FeatureStorage,
    post: FeatureStorage,
    feature: Seq<char>,
    m: Map<Seq<char>, Seq<Seq<char>>>,
) -> bool {
    &&& (forall|h0: u64| #[trigger] pre.has_hash(h0) ==> post.has_hash(h0) && post.name_at(h0)
        == pre.name_at(h0) && post.deps_seq_at(h0) == pre.deps_seq_at(h0))
    &&& (forall|t: Seq<char>| interned_names(m, feature).contains(t) ==> post.has_hash(
        spec_hash(t),
    ))
    &&& (forall|h0: u64| post.has_hash(h0) && !pre.has_hash(h0) ==> exists|t: Seq<char>|
        interned_names(m, feature).contains(t) && #[trigger] spec_hash(t) == h0 && post.name_at(
            h0,
        ) == t && post.deps_at(h0) == reach_keys(m, t))
    &&& (forall|h0: u64| #[trigger] post.has_hash(h0) ==> pre.has_hash(h0) || exists|
        t: Seq<char>,
    | interned_names(m, feature).contains(t) && #[trigger] spec_hash(t) == h0)
}

impl FeatureStorage {
    /// Every stored entry is found under its own hash.
    proof fn lemma_lookup(self, i: int)
        requires
            self.wf(),
            0 <= i < self.inner@.len(),
        ensures
            self.has_hash(self.inner@[i].hash),
            self.idx_of(self.inner@[i].hash) == i,
            self.name_at(self.inner@[i].hash) == self.inner@[i].name@,
            self.deps_seq_at(self.inner@[i].hash) == self.inner@[i].deps@.map_values(
                |k: FeatureKey| k.0,
            ),
    {
        let h = self.inner@[i].hash;
        assert(self.has_hash(h));
        let j = self.idx_of(h);
        if j != i {
            if j < i {
                assert(self.inner@[j].hash < self.inner@[i].hash);
            } else {
                assert(self.inner@[i].hash < self.inner@[j].hash);
            }
        }
    }

    /// Inserts a fresh entry at its sorted position.
    fn insert_at(&mut self, pos: usize, hash: u64, name: String, deps: Vec<FeatureKey>)
        requires
            old(self).wf(),
            pos <= old(self).inner@.len(),
            forall|j: int| 0 <= j < pos ==> (#[trigger] old(self).inner@[j]).hash < hash,
            forall|j: int| pos <= j < old(self).inner@.len() ==> (
            #[trigger] old(self).inner@[j]).hash > hash,
            hash == spec_hash(name@),
            keys_sorted(deps@),
        ensures
            final(self).wf(),
            final(self).has_hash(hash),
            final(self).name_at(hash) == name@,
            final(self).deps_seq_at(hash) == key_views(deps@),
            forall|h0: u64| #[trigger] old(self).has_hash(h0) ==> final(self).has_hash(h0)
                && final(self).name_at(h0) == old(self).name_at(h0) && final(self).deps_seq_at(
                h0,
            ) == old(self).deps_seq_at(h0),
            forall|h0: u64| #[trigger] final(self).has_hash(h0) ==> old(self).has_hash(h0) || h0
                == hash,
            final(self).key_seq().len() == old(self).key_seq().len() + 1,
    {
        let ghost dv = key_views(deps@);
        let ghost nv = name@;
        self.inner.insert(pos, Entry { hash, name, deps });
        proof {
            let o = old(self).inner@;
            let n = self.inner@;
            assert(n == o.insert(pos as int, n[pos as int]));
            assert(n[pos as int].hash == hash && n[pos as int].name@ == nv && key_views(
                n[pos as int].deps@,
            ) == dv);
            assert forall|i: int, j: int| 0 <= i < j < n.len() implies (#[trigger] n[i]).hash < (
            #[trigger] n[j]).hash by {
                if j < pos {
                } else if i < pos && j == pos {
                } else if i < pos && j > pos {
                    assert(n[j] == o[j - 1]);
                } else if i == pos {
                    assert(n[j] == o[j - 1]);
                } else {
                    assert(n[i] == o[i - 1]);
                    assert(n[j] == o[j - 1]);
                }
            }
            self.lemma_lookup(pos as int);
            assert forall|h0: u64| #[trigger] old(self).has_hash(h0) implies self.has_hash(h0)
                && self.name_at(h0) == old(self).name_at(h0) && self.deps_seq_at(h0) == old(
                self,
            ).deps_seq_at(h0) by {
                let i = old(self).idx_of(h0);
                old(self).lemma_lookup(i);
                let ni = if i < pos { i } else { i + 1 };
                assert(n[ni] == o[i]);
                self.lemma_lookup(ni);
            }
            assert forall|h0: u64| #[trigger] self.has_hash(h0) implies old(self).has_hash(h0)
                || h0 == hash by {
                let i = self.idx_of(h0);
                if i != pos {
                    let oi = if i < pos { i } else { i - 1 };
                    assert(o[oi] == n[i]);
                    old(self).lemma_lookup(oi);
                }
            }
        }
    }

    /// Interns a feature together with its whole transitive dependency
    /// closure, returning the feature's key.
    ///
    /// Every name reachable from `feature` through the map is interned as
    /// well, each with its own closure.  Entries already in storage are
    /// never modified; in particular, a name whose key collides with a
    /// stored entry leaves the storage unchanged.
    pub fn insert(&mut self, feature: String, features_map: &FeatureMap) -> (r: FeatureKey)
        requires
            old(self).wf(),
            features_map.wf(),
        ensures
            final(self).wf(),
            r == FeatureKey(spec_hash(feature@)),
            insert_post(*old(self), *final(self), feature@, features_map@),
    {
        let key = FeatureKey(hash_str(feature.as_str()));
        let mut to_intern = reach_list(features_map, &feature);
        if !vec_contains_string(&to_intern, &feature) {
            let ghost t0 = to_intern@;
            to_intern.push(feature.clone());
            proof {
                assert(views_of(to_intern@) =~= views_of(t0).push(feature@));
                lemma_views_push(views_of(t0), feature@);
            }
        }
        proof {
            assert forall|t: Seq<char>| #[trigger] views_of(to_intern@).contains(t) implies
                interned_names(features_map@, feature@).contains(t) by {}
            assert forall|t: Seq<char>| interned_names(features_map@, feature@).contains(
                t,
            ) implies views_of(to_intern@).contains(t) by {}
        }
        let ghost iset = interned_names(features_map@, feature@);
        let ghost orig = *self;
        let mut mi: usize = 0;
        while mi < to_intern.len()
            invariant
                self.wf(),
                features_map.wf(),
                forall|t: Seq<char>| #[trigger] views_of(to_intern@).contains(t) <==> iset.contains(
                    t,
                ),
                iset == interned_names(features_map@, feature@),
                0 <= mi <= to_intern@.len(),
                forall|h0: u64| #[trigger] orig.has_hash(h0) ==> self.has_hash(h0)
                    && self.name_at(h0) == orig.name_at(h0) && self.deps_seq_at(h0)
                    == orig.deps_seq_at(h0),
                forall|j: int| 0 <= j < mi ==> self.has_hash(
                    spec_hash(#[trigger] views_of(to_intern@)[j]),
                ),
                forall|h0: u64| self.has_hash(h0) && !orig.has_hash(h0) ==> exists|t: Seq<char>|
                    iset.contains(t) && #[trigger] spec_hash(t) == h0 && self.name_at(h0) == t
                        && self.deps_at(h0) == reach_keys(features_map@, t),
                forall|h0: u64| #[trigger] self.has_hash(h0) ==> orig.has_hash(h0)
                    || exists|t: Seq<char>| iset.contains(t) && #[trigger] spec_hash(t) == h0,
            decreases to_intern@.len() - mi,
        {
            let ghost snap = *self;
            let m = &to_intern[mi];
            proof {
                assert(views_of(to_intern@)[mi as int] == m@);
                assert(views_of(to_intern@).contains(m@));
            }
            let h = hash_str(m.as_str());
            match self.find_hash(h) {
                Ok(_) => {},
                Err(pos) => {
                    let deps = closure_keys(features_map, m);
                    self.insert_at(pos, h, m.clone(), deps);
                    proof {
                        assert(self.deps_at(h) =~= reach_keys(features_map@, m@));
                    }
                },
            }
            proof {
                assert forall|h0: u64| self.has_hash(h0) && !orig.has_hash(h0) implies exists|
                    t: Seq<char>,
                |
                    iset.contains(t) && #[trigger] spec_hash(t) == h0 && self.name_at(h0) == t
                        && self.deps_at(h0) == reach_keys(features_map@, t) by {
                    if snap.has_hash(h0) {
                        let t = choose|t: Seq<char>|
                            iset.contains(t) && #[trigger] spec_hash(t) == h0 && snap.name_at(h0)
                                == t && snap.deps_at(h0) == reach_keys(features_map@, t);
                        assert(self.name_at(h0) == t && self.deps_seq_at(h0) == snap.deps_seq_at(
                            h0,
                        ));
                    } else {
                        assert(h0 == spec_hash(m@));
                        assert(iset.contains(m@) && self.name_at(h0) == m@ && self.deps_at(h0)
                            == reach_keys(features_map@, m@));
                    }
                }
            }
            mi = mi + 1;
        }
        proof {
            assert forall|t: Seq<char>| iset.contains(t) implies self.has_hash(
                spec_hash(t),
            ) by {
                assert(views_of(to_intern@).contains(t));
                let j = choose|j: int|
                    0 <= j < views_of(to_intern@).len() && views_of(to_intern@)[j] == t;
                assert(self.has_hash(spec_hash(views_of(to_intern@)[j])));
            }
        }
        key
    }
}

} // verus!

verus! {

/// A feature whose dependency list is exactly `[dep:<its own name>]`: the
/// implicitly generated feature of an optional dependency.
pub open spec fn spec_is_optional(name: Seq<char>, deps: Seq<Seq<char>>) -> bool {
    deps.len() == 1 && deps[0] == dep_prefix() + name
}

/// Exec test for an optional-dependency feature.
fn is_optional_dep(name: &String, deps: &Vec<String>) -> (r: bool)
    ensures
        r == spec_is_optional(name@, deps@.map_values(|s: String| s@)),
{
    let ghost dv = deps@.map_values(|s: String| s@);
    if deps.len() != 1 {
        return false;
    }
    let d = &deps[0];
    proof {
        assert(dv[0] == d@);
    }
    let ds = d.as_str();
    let ns = name.as_str();
    let dlen = ds.unicode_len();
    let nlen = ns.unicode_len();
    if dlen < 4 || dlen - 4 != nlen {
        proof {
            assert(d@ != dep_prefix() + name@);
        }
        return false;
    }
    if !has_dep_marker(d) {
        proof {
            assert(d@ != dep_prefix() + name@) by {
                if d@ == dep_prefix() + name@ {
                    assert(d@.subrange(0, 4) =~= dep_prefix());
                }
            }
        }
        return false;
    }
    let mut i: usize = 0;
    while i < nlen
        invariant
            ds@ == d@,
            ns@ == name@,
            deps@.map_values(|s: String| s@).len() == 1,
            deps@.map_values(|s: String| s@)[0] == d@,
            nlen == name@.len(),
            dlen == d@.len(),
            dlen - 4 == nlen,
            0 <= i <= nlen,
            forall|j: int| 0 <= j < i ==> d@[j + 4] == name@[j],
        decreases nlen - i,
    {
        if ds.get_char(i + 4) != ns.get_char(i) {
            proof {
                assert(d@ != dep_prefix() + name@) by {
                    if d@ == dep_prefix() + name@ {
                        assert(d@[i + 4] == name@[i as int]);
                    }
                }
            }
            return false;
        }
        i = i + 1;
    }
    proof {
        assert(d@ =~= dep_prefix() + name@);
    }
    true
}

/// The feature map after optional-dependency filtering: when `skip` is
/// set, optional-dependency features are removed; otherwise the map is
/// unchanged.
pub open spec fn filtered_map(m: Map<Seq<char>, Seq<Seq<char>>>, skip: bool) -> Map<
    Seq<char>,
    Seq<Seq<char>>,
> {
    if !skip {
        m
    } else {
        Map::new(|k: Seq<char>| m.dom().contains(k) && !spec_is_optional(k, m[k]), |k: Seq<char>| m[k])
    }
}

/// A name reachable through the feature graph is itself in the map.
pub proof fn lemma_reaches_in_dom(
    m: Map<Seq<char>, Seq<Seq<char>>>,
    from: Seq<char>,
    to: Seq<char>,
)
    requires
        reaches(m, from, to),
    ensures
        m.dom().contains(to),
{
    let p = choose|p: Seq<Seq<char>>| is_path(m, p) && p.first() == from && p.last() == to;
    assert(edge(m, p[p.len() - 2], p[p.len() - 1]));
}

/// Interns all features of the given map, skipping optional-dependency
/// features when the configuration asks for it.
///
/// Afterwards the storage holds exactly the (filtered) map's feature
/// names, each with its transitive dependency closure over the filtered
/// map — except that if two distinct names collide on one key, only the
/// first-processed name is stored.
#[verifier::loop_isolation(false)]
pub fn intern_features(features: FeatureMap, config: &crate::config::Config) -> (r:
    FeatureStorage)
    requires
        features.wf(),
    ensures
        r.wf(),
        ({
            let f = filtered_map(features@, config.skip_optional_deps_spec());
            &&& (forall|t: Seq<char>| f.dom().contains(t) ==> r.has_hash(spec_hash(t)))
            &&& (forall|h: u64| #[trigger] r.has_hash(h) ==> exists|t: Seq<char>|
                f.dom().contains(t) && #[trigger] spec_hash(t) == h && r.name_at(h) == t
                    && r.deps_at(h) == reach_keys(f, t))
        }),
{
    let skip = config.skip_optional_deps();
    let ghost fm = filtered_map(features@, skip);

    // Remove optional-dependency features first, so that they cannot
    // reappear while closures are computed.
    let filtered: FeatureMap = if skip {
        let mut out = FeatureMap::new();
        proof {
            features.lemma_view();
        }
        let mut i: usize = 0;
        while i < filtered_len(&features)
            invariant
                out.wf(),
                0 <= i <= features.entry_seq().len(),
                forall|k: Seq<char>| #[trigger] out@.dom().contains(k) ==> features@.dom().contains(
                    k,
                ) && !spec_is_optional(k, features@[k]) && out@[k] == features@[k],
                forall|j: int| 0 <= j < i && !spec_is_optional(
                    (#[trigger] features.entry_seq()[j]).0,
                    features.entry_seq()[j].1,
                ) ==> out@.dom().contains(features.entry_seq()[j].0),
            decreases features.entry_seq().len() - i,
        {
            let name_ref = feature_entry_name(&features, i);
            let deps_ref = feature_entry_deps(&features, i);
            proof {
                assert(features.entry_seq()[i as int].0 == name_ref@);
                assert(features.entry_seq()[i as int].1 == deps_ref@.map_values(
                    |s: String| s@,
                ));
            }
            if !is_optional_dep(name_ref, deps_ref) {
                let ghost nv = name_ref@;
                let name = name_ref.clone();
                let deps = clone_string_vec(deps_ref);
                out.insert(name, deps);
                proof {
                    assert(features@.dom().contains(nv));
                    assert(features@[nv] == features.entry_seq()[i as int].1);
                    assert(!spec_is_optional(nv, features@[nv]));
                    assert(out@.dom().contains(nv));
                }
            }
            i = i + 1;
        }
        proof {
            assert(out@ =~= fm) by {
                assert forall|k: Seq<char>| fm.dom().contains(k) implies out@.dom().contains(
                    k,
                ) by {
                    let j = choose|j: int|
                        0 <= j < features.entry_seq().len() && (
                        #[trigger] features.entry_seq()[j]).0 == k;
                    assert(features.entry_seq()[j].1 == features@[k]);
                    assert(!spec_is_optional(
                        features.entry_seq()[j].0,
                        features.entry_seq()[j].1,
                    ));
                }
            }
        }
        out
    } else {
        features
    };
    proof {
        assert(filtered@ == fm);
        filtered.lemma_view();
    }

    let n = filtered.len();
    let mut storage = FeatureStorage::with_capacity(n);
    proof {
        assert(storage.key_seq().len() == 0);
        assert forall|h0: u64| !storage.has_hash(h0) by {
            storage.lemma_wf_keys();
            if storage.has_hash(h0) {
                assert(storage.key_seq().contains(h0));
            }
        }
    }

    let mut i: usize = 0;
    while i < filtered_len(&filtered)
        invariant
            filtered.wf(),
            filtered@ == fm,
            storage.wf(),
            0 <= i <= filtered.entry_seq().len(),
            forall|i2: int| 0 <= i2 < filtered.entry_seq().len() ==> fm.dom().contains(
                (#[trigger] filtered.entry_seq()[i2]).0,
            ) && fm[filtered.entry_seq()[i2].0] == filtered.entry_seq()[i2].1,
            forall|j: int| 0 <= j < i ==> storage.has_hash(
                spec_hash((#[trigger] filtered.entry_seq()[j]).0),
            ),
            forall|h0: u64| #[trigger] storage.has_hash(h0) ==> exists|t: Seq<char>|
                fm.dom().contains(t) && #[trigger] spec_hash(t) == h0 && storage.name_at(h0) == t
                    && storage.deps_at(h0) == reach_keys(fm, t),
        decreases filtered.entry_seq().len() - i,
    {
        let ghost snap = storage;
        let name = feature_entry_name(&filtered, i).clone();
        proof {
            assert(filtered.entry_seq()[i as int].0 == name@);
        }
        storage.insert(name, &filtered);
        proof {
            assert(interned_names(fm, name@).contains(name@));
            assert(storage.has_hash(spec_hash(name@)));
            assert forall|h0: u64| #[trigger] storage.has_hash(h0) implies exists|t: Seq<char>|
                fm.dom().contains(t) && #[trigger] spec_hash(t) == h0 && storage.name_at(h0) == t
                    && storage.deps_at(h0) == reach_keys(fm, t) by {
                if snap.has_hash(h0) {
                    let t = choose|t: Seq<char>|
                        fm.dom().contains(t) && #[trigger] spec_hash(t) == h0 && snap.name_at(h0)
                            == t && snap.deps_at(h0) == reach_keys(fm, t);
                    assert(storage.name_at(h0) == t && storage.deps_seq_at(h0)
                        == snap.deps_seq_at(h0));
                } else {
                    let t = choose|t: Seq<char>|
                        interned_names(fm, name@).contains(t) && #[trigger] spec_hash(t) == h0
                            && storage.name_at(h0) == t && storage.deps_at(h0) == reach_keys(
                            fm,
                            t,
                        );
                    if t != name@ {
                        lemma_reaches_in_dom(fm, name@, t);
                    }
                }
            }
        }
        i = i + 1;
    }
    proof {
        filtered.lemma_view();
        assert forall|t: Seq<char>| fm.dom().contains(t) implies storage.has_hash(
            spec_hash(t),
        ) by {
            let j = choose|j: int|
                0 <= j < filtered.entry_seq().len() && (#[trigger] filtered.entry_seq()[j]).0
                    == t;
            assert(storage.has_hash(spec_hash(filtered.entry_seq()[j].0)));
        }
    }
    storage
}

/// The number of entries, by reference (helper for loop bounds).
fn filtered_len(m: &FeatureMap) -> (r: usize)
    ensures
        r == m.entry_seq().len(),
{
    m.len()
}

/// Borrow of the name of entry `i`.
fn feature_entry_name(m: &FeatureMap, i: usize) -> (r: &String)
    requires
        i < m.entry_seq().len(),
    ensures
        r@ == m.entry_seq()[i as int].0,
{
    &m.entries[i].0
}

/// Borrow of the dependency list of entry `i`.
fn feature_entry_deps(m: &FeatureMap, i: usize) -> (r: &Vec<String>)
    requires
        i < m.entry_seq().len(),
    ensures
        r@.map_values(|s: String| s@) == m.entry_seq()[i as int].1,
{
    &m.entries[i].1
}

/// Copies a vector of strings.
fn clone_string_vec(v: &Vec<String>) -> (r: Vec<String>)
    ensures
        r@.map_values(|s: String| s@) == v@.map_values(|s: String| s@),
{
    let mut r: Vec<String> = Vec::new();
    let mut i: usize = 0;
    while i < v.len()
        invariant
            0 <= i <= v@.len(),
            r@.len() == i,
            forall|j: int| 0 <= j < i ==> (#[trigger] r@[j])@ == v@[j]@,
        decreases v@.len() - i,
    {
        r.push(v[i].clone());
        i = i + 1;
    }
    proof {
        assert(r@.map_values(|s: String| s@) =~= v@.map_values(|s: String| s@));
    }
    r
}

} // verus!

verus! {

/// Two strictly ascending sequences with the same members are equal.
proof fn lemma_sorted_unique_eq(a: Seq<u64>, b: Seq<u64>)
    requires
        forall|i: int, j: int| 0 <= i < j < a.len() ==> #[trigger] a[i] < #[trigger] a[j],
        forall|i: int, j: int| 0 <= i < j < b.len() ==> #[trigger] b[i] < #[trigger] b[j],
        forall|h: u64| a.contains(h) <==> b.contains(h),
    ensures
        a == b,
    decreases a.len(),
{
    if a.len() == 0 {
        if b.len() > 0 {
            assert(b.contains(b[0]));
            assert(a.contains(b[0]));
            let i = choose|i: int| 0 <= i < a.len() && a[i] == b[0];
            assert(false);
        }
        assert(a =~= b);
    } else {
        assert(a.contains(a[a.len() - 1]));
        assert(b.contains(a[a.len() - 1]));
        assert(b.len() > 0);
        // The two last elements are the strict maxima, hence equal.
        assert(a.last() == b.last()) by {
            let j = choose|j: int| 0 <= j < b.len() && b[j] == a.last();
            if j < b.len() - 1 {
                assert(b[j] < b[b.len() - 1]);
            }
            assert(b.contains(b[b.len() - 1]));
            assert(a.contains(b.last()));
            let i = choose|i: int| 0 <= i < a.len() && a[i] == b.last();
            if i < a.len() - 1 {
                assert(a[i] < a[a.len() - 1]);
            }
        }
        assert forall|h: u64| a.drop_last().contains(h) <==> b.drop_last().contains(h) by {
            if a.drop_last().contains(h) {
                let i = choose|i: int| 0 <= i < a.len() - 1 && a.drop_last()[i] == h;
                assert(a[i] == h);
                assert(a[i] < a[a.len() - 1]);
                assert(b.contains(h));
                let j = choose|j: int| 0 <= j < b.len() && b[j] == h;
                assert(j < b.len() - 1);
                assert(b.drop_last()[j] == h);
            }
            if b.drop_last().contains(h) {
                let j = choose|j: int| 0 <= j < b.len() - 1 && b.drop_last()[j] == h;
                assert(b[j] == h);
                assert(b[j] < b[b.len() - 1]);
                assert(a.contains(h));
                let i = choose|i: int| 0 <= i < a.len() && a[i] == h;
                assert(i < a.len() - 1);
                assert(a.drop_last()[i] == h);
            }
        }
        lemma_sorted_unique_eq(a.drop_last(), b.drop_last());
        assert(a.drop_last().len() == b.drop_last().len());
        assert forall|i: int| 0 <= i < a.len() implies a[i] == b[i] by {
            if i < a.len() - 1 {
                assert(a.drop_last()[i] == b.drop_last()[i]);
            }
        }
        assert(a =~= b);
    }
}

/// Insertion is idempotent: inserting the same name with the same map a
/// second time changes neither the stored keys (so `len()` and `keys()`
/// are unchanged) nor any stored name or dependency closure.
pub proof fn lemma_insert_idempotent(
    s0: FeatureStorage,
    s1: FeatureStorage,
    s2: FeatureStorage,
    feature: Seq<char>,
    m: Map<Seq<char>, Seq<Seq<char>>>,
)
    requires
        s1.wf(),
        s2.wf(),
        insert_post(s0, s1, feature, m),
        insert_post(s1, s2, feature, m),
    ensures
        s2.key_seq() == s1.key_seq(),
        forall|h: u64| #[trigger] s1.has_hash(h) ==> s2.name_at(h) == s1.name_at(h)
            && s2.deps_seq_at(h) == s1.deps_seq_at(h),
{
    s1.lemma_wf_keys();
    s2.lemma_wf_keys();
    assert forall|h: u64| s1.key_seq().contains(h) <==> s2.key_seq().contains(h) by {
        if s1.has_hash(h) {
            assert(s2.has_hash(h));
        }
        if s2.has_hash(h) && !s1.has_hash(h) {
            let t = choose|t: Seq<char>|
                interned_names(m, feature).contains(t) && #[trigger] spec_hash(t) == h;
            assert(s1.has_hash(spec_hash(t)));
        }
        if s1.key_seq().contains(h) {
            assert(s1.has_hash(h));
        }
        if s2.key_seq().contains(h) {
            assert(s2.has_hash(h));
        }
    }
    lemma_sorted_unique_eq(s1.key_seq(), s2.key_seq());
}

} // verus!
