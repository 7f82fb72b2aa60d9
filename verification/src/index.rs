//! The advisory database in memory, keyed by package.
use crate::model::{Advisory, AdvisoryView, AffectedView, Ecosystem, KeyView, PackageKey};
use crate::model::ecosystem_rank;
use crate::text::chars;
use vstd::prelude::*;

verus! {

/// How many entries of an advisory are about a package.
pub open spec fn mentions(affected: Seq<AffectedView>, key: KeyView) -> nat
    decreases affected.len(),
{
    if affected.len() == 0 {
        0
    } else {
        mentions(affected.drop_last(), key) + (if affected.last().package == key {
            1nat
        } else {
            0nat
        })
    }
}

/// The advisories that name a package, in archive order: once for each entry
/// about it.
pub open spec fn lookup_of(all: Seq<AdvisoryView>, key: KeyView) -> Seq<AdvisoryView>
    decreases all.len(),
{
    if all.len() == 0 {
        seq![]
    } else {
        lookup_of(all.drop_last(), key) + Seq::new(
            mentions(all.last().affected, key),
            |i: int| all.last(),
        )
    }
}

/// The packages that advisories name.
pub open spec fn named_set(all: Seq<AdvisoryView>) -> Set<KeyView>
    decreases all.len(),
{
    if all.len() == 0 {
        Set::empty()
    } else {
        named_with(named_set(all.drop_last()), all.last().affected)
    }
}

/// A set of packages with those that some entries are about.
pub open spec fn named_with(set: Set<KeyView>, affected: Seq<AffectedView>) -> Set<KeyView>
    decreases affected.len(),
{
    if affected.len() == 0 {
        set
    } else {
        named_with(set, affected.drop_last()).insert(affected.last().package)
    }
}

// ---- buckets ----

/// A modulus below two to the thirty-second.
pub const MODULUS: u64 = 4294967291;

pub open spec fn name_hash(name: Seq<char>, seed: int) -> int
    decreases name.len(),
{
    if name.len() == 0 {
        seed % (MODULUS as int)
    } else {
        (name_hash(name.drop_last(), seed) * 31 + name.last() as u32) % (MODULUS as int)
    }
}

/// Which of `n` buckets a package belongs in.
pub open spec fn bucket_index(key: KeyView, n: int) -> int {
    name_hash(key.name, ecosystem_rank(key.ecosystem)) % n
}

fn bucket_for(key: &PackageKey, n: usize) -> (r: usize)
    requires
        n > 0,
    ensures
        r == bucket_index(key.deep_view(), n as int),
        r < n,
{
    let name = chars(key.name.as_str());
    let mut h: u64 = match key.ecosystem {
        Ecosystem::Npm => 0,
        Ecosystem::Go => 1,
        Ecosystem::PyPI => 2,
        Ecosystem::CratesIo => 3,
    };
    let ghost seed = ecosystem_rank(key.ecosystem);
    let mut i: usize = 0;
    while i < name.len()
        invariant
            i <= name@.len(),
            0 <= h < MODULUS,
            h == name_hash(name@.take(i as int), seed),
        decreases name@.len() - i,
    {
        proof {
            assert(name@.take(i + 1).drop_last() =~= name@.take(i as int));
        }
        let c: u64 = (name[i] as u32) as u64;
        h = (h * 31 + c) % MODULUS;
        i += 1;
    }
    proof {
        assert(name@.take(i as int) =~= name@);
    }
    let r: u64 = h % (n as u64);
    r as usize
}

/// One entry of one advisory, by where it stands.
pub open spec fn bucket_entries(
    i: int,
    affected: Seq<AffectedView>,
    n: int,
    b: int,
) -> Seq<(int, int)>
    decreases affected.len(),
{
    if affected.len() == 0 {
        seq![]
    } else if bucket_index(affected.last().package, n) == b {
        bucket_entries(i, affected.drop_last(), n, b).push((i, affected.len() - 1))
    } else {
        bucket_entries(i, affected.drop_last(), n, b)
    }
}

/// Every entry whose package belongs in a bucket, in archive order.
pub open spec fn bucket_of(all: Seq<AdvisoryView>, n: int, b: int) -> Seq<(int, int)>
    decreases all.len(),
{
    if all.len() == 0 {
        seq![]
    } else {
        bucket_of(all.drop_last(), n, b) + bucket_entries(
            all.len() - 1,
            all.last().affected,
            n,
            b,
        )
    }
}

pub open spec fn places(v: Seq<(usize, usize)>) -> Seq<(int, int)> {
    Seq::new(v.len(), |k: int| (v[k].0 as int, v[k].1 as int))
}

/// The advisories that the entries about a package belong to.
pub open spec fn select(
    all: Seq<AdvisoryView>,
    entries: Seq<(int, int)>,
    key: KeyView,
) -> Seq<AdvisoryView>
    decreases entries.len(),
{
    if entries.len() == 0 {
        seq![]
    } else {
        let (i, j) = entries.last();
        if all[i].affected[j].package == key {
            select(all, entries.drop_last(), key).push(all[i])
        } else {
            select(all, entries.drop_last(), key)
        }
    }
}

proof fn lemma_select_add(
    all: Seq<AdvisoryView>,
    a: Seq<(int, int)>,
    b: Seq<(int, int)>,
    key: KeyView,
)
    ensures
        select(all, a + b, key) == select(all, a, key) + select(all, b, key),
    decreases b.len(),
{
    if b.len() == 0 {
        assert(a + b =~= a);
        assert(select(all, a, key) + select(all, b, key) =~= select(all, a, key));
    } else {
        assert((a + b).drop_last() =~= a + b.drop_last());
        lemma_select_add(all, a, b.drop_last(), key);
        assert((a + b).last() == b.last());
        assert(select(all, a + b, key) =~= select(all, a, key) + select(all, b, key));
    }
}

/// Selecting looks only at the advisories the entries stand in.
proof fn lemma_select_prefix(
    all: Seq<AdvisoryView>,
    longer: Seq<AdvisoryView>,
    entries: Seq<(int, int)>,
    key: KeyView,
)
    requires
        all.len() <= longer.len(),
        forall|i: int| 0 <= i < all.len() ==> all[i] == longer[i],
        forall|k: int| 0 <= k < entries.len() ==> 0 <= (#[trigger] entries[k]).0 < all.len(),
    ensures
        select(all, entries, key) == select(longer, entries, key),
    decreases entries.len(),
{
    if entries.len() > 0 {
        let last = entries[entries.len() - 1];
        lemma_select_prefix(all, longer, entries.drop_last(), key);
    }
}

proof fn lemma_entries(all: Seq<AdvisoryView>, affected: Seq<AffectedView>, n: int, key: KeyView)
    requires
        all.len() > 0,
        affected.len() <= all.last().affected.len(),
        affected =~= all.last().affected.take(affected.len() as int),
    ensures
        select(all, bucket_entries(all.len() - 1, affected, n, bucket_index(key, n)), key)
            == Seq::new(mentions(affected, key), |i: int| all.last()),
    decreases affected.len(),
{
    let b = bucket_index(key, n);
    let i = all.len() - 1;
    if affected.len() == 0 {
        assert(select(all, bucket_entries(i, affected, n, b), key) =~= Seq::new(
            mentions(affected, key),
            |i: int| all.last(),
        ));
    } else {
        lemma_entries(all, affected.drop_last(), n, key);
        let shorter = bucket_entries(i, affected.drop_last(), n, b);
        if bucket_index(affected.last().package, n) == b {
            let longer = shorter.push((i, affected.len() - 1));
            assert(longer.drop_last() =~= shorter);
            assert(all[i].affected[affected.len() - 1] == affected.last());
        }
        assert(select(all, bucket_entries(i, affected, n, b), key) =~= Seq::new(
            mentions(affected, key),
            |i: int| all.last(),
        ));
    }
}

proof fn lemma_entries_bounded(i: int, affected: Seq<AffectedView>, n: int, b: int)
    ensures
        forall|k: int|
            0 <= k < bucket_entries(i, affected, n, b).len() ==> {
                &&& (#[trigger] bucket_entries(i, affected, n, b)[k]).0 == i
                &&& 0 <= bucket_entries(i, affected, n, b)[k].1 < affected.len()
            },
    decreases affected.len(),
{
    if affected.len() > 0 {
        lemma_entries_bounded(i, affected.drop_last(), n, b);
        let shorter = bucket_entries(i, affected.drop_last(), n, b);
        let longer = bucket_entries(i, affected, n, b);
        assert forall|k: int| 0 <= k < longer.len() implies {
            &&& (#[trigger] longer[k]).0 == i
            &&& 0 <= longer[k].1 < affected.len()
        } by {
            if k < shorter.len() {
                assert(longer[k] == shorter[k]);
            }
        }
    }
}

proof fn lemma_bucket_bounded(all: Seq<AdvisoryView>, n: int, b: int)
    ensures
        forall|k: int|
            0 <= k < bucket_of(all, n, b).len() ==> {
                let e = #[trigger] bucket_of(all, n, b)[k];
                0 <= e.0 < all.len() && 0 <= e.1 < all[e.0].affected.len()
            },
    decreases all.len(),
{
    if all.len() > 0 {
        lemma_bucket_bounded(all.drop_last(), n, b);
        lemma_entries_bounded(all.len() - 1, all.last().affected, n, b);
        let front = bucket_of(all.drop_last(), n, b);
        let back = bucket_entries(all.len() - 1, all.last().affected, n, b);
        assert forall|k: int| 0 <= k < bucket_of(all, n, b).len() implies {
            let e = #[trigger] bucket_of(all, n, b)[k];
            0 <= e.0 < all.len() && 0 <= e.1 < all[e.0].affected.len()
        } by {
            if k < front.len() {
                assert(bucket_of(all, n, b)[k] == front[k]);
                assert(all.drop_last()[front[k].0] == all[front[k].0]);
            } else {
                assert(bucket_of(all, n, b)[k] == back[k - front.len()]);
            }
        }
    }
}

/// What the bucket of a package holds about it is all there is about it.
proof fn lemma_lookup(all: Seq<AdvisoryView>, n: int, key: KeyView)
    ensures
        select(all, bucket_of(all, n, bucket_index(key, n)), key) == lookup_of(all, key),
    decreases all.len(),
{
    let b = bucket_index(key, n);
    if all.len() > 0 {
        let front = bucket_of(all.drop_last(), n, b);
        let back = bucket_entries(all.len() - 1, all.last().affected, n, b);
        lemma_lookup(all.drop_last(), n, key);
        lemma_select_add(all, front, back, key);
        lemma_bucket_bounded(all.drop_last(), n, b);
        lemma_select_prefix(all.drop_last(), all, front, key);
        assert(all.last().affected.take(all.last().affected.len() as int)
            =~= all.last().affected);
        lemma_entries(all, all.last().affected, n, key);
    }
}

proof fn lemma_named_with(set: Set<KeyView>, affected: Seq<AffectedView>)
    requires
        set.finite(),
    ensures
        named_with(set, affected).finite(),
        forall|k: KeyView| set.contains(k) ==> named_with(set, affected).contains(k),
    decreases affected.len(),
{
    if affected.len() > 0 {
        lemma_named_with(set, affected.drop_last());
    }
}

/// A package is in the set exactly when some advisory names it.
pub proof fn named_set_holds_what_is_named(all: Seq<AdvisoryView>, key: KeyView)
    ensures
        named_set(all).finite(),
        named_set(all).contains(key) <==> lookup_of(all, key).len() > 0,
    decreases all.len(),
{
    if all.len() > 0 {
        named_set_holds_what_is_named(all.drop_last(), key);
        lemma_named_with(named_set(all.drop_last()), all.last().affected);
        lemma_named_entry(named_set(all.drop_last()), all.last().affected, key);
    }
}

proof fn lemma_named_entry(set: Set<KeyView>, affected: Seq<AffectedView>, key: KeyView)
    ensures
        named_with(set, affected).contains(key) <==> set.contains(key) || mentions(affected, key)
            > 0,
    decreases affected.len(),
{
    if affected.len() > 0 {
        lemma_named_entry(set, affected.drop_last(), key);
    }
}

/// A parsed advisory database, held in memory and keyed by package.
///
/// Advisories are stored once. What names a package is found through a table
/// of buckets, each of which lists entries in archive order.
#[derive(Debug)]
pub struct Index {
    advisories: Vec<Advisory>,
    buckets: Vec<Vec<(usize, usize)>>,
    /// Every package that is named, once.
    keys: Vec<PackageKey>,
    ecosystems: Vec<Ecosystem>,
    load_time: u64,
    built_at: Option<u64>,
}

/// Whether a bucket holds an entry about a package.
fn holds_key(
    advisories: &Vec<Advisory>,
    bucket: &Vec<(usize, usize)>,
    key: &PackageKey,
    Ghost(now): Ghost<Seq<AdvisoryView>>,
) -> (r: bool)
    requires
        forall|k: int|
            0 <= k < bucket@.len() ==> {
                let e = #[trigger] bucket@[k];
                &&& e.0 < advisories@.len()
                &&& e.1 < advisories@[e.0 as int].affected@.len()
                &&& now[e.0 as int].affected[e.1 as int].package
                    == advisories@[e.0 as int].affected@[e.1 as int].package.deep_view()
            },
    ensures
        r == (select(now, places(bucket@), key.deep_view()).len() > 0),
{
    let ghost held = places(bucket@);
    let mut found = false;
    let mut k: usize = 0;
    while k < bucket.len()
        invariant
            k <= bucket@.len(),
            held == places(bucket@),
            found == (select(now, held.take(k as int), key.deep_view()).len() > 0),
            forall|k: int|
                0 <= k < bucket@.len() ==> {
                    let e = #[trigger] bucket@[k];
                    &&& e.0 < advisories@.len()
                    &&& e.1 < advisories@[e.0 as int].affected@.len()
                    &&& now[e.0 as int].affected[e.1 as int].package
                        == advisories@[e.0 as int].affected@[e.1 as int].package.deep_view()
                },
        decreases bucket@.len() - k,
    {
        let e = bucket[k];
        proof {
            assert(held.take(k + 1).drop_last() =~= held.take(k as int));
            assert(held.take(k + 1).last() == (e.0 as int, e.1 as int));
        }
        if advisories[e.0].affected[e.1].package.equals(key) {
            found = true;
        }
        k += 1;
    }
    proof {
        assert(held.take(k as int) =~= held);
    }
    found
}

impl Index {
    /// Every advisory, in archive order.
    pub closed spec fn all(self) -> Seq<AdvisoryView> {
        self.advisories.deep_view()
    }

    /// The ecosystems the index covers.
    pub closed spec fn covered(self) -> Seq<Ecosystem> {
        self.ecosystems@
    }

    pub closed spec fn spent(self) -> u64 {
        self.load_time
    }

    pub closed spec fn when(self) -> Option<u64> {
        self.built_at
    }

    /// Every bucket lists the entries that belong in it, and nothing else.
    pub closed spec fn wf(self) -> bool {
        &&& self.buckets@.len() > 0
        &&& self.keys.deep_view().no_duplicates()
        &&& self.keys.deep_view().to_set() == named_set(self.advisories.deep_view())
        &&& forall|b: int|
            0 <= b < self.buckets@.len() ==> places(#[trigger] self.buckets@[b]@) == bucket_of(
                self.advisories.deep_view(),
                self.buckets@.len() as int,
                b,
            )
    }

    /// Builds an index from advisories already parsed out of the archives.
    pub fn build(
        advisories: Vec<Advisory>,
        ecosystems: Vec<Ecosystem>,
        load_time: u64,
        built_at: Option<u64>,
    ) -> (r: Index)
        ensures
            r.wf(),
            r.all() == advisories.deep_view(),
            r.covered() == ecosystems@,
            r.spent() == load_time,
            r.when() == built_at,
    {
        let n: usize = if advisories.len() == 0 { 1 } else { advisories.len() };
        let ghost all = advisories.deep_view();
        let mut buckets: Vec<Vec<(usize, usize)>> = Vec::new();
        while buckets.len() < n
            invariant
                buckets@.len() <= n,
                forall|b: int| 0 <= b < buckets@.len() ==> #[trigger] buckets@[b]@ =~= seq![],
            decreases n - buckets@.len(),
        {
            buckets.push(Vec::new());
        }
        proof {
            assert forall|b: int| 0 <= b < n implies places(#[trigger] buckets@[b]@) == bucket_of(
                all.take(0),
                n as int,
                b,
            ) by {
                assert(places(buckets@[b]@) =~= seq![]);
            }
        }
        let mut keys: Vec<PackageKey> = Vec::new();
        proof {
            assert(keys.deep_view().to_set() =~= named_set(all.take(0)));
        }
        let mut i: usize = 0;
        while i < advisories.len()
            invariant
                i <= advisories@.len(),
                n > 0,
                all == advisories.deep_view(),
                buckets@.len() == n,
                keys.deep_view().no_duplicates(),
                keys.deep_view().to_set() == named_set(all.take(i as int)),
                forall|b: int|
                    0 <= b < n ==> places(#[trigger] buckets@[b]@) == bucket_of(
                        all.take(i as int),
                        n as int,
                        b,
                    ),
            decreases advisories@.len() - i,
        {
            let affected = &advisories[i].affected;
            let ghost entries = affected.deep_view();
            let ghost done = all.take(i as int);
            let ghost next = all.take(i + 1);
            let ghost known = named_set(done);
            proof {
                assert(next.drop_last() =~= done);
                assert(next.last().affected == entries);
                assert(named_with(known, entries.take(0)) == known);
                assert forall|b: int| 0 <= b < n implies places(#[trigger] buckets@[b]@)
                    == bucket_of(done, n as int, b) + bucket_entries(
                    i as int,
                    entries.take(0),
                    n as int,
                    b,
                ) by {
                    assert(bucket_of(done, n as int, b) + bucket_entries(
                        i as int,
                        entries.take(0),
                        n as int,
                        b,
                    ) =~= bucket_of(done, n as int, b));
                }
            }
            let mut j: usize = 0;
            while j < affected.len()
                invariant
                    j <= affected@.len(),
                    i < advisories@.len(),
                    affected == &advisories@[i as int].affected,
                    n > 0,
                    all == advisories.deep_view(),
                    entries == affected.deep_view(),
                    done == all.take(i as int),
                    known == named_set(done),
                    buckets@.len() == n,
                    keys.deep_view().no_duplicates(),
                    keys.deep_view().to_set() == named_with(known, entries.take(j as int)),
                    forall|b: int|
                        0 <= b < n ==> places(#[trigger] buckets@[b]@) == bucket_of(
                            done,
                            n as int,
                            b,
                        ) + bucket_entries(i as int, entries.take(j as int), n as int, b),
                decreases affected@.len() - j,
            {
                let key = &affected[j].package;
                let b: usize = bucket_for(key, n);
                let ghost now = done.push(
                    AdvisoryView { affected: entries.take(j as int), ..all[i as int] },
                );
                proof {
                    assert(entries.take(j + 1).drop_last() =~= entries.take(j as int));
                    assert(entries.take(j + 1).last().package == key.deep_view());
                    assert(now.drop_last() =~= done);
                    lemma_bucket_bounded(now, n as int, b as int);
                    lemma_lookup(now, n as int, key.deep_view());
                    named_set_holds_what_is_named(now, key.deep_view());
                    assert(places(buckets@[b as int]@) == bucket_of(now, n as int, b as int));
                    assert forall|k: int| 0 <= k < buckets@[b as int]@.len() implies {
                        let e = #[trigger] buckets@[b as int]@[k];
                        &&& e.0 < now.len()
                        &&& e.1 < now[e.0 as int].affected.len()
                        &&& now[e.0 as int].affected[e.1 as int]
                            == all[e.0 as int].affected[e.1 as int]
                    } by {
                        assert(places(buckets@[b as int]@)[k] == bucket_of(
                            now,
                            n as int,
                            b as int,
                        )[k]);
                    }
                }
                let seen = holds_key(&advisories, &buckets[b], key, Ghost(now));
                proof {
                    assert(named_with(known, entries.take(j as int)) == named_set(now));
                    assert(seen == named_set(now).contains(key.deep_view()));
                }
                let ghost listed = keys.deep_view();
                if !seen {
                    keys.push(key.copy());
                    proof {
                        assert(keys.deep_view() =~= listed.push(key.deep_view()));
                        assert(!listed.to_set().contains(key.deep_view()));
                    }
                }
                proof {
                    assert(keys.deep_view().to_set() =~= named_with(
                        known,
                        entries.take(j + 1),
                    )) by {
                        if !seen {
                            lemma_push_set(listed, key.deep_view());
                        }
                    }
                }
                let ghost before = buckets@;
                let mut bucket: Vec<(usize, usize)> = Vec::new();
                core::mem::swap(&mut buckets[b], &mut bucket);
                let ghost held = places(bucket@);
                bucket.push((i, j));
                proof {
                    assert(places(bucket@) =~= held.push((i as int, j as int)));
                }
                buckets[b] = bucket;
                proof {
                    assert forall|c: int| 0 <= c < n implies places(#[trigger] buckets@[c]@)
                        == bucket_of(done, n as int, c) + bucket_entries(
                        i as int,
                        entries.take(j + 1),
                        n as int,
                        c,
                    ) by {
                        assert(places(before[c]@) == bucket_of(done, n as int, c) + bucket_entries(
                            i as int,
                            entries.take(j as int),
                            n as int,
                            c,
                        ));
                        if c == b {
                            assert(bucket_of(done, n as int, c) + bucket_entries(
                                i as int,
                                entries.take(j as int),
                                n as int,
                                c,
                            ).push((i as int, j as int)) =~= held.push((i as int, j as int)));
                        }
                    }
                }
                j += 1;
            }
            proof {
                assert(entries.take(j as int) =~= entries);
            }
            i += 1;
        }
        proof {
            assert(all.take(i as int) =~= all);
        }
        Index { advisories, buckets, keys, ecosystems, load_time, built_at }
    }
    /// Every advisory that names this package, in archive order: once for each
    /// of its entries about the package.
    pub fn lookup(&self, key: &PackageKey) -> (r: Vec<&Advisory>)
        requires
            self.wf(),
        ensures
            r.deep_view() == lookup_of(self.all(), key.deep_view()),
    {
        let n: usize = self.buckets.len();
        let b: usize = bucket_for(key, n);
        let bucket = &self.buckets[b];
        let ghost all = self.advisories.deep_view();
        let ghost held = places(bucket@);
        proof {
            lemma_lookup(all, n as int, key.deep_view());
            lemma_bucket_bounded(all, n as int, b as int);
            assert(held == bucket_of(all, n as int, b as int));
        }
        let mut out: Vec<&Advisory> = Vec::new();
        let mut k: usize = 0;
        while k < bucket.len()
            invariant
                k <= bucket@.len(),
                all == self.advisories.deep_view(),
                held == places(bucket@),
                out.deep_view() == select(all, held.take(k as int), key.deep_view()),
                forall|k: int|
                    0 <= k < held.len() ==> {
                        let e = #[trigger] held[k];
                        0 <= e.0 < all.len() && 0 <= e.1 < all[e.0].affected.len()
                    },
            decreases bucket@.len() - k,
        {
            let e = bucket[k];
            let ghost so_far = out.deep_view();
            proof {
                assert(held[k as int] == (e.0 as int, e.1 as int));
                assert(held.take(k + 1).drop_last() =~= held.take(k as int));
                assert(held.take(k + 1).last() == (e.0 as int, e.1 as int));
            }
            let advisory = &self.advisories[e.0];
            if advisory.affected[e.1].package.equals(key) {
                out.push(advisory);
                proof {
                    assert(out.deep_view() =~= so_far.push(all[e.0 as int]));
                }
            }
            k += 1;
        }
        proof {
            assert(held.take(k as int) =~= held);
        }
        out
    }

    pub fn ecosystems(&self) -> (r: &[Ecosystem])
        ensures
            r@ == self.covered(),
    {
        self.ecosystems.as_slice()
    }

    /// Whether this index already covers everything a scan needs.
    pub fn covers(&self, ecosystems: &[Ecosystem]) -> (r: bool)
        ensures
            r == (forall|i: int|
                0 <= i < ecosystems@.len() ==> self.covered().contains(#[trigger] ecosystems@[i])),
    {
        let mut i: usize = 0;
        while i < ecosystems.len()
            invariant
                i <= ecosystems@.len(),
                forall|k: int| 0 <= k < i ==> self.covered().contains(#[trigger] ecosystems@[k]),
            decreases ecosystems@.len() - i,
        {
            let mut found = false;
            let mut j: usize = 0;
            while j < self.ecosystems.len()
                invariant
                    i < ecosystems@.len(),
                    j <= self.ecosystems@.len(),
                    found == self.ecosystems@.take(j as int).contains(ecosystems@[i as int]),
                decreases self.ecosystems@.len() - j,
            {
                proof {
                    let x = self.ecosystems@.take(j as int);
                    let y = self.ecosystems@.take(j + 1);
                    assert(y =~= x.push(self.ecosystems@[j as int]));
                    if x.contains(ecosystems@[i as int]) {
                        let k = choose|k: int| 0 <= k < x.len() && x[k] == ecosystems@[i as int];
                        assert(y[k] == ecosystems@[i as int]);
                    }
                    assert(y[j as int] == self.ecosystems@[j as int]);
                }
                if self.ecosystems[j] == ecosystems[i] {
                    found = true;
                }
                j += 1;
            }
            proof {
                assert(self.ecosystems@.take(j as int) =~= self.ecosystems@);
            }
            if !found {
                return false;
            }
            i += 1;
        }
        true
    }

    /// Every advisory in the index, for analysis and benchmarking.
    pub fn iter(&self) -> (r: &Vec<Advisory>)
        ensures
            r.deep_view() == self.all(),
    {
        &self.advisories
    }

    pub fn advisories(&self) -> (r: usize)
        ensures
            r == self.all().len(),
    {
        self.advisories.len()
    }

    /// How many packages are named.
    pub fn packages(&self) -> (r: usize)
        requires
            self.wf(),
        ensures
            r == named_set(self.all()).len(),
    {
        proof {
            self.keys.deep_view().unique_seq_to_set();
        }
        self.keys.len()
    }

    /// How long the archives took to parse, in milliseconds.
    pub fn load_time(&self) -> (r: u64)
        ensures
            r == self.spent(),
    {
        self.load_time
    }

    /// When the index was built, in seconds since the epoch.
    pub fn built_at(&self) -> (r: Option<u64>)
        ensures
            r == self.when(),
    {
        self.built_at
    }
}

proof fn lemma_push_set(s: Seq<KeyView>, x: KeyView)
    ensures
        s.push(x).to_set() == s.to_set().insert(x),
{
    assert forall|k: KeyView| s.push(x).to_set().contains(k) <==> s.to_set().insert(x).contains(
        k,
    ) by {
        if s.contains(k) {
            let i = choose|i: int| 0 <= i < s.len() && s[i] == k;
            assert(s.push(x)[i] == k);
        }
        if k == x {
            assert(s.push(x)[s.len() as int] == x);
        }
        if s.push(x).contains(k) {
            let i = choose|i: int| 0 <= i < s.push(x).len() && s.push(x)[i] == k;
            if i < s.len() {
                assert(s[i] == k);
            }
        }
    }
    assert(s.push(x).to_set() =~= s.to_set().insert(x));
}

/// How many entries some advisories have.
pub open spec fn entries_in(all: Seq<AdvisoryView>) -> nat
    decreases all.len(),
{
    if all.len() == 0 {
        0
    } else {
        entries_in(all.drop_last()) + all.last().affected.len()
    }
}

/// How much looking up each of some packages gives in all.
pub open spec fn looked_up(all: Seq<AdvisoryView>, keys: Seq<KeyView>) -> nat
    decreases keys.len(),
{
    if keys.len() == 0 {
        0
    } else {
        looked_up(all, keys.drop_last()) + lookup_of(all, keys.last()).len()
    }
}

/// How many entries are about some packages.
spec fn mentioned(affected: Seq<AffectedView>, keys: Seq<KeyView>) -> nat
    decreases keys.len(),
{
    if keys.len() == 0 {
        0
    } else {
        mentioned(affected, keys.drop_last()) + mentions(affected, keys.last())
    }
}

proof fn lemma_one_more_advisory(all: Seq<AdvisoryView>, keys: Seq<KeyView>)
    requires
        all.len() > 0,
    ensures
        looked_up(all, keys) == looked_up(all.drop_last(), keys) + mentioned(
            all.last().affected,
            keys,
        ),
    decreases keys.len(),
{
    if keys.len() > 0 {
        lemma_one_more_advisory(all, keys.drop_last());
    }
}

/// One more entry is counted for the one key that it is about.
proof fn lemma_one_more_entry(affected: Seq<AffectedView>, keys: Seq<KeyView>)
    requires
        affected.len() > 0,
        keys.no_duplicates(),
    ensures
        mentioned(affected, keys) == mentioned(affected.drop_last(), keys) + (if keys.contains(
            affected.last().package,
        ) {
            1nat
        } else {
            0nat
        }),
    decreases keys.len(),
{
    if keys.len() > 0 {
        let front = keys.drop_last();
        let key = affected.last().package;
        lemma_one_more_entry(affected, front);
        assert(keys.contains(key) == (front.contains(key) || keys.last() == key)) by {
            if front.contains(key) {
                let i = choose|i: int| 0 <= i < front.len() && front[i] == key;
                assert(keys[i] == key);
            }
            if keys.contains(key) {
                let i = choose|i: int| 0 <= i < keys.len() && keys[i] == key;
                if i < front.len() {
                    assert(front[i] == key);
                }
            }
        }
        if keys.last() == key {
            assert(!front.contains(key)) by {
                if front.contains(key) {
                    let i = choose|i: int| 0 <= i < front.len() && front[i] == key;
                    assert(keys[i] == keys[keys.len() - 1]);
                }
            }
        }
    }
}

proof fn lemma_all_mentioned(affected: Seq<AffectedView>, keys: Seq<KeyView>)
    requires
        keys.no_duplicates(),
        forall|i: int| 0 <= i < affected.len() ==> keys.contains((#[trigger] affected[i]).package),
    ensures
        mentioned(affected, keys) == affected.len(),
    decreases affected.len(),
{
    if affected.len() == 0 {
        lemma_none_mentioned(affected, keys);
    } else {
        let front = affected.drop_last();
        assert forall|i: int| 0 <= i < front.len() implies keys.contains(
            (#[trigger] front[i]).package,
        ) by {
            assert(front[i] == affected[i]);
        }
        lemma_all_mentioned(front, keys);
        lemma_one_more_entry(affected, keys);
        assert(keys.contains(affected[affected.len() - 1].package));
    }
}

proof fn lemma_none_mentioned(affected: Seq<AffectedView>, keys: Seq<KeyView>)
    requires
        affected.len() == 0,
    ensures
        mentioned(affected, keys) == 0,
    decreases keys.len(),
{
    if keys.len() > 0 {
        lemma_none_mentioned(affected, keys.drop_last());
    }
}

proof fn lemma_nothing_looked_up(keys: Seq<KeyView>)
    ensures
        looked_up(seq![], keys) == 0,
    decreases keys.len(),
{
    if keys.len() > 0 {
        lemma_nothing_looked_up(keys.drop_last());
    }
}

/// Every entry is found under the one package it is about: looking up each
/// package that is named, once, gives as much as there are entries.
pub proof fn the_lookups_account_for_every_entry(all: Seq<AdvisoryView>, keys: Seq<KeyView>)
    requires
        keys.no_duplicates(),
        forall|i: int, j: int|
            0 <= i < all.len() && 0 <= j < all[i].affected.len() ==> keys.contains(
                (#[trigger] all[i].affected[j]).package,
            ),
    ensures
        looked_up(all, keys) == entries_in(all),
    decreases all.len(),
{
    if all.len() == 0 {
        assert(all =~= seq![]);
        lemma_nothing_looked_up(keys);
    } else {
        let front = all.drop_last();
        assert forall|i: int, j: int|
            0 <= i < front.len() && 0 <= j < front[i].affected.len() implies keys.contains(
            (#[trigger] front[i].affected[j]).package,
        ) by {
            assert(front[i] == all[i]);
            assert(keys.contains(all[i].affected[j].package));
        }
        the_lookups_account_for_every_entry(front, keys);
        lemma_one_more_advisory(all, keys);
        let last = all.last().affected;
        assert forall|j: int| 0 <= j < last.len() implies keys.contains(
            (#[trigger] last[j]).package,
        ) by {
            assert(keys.contains(all[all.len() - 1].affected[j].package));
        }
        lemma_all_mentioned(last, keys);
    }
}

} // verus!
