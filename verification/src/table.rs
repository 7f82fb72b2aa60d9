//! Finding a string among many.
use crate::text::{chars, same};
use vstd::prelude::*;

verus! {

/// Where a text first stands in a list.
pub open spec fn first_index(keys: Seq<Seq<char>>, key: Seq<char>) -> Option<nat>
    decreases keys.len(),
{
    if keys.len() == 0 {
        None
    } else {
        match first_index(keys.drop_last(), key) {
            Some(i) => Some(i),
            None => if keys.last() == key {
                Some((keys.len() - 1) as nat)
            } else {
                None
            },
        }
    }
}

/// What [`first_index`] finds, and that nothing earlier is the same.
pub proof fn lemma_first_index(keys: Seq<Seq<char>>, key: Seq<char>)
    ensures
        match first_index(keys, key) {
            Some(i) => i < keys.len() && keys[i as int] == key && forall|j: int|
                0 <= j < i ==> #[trigger] keys[j] != key,
            None => forall|j: int| 0 <= j < keys.len() ==> #[trigger] keys[j] != key,
        },
    decreases keys.len(),
{
    if keys.len() > 0 {
        let front = keys.drop_last();
        lemma_first_index(front, key);
        let n: int = match first_index(keys, key) {
            Some(i) => i as int,
            None => keys.len() as int,
        };
        assert forall|j: int| 0 <= j < n implies #[trigger] keys[j] != key by {
            if j < front.len() {
                assert(front[j] == keys[j]);
            }
        }
    }
}

/// A modulus below two to the thirty-second.
const MODULUS: u64 = 4294967291;

spec fn text_hash(s: Seq<char>) -> int
    decreases s.len(),
{
    if s.len() == 0 {
        0
    } else {
        (text_hash(s.drop_last()) * 31 + s.last() as u32) % (MODULUS as int)
    }
}

fn bucket_for(key: &str, n: usize) -> (r: usize)
    requires
        n > 0,
    ensures
        r == text_hash(key@) % (n as int),
        r < n,
{
    let name = chars(key);
    let mut h: u64 = 0;
    let mut i: usize = 0;
    while i < name.len()
        invariant
            i <= name@.len(),
            0 <= h < MODULUS,
            h == text_hash(name@.take(i as int)),
        decreases name@.len() - i,
    {
        proof {
            assert(name@.take(i + 1).drop_last() =~= name@.take(i as int));
        }
        let c: u64 = (name[i] as u32) as u64;
        h = (h * 31 + c) % MODULUS;
        i += 1;
    }
    proof {
        assert(name@.take(i as int) =~= name@);
    }
    let r: u64 = h % (n as u64);
    r as usize
}

/// A list of strings that can be searched without walking it.
#[derive(Debug)]
pub struct Table {
    keys: Vec<String>,
    buckets: Vec<Vec<usize>>,
}

impl Table {
    /// The strings, in order.
    pub closed spec fn keys(self) -> Seq<Seq<char>> {
        self.keys.deep_view()
    }

    spec fn holds(self, b: int, i: int) -> bool {
        exists|k: int| 0 <= k < self.buckets@[b]@.len() && #[trigger] self.buckets@[b]@[k] == i
    }

    /// Every string is listed in its bucket, and each bucket is in order.
    pub closed spec fn wf(self) -> bool {
        &&& self.buckets@.len() > 0
        &&& forall|i: int|
            0 <= i < self.keys@.len() ==> self.holds(
                text_hash((#[trigger] self.keys@[i])@) % (self.buckets@.len() as int),
                i,
            )
        &&& forall|b: int, k: int|
            0 <= b < self.buckets@.len() && 0 <= k < self.buckets@[b]@.len() ==> (
            #[trigger] self.buckets@[b]@[k]) < self.keys@.len()
        &&& forall|b: int, j: int, k: int|
            0 <= b < self.buckets@.len() && 0 <= j < k < self.buckets@[b]@.len() ==> (
            #[trigger] self.buckets@[b]@[j]) < (#[trigger] self.buckets@[b]@[k])
    }

    pub fn new(keys: Vec<String>) -> (r: Table)
        ensures
            r.wf(),
            r.keys() == keys.deep_view(),
    {
        let n: usize = if keys.len() == 0 { 1 } else { keys.len() };
        let mut buckets: Vec<Vec<usize>> = Vec::new();
        while buckets.len() < n
            invariant
                buckets@.len() <= n,
                forall|b: int| 0 <= b < buckets@.len() ==> (#[trigger] buckets@[b])@.len() == 0,
            decreases n - buckets@.len(),
        {
            buckets.push(Vec::new());
        }
        let mut i: usize = 0;
        while i < keys.len()
            invariant
                i <= keys@.len(),
                n > 0,
                buckets@.len() == n,
                forall|j: int|
                    0 <= j < i ==> listed(
                        buckets@,
                        text_hash((#[trigger] keys@[j])@) % (n as int),
                        j,
                    ),
                forall|b: int, k: int|
                    0 <= b < n && 0 <= k < buckets@[b]@.len() ==> (#[trigger] buckets@[b]@[k]) < i,
                forall|b: int, j: int, k: int|
                    0 <= b < n && 0 <= j < k < buckets@[b]@.len() ==> (#[trigger] buckets@[b]@[j])
                        < (#[trigger] buckets@[b]@[k]),
            decreases keys@.len() - i,
        {
            let b: usize = bucket_for(keys[i].as_str(), n);
            let ghost before = buckets@;
            let mut bucket: Vec<usize> = Vec::new();
            core::mem::swap(&mut buckets[b], &mut bucket);
            bucket.push(i);
            buckets[b] = bucket;
            proof {
                assert(buckets@[b as int]@ == before[b as int]@.push(i));
                assert forall|c: int| 0 <= c < n && c != b implies buckets@[c] == before[c] by {}
                assert forall|j: int| 0 <= j < i + 1 implies listed(
                    buckets@,
                    text_hash((#[trigger] keys@[j])@) % (n as int),
                    j,
                ) by {
                    let c = text_hash(keys@[j]@) % (n as int);
                    if j < i {
                        assert(listed(before, c, j));
                        let k = choose|k: int|
                            0 <= k < before[c]@.len() && #[trigger] before[c]@[k] == j;
                        assert(buckets@[c]@[k] == j);
                    } else {
                        assert(buckets@[c]@[before[c]@.len() as int] == j);
                    }
                }
                assert forall|c: int, k: int| 0 <= c < n && 0 <= k < buckets@[c]@.len() implies (
                #[trigger] buckets@[c]@[k]) < i + 1 by {
                    if k < before[c]@.len() {
                        assert(buckets@[c]@[k] == before[c]@[k]);
                    }
                }
                assert forall|c: int, j: int, k: int|
                    0 <= c < n && 0 <= j < k < buckets@[c]@.len() implies (
                #[trigger] buckets@[c]@[j]) < (#[trigger] buckets@[c]@[k]) by {
                    assert(buckets@[c]@[j] == before[c]@[j]);
                    if k < before[c]@.len() {
                        assert(buckets@[c]@[k] == before[c]@[k]);
                    }
                }
            }
            i += 1;
        }
        let r = Table { keys, buckets };
        proof {
            assert forall|j: int| 0 <= j < r.keys@.len() implies r.holds(
                text_hash((#[trigger] r.keys@[j])@) % (r.buckets@.len() as int),
                j,
            ) by {
                assert(listed(r.buckets@, text_hash(keys@[j]@) % (n as int), j));
            }
        }
        r
    }

    /// The first place a string stands at.
    pub fn find(&self, key: &str) -> (r: Option<usize>)
        requires
            self.wf(),
        ensures
            match r {
                Some(i) => first_index(self.keys(), key@) == Some(i as nat) && i < self.keys().len(),
                None => first_index(self.keys(), key@) is None,
            },
    {
        let b: usize = bucket_for(key, self.buckets.len());
        let bucket = &self.buckets[b];
        let ghost all = self.keys();
        proof {
            lemma_first_index(all, key@);
        }
        let mut k: usize = 0;
        while k < bucket.len()
            invariant
                k <= bucket@.len(),
                self.wf(),
                b == text_hash(key@) % (self.buckets@.len() as int),
                b < self.buckets@.len(),
                bucket@ == self.buckets@[b as int]@,
                all == self.keys(),
                forall|j: int| 0 <= j < k ==> all[(#[trigger] bucket@[j]) as int] != key@,
            decreases bucket@.len() - k,
        {
            let i: usize = bucket[k];
            if same(self.keys[i].as_str(), key) {
                proof {
                    assert(all[i as int] == key@);
                    lemma_first_index(all, key@);
                    let f = first_index(all, key@)->Some_0 as int;
                    if f < i {
                        assert(self.keys@[f]@ == key@);
                        assert(self.holds(b as int, f));
                        let j = choose|j: int|
                            0 <= j < bucket@.len() && #[trigger] bucket@[j] == f;
                        if j < k {
                        } else if j > k {
                            assert(self.buckets@[b as int]@[k as int]
                                < self.buckets@[b as int]@[j]);
                        }
                    }
                }
                return Some(i);
            }
            k += 1;
        }
        proof {
            lemma_first_index(all, key@);
            if first_index(all, key@) is Some {
                let f = first_index(all, key@)->Some_0 as int;
                assert(self.keys@[f]@ == key@);
                assert(self.holds(b as int, f));
                let j = choose|j: int| 0 <= j < bucket@.len() && #[trigger] bucket@[j] == f;
                assert(all[bucket@[j] as int] != key@);
            }
        }
        None
    }
}

spec fn listed(buckets: Seq<Vec<usize>>, b: int, i: int) -> bool {
    exists|k: int| 0 <= k < buckets[b]@.len() && #[trigger] buckets[b]@[k] == i
}

} // verus!
