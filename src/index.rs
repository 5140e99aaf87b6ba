use vstd::prelude::*;
use crate::label::{padded, signed_padded, write_padded, write_signed_padded};

verus! {

/// The key of a bucket: (year, month) for months, (year, ISO week) for weeks, and
/// (year, month, day) for days; `day` is 0 where it is not used.
#[derive(Clone, Copy, Debug, PartialEq, Eq, Structural)]
pub struct BucketKey {
    pub year: i32,
    pub unit: u8,
    pub day: u8,
}

/// The events whose key is `key`, as positions in the collection's event list.
#[derive(Debug)]
pub struct Bucket {
    pub key: BucketKey,
    pub events: Vec<usize>,
}

/// Buckets in ascending order of key.
#[derive(Debug)]
pub struct Index {
    pub buckets: Vec<Bucket>,
}

/// Chronological order of keys.
pub open spec fn key_lt(a: BucketKey, b: BucketKey) -> bool {
    a.year < b.year || (a.year == b.year && (a.unit < b.unit || (a.unit == b.unit && a.day
        < b.day)))
}

/// The positions `i < n` whose key is `k`, ascending.
pub open spec fn members(keys: Seq<BucketKey>, k: BucketKey, n: int) -> Seq<usize>
    decreases n,
{
    if n <= 0 {
        Seq::empty()
    } else if keys[n - 1] == k {
        members(keys, k, n - 1).push((n - 1) as usize)
    } else {
        members(keys, k, n - 1)
    }
}

pub open spec fn strictly_ascending(b: Seq<Bucket>) -> bool {
    forall|i: int, j: int| 0 <= i < j < b.len() ==> key_lt(#[trigger] b[i].key, #[trigger] b[j].key)
}

/// `b` indexes the first `n` of `keys`: ascending, one bucket per distinct key, each holding in
/// order the positions whose key it is.
pub open spec fn indexes(b: Seq<Bucket>, keys: Seq<BucketKey>, n: int) -> bool {
    &&& strictly_ascending(b)
    &&& forall|i: int| 0 <= i < b.len() ==> (#[trigger] b[i]).events@ == members(keys, b[i].key, n)
    &&& forall|i: int| 0 <= i < b.len() ==> (#[trigger] b[i]).events@.len() > 0
    &&& forall|e: int|
        #![trigger keys[e]]
        0 <= e < n ==> exists|i: int| #![trigger b[i]] 0 <= i < b.len() && b[i].key == keys[e]
}

impl Index {
    pub open spec fn built_from(&self, keys: Seq<BucketKey>) -> bool {
        indexes(self.buckets@, keys, keys.len() as int)
    }
}

/// Position `e` is listed under key `k` exactly when it is among the first `n` and its key is `k`.
pub proof fn lemma_members_contains(keys: Seq<BucketKey>, k: BucketKey, n: int, e: int)
    requires
        0 <= n <= keys.len(),
        0 <= e < keys.len(),
        keys.len() <= usize::MAX,
    ensures
        members(keys, k, n).contains(e as usize) <==> (e < n && keys[e] == k),
    decreases n,
{
    if n > 0 {
        lemma_members_contains(keys, k, n - 1, e);
        let p = members(keys, k, n - 1);
        if keys[n - 1] == k {
            let q = p.push((n - 1) as usize);
            if e == n - 1 {
                assert(q[q.len() - 1] == e as usize);
            } else {
                if p.contains(e as usize) {
                    let i = choose|i: int| 0 <= i < p.len() && p[i] == e as usize;
                    assert(q[i] == e as usize);
                }
                if q.contains(e as usize) {
                    let i = choose|i: int| 0 <= i < q.len() && q[i] == e as usize;
                    if i < p.len() {
                        assert(p[i] == e as usize);
                    }
                }
            }
        }
    }
}

/// Every position listed under a key among the first `n` is below `n`.
pub proof fn lemma_members_bounded(keys: Seq<BucketKey>, k: BucketKey, n: int)
    requires
        0 <= n <= keys.len(),
        keys.len() <= usize::MAX,
    ensures
        forall|j: int|
            0 <= j < members(keys, k, n).len() ==> #[trigger] members(keys, k, n)[j] < n,
    decreases n,
{
    if n > 0 {
        lemma_members_bounded(keys, k, n - 1);
        let p = members(keys, k, n - 1);
        if keys[n - 1] == k {
            let q = p.push((n - 1) as usize);
            assert forall|j: int| 0 <= j < q.len() implies #[trigger] q[j] < n by {
                if j < p.len() {
                    assert(q[j] == p[j]);
                }
            }
        }
    }
}

proof fn lemma_members_none(keys: Seq<BucketKey>, k: BucketKey, n: int)
    requires
        0 <= n <= keys.len(),
        forall|e: int| 0 <= e < n ==> keys[e] != k,
    ensures
        members(keys, k, n).len() == 0,
    decreases n,
{
    if n > 0 {
        lemma_members_none(keys, k, n - 1);
    }
}

fn key_less(a: BucketKey, b: BucketKey) -> (r: bool)
    ensures
        r == key_lt(a, b),
{
    a.year < b.year || (a.year == b.year && (a.unit < b.unit || (a.unit == b.unit && a.day
        < b.day)))
}

/// Groups positions by key: bucket keys strictly ascending, each bucket listing in order the
/// positions whose key it is.
pub fn build_index(keys: &Vec<BucketKey>) -> (r: Index)
    ensures
        r.built_from(keys@),
{
    let mut buckets: Vec<Bucket> = Vec::new();
    let mut n: usize = 0;
    while n < keys.len()
        invariant
            n <= keys.len(),
            indexes(buckets@, keys@, n as int),
        decreases keys.len() - n,
    {
        let k = keys[n];
        let mut j: usize = 0;
        while j < buckets.len() && key_less(buckets[j].key, k)
            invariant
                j <= buckets.len(),
                forall|i: int| 0 <= i < j ==> key_lt(#[trigger] buckets@[i].key, k),
            decreases buckets.len() - j,
        {
            j = j + 1;
        }
        let ghost old_b = buckets@;
        proof {
            assert forall|i: int| j <= i < old_b.len() implies !key_lt(#[trigger] old_b[i].key, k) by {
                if i > j {
                    assert(key_lt(old_b[j as int].key, old_b[i].key));
                }
            }
        }
        if j < buckets.len() && buckets[j].key == k {
            let mut b = buckets.remove(j);
            b.events.push(n);
            buckets.insert(j, b);
            proof {
                let nb = buckets@;
                assert forall|i: int| 0 <= i < nb.len() implies (#[trigger] nb[i]).events@ == members(
                    keys@,
                    nb[i].key,
                    n + 1,
                ) by {
                    if i != j {
                        assert(nb[i] == old_b[i]);
                        if i < j {
                            assert(key_lt(old_b[i].key, old_b[j as int].key));
                        } else {
                            assert(key_lt(old_b[j as int].key, old_b[i].key));
                        }
                    }
                }
                assert forall|e: int|
                    #![trigger keys@[e]]
                    0 <= e < n + 1 implies exists|i: int|
                        #![trigger nb[i]]
                        0 <= i < nb.len() && nb[i].key == keys@[e] by {
                    if e < n {
                        let i = choose|i: int| #![trigger old_b[i]] 0 <= i < old_b.len() && old_b[i].key == keys@[e];
                        assert(nb[i].key == keys@[e]);
                    } else {
                        assert(nb[j as int].key == keys@[e]);
                    }
                }
                assert forall|i: int, i2: int| 0 <= i < i2 < nb.len() implies key_lt(
                    #[trigger] nb[i].key,
                    #[trigger] nb[i2].key,
                ) by {
                    assert(nb[i].key == old_b[i].key);
                    assert(nb[i2].key == old_b[i2].key);
                }
            }
        } else {
            let mut fresh: Vec<usize> = Vec::new();
            fresh.push(n);
            buckets.insert(j, Bucket { key: k, events: fresh });
            proof {
                let nb = buckets@;
                assert forall|e: int| #![trigger keys@[e]] 0 <= e < n implies keys@[e] != k by {
                    let i = choose|i: int| #![trigger old_b[i]] 0 <= i < old_b.len() && old_b[i].key == keys@[e];
                    if i < j {
                        assert(key_lt(old_b[i].key, k));
                    } else {
                        assert(!key_lt(old_b[i].key, k));
                    }
                }
                lemma_members_none(keys@, k, n as int);
                assert(members(keys@, k, n + 1) =~= seq![n]);
                assert forall|i: int| 0 <= i < nb.len() implies (#[trigger] nb[i]).events@ == members(
                    keys@,
                    nb[i].key,
                    n + 1,
                ) by {
                    if i < j {
                        assert(nb[i] == old_b[i]);
                        assert(key_lt(old_b[i].key, k));
                    } else if i > j {
                        assert(nb[i] == old_b[i - 1]);
                        assert(!key_lt(old_b[i - 1].key, k));
                    }
                }
                assert forall|i: int| 0 <= i < nb.len() implies (#[trigger] nb[i]).events@.len() > 0 by {
                    if i < j {
                        assert(nb[i] == old_b[i]);
                    } else if i > j {
                        assert(nb[i] == old_b[i - 1]);
                    }
                }
                assert forall|e: int|
                    #![trigger keys@[e]]
                    0 <= e < n + 1 implies exists|i: int|
                        #![trigger nb[i]]
                        0 <= i < nb.len() && nb[i].key == keys@[e] by {
                    if e < n {
                        let i = choose|i: int| #![trigger old_b[i]] 0 <= i < old_b.len() && old_b[i].key == keys@[e];
                        if i < j {
                            assert(nb[i].key == keys@[e]);
                        } else {
                            assert(nb[i + 1].key == keys@[e]);
                        }
                    } else {
                        assert(nb[j as int].key == keys@[e]);
                    }
                }
                assert forall|i: int, i2: int| 0 <= i < i2 < nb.len() implies key_lt(
                    #[trigger] nb[i].key,
                    #[trigger] nb[i2].key,
                ) by {
                    if i2 < j {
                        assert(nb[i] == old_b[i] && nb[i2] == old_b[i2]);
                    } else if i2 == j {
                        assert(nb[i] == old_b[i]);
                    } else if i == j {
                        assert(nb[i2] == old_b[i2 - 1]);
                        assert(!key_lt(old_b[i2 - 1].key, k));
                    } else if i < j {
                        assert(nb[i] == old_b[i] && nb[i2] == old_b[i2 - 1]);
                        assert(key_lt(old_b[i].key, k));
                        assert(!key_lt(old_b[i2 - 1].key, k));
                    } else {
                        assert(nb[i] == old_b[i - 1] && nb[i2] == old_b[i2 - 1]);
                    }
                }
            }
        }
        n = n + 1;
    }
    Index { buckets }
}

/// Label of a month bucket: "{year}-{month}".
pub open spec fn month_label(k: BucketKey) -> Seq<char> {
    signed_padded(k.year as int, 1) + seq!['-'] + padded(k.unit as nat, 1)
}

/// Label of a week bucket: "{year}-{week}".
pub open spec fn week_label(k: BucketKey) -> Seq<char> {
    signed_padded(k.year as int, 1) + seq!['-'] + padded(k.unit as nat, 1)
}

/// Label of a day bucket: "{year:04}-{month:02}-{day:02}".
pub open spec fn day_label(k: BucketKey) -> Seq<char> {
    signed_padded(k.year as int, 4) + seq!['-'] + padded(k.unit as nat, 2) + seq!['-'] + padded(
        k.day as nat,
        2,
    )
}

/// Text of a month or week key, "{year}-{number}".
pub fn period_label_text(k: BucketKey) -> (r: String)
    ensures
        r@ == month_label(k),
        r@ == week_label(k),
{
    let mut out = String::new();
    write_signed_padded(k.year, 1, &mut out);
    proof {
        reveal_strlit("-");
    }
    out.append("-");
    write_padded(k.unit as u64, 1, &mut out);
    assert(out@ =~= month_label(k));
    out
}

/// Text of a day key, "{year:04}-{month:02}-{day:02}".
pub fn day_label_text(k: BucketKey) -> (r: String)
    ensures
        r@ == day_label(k),
{
    let mut out = String::new();
    write_signed_padded(k.year, 4, &mut out);
    proof {
        reveal_strlit("-");
    }
    out.append("-");
    write_padded(k.unit as u64, 2, &mut out);
    out.append("-");
    write_padded(k.day as u64, 2, &mut out);
    assert(out@ =~= day_label(k));
    out
}

} // verus!
