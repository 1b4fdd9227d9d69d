use crate::key::{Equivalent, HashKey};
use vstd::prelude::*;

verus! {

/// Number of buckets allocated by the first insertion.
const INITIAL_BUCKETS: usize = 1;

/// A map from keys to values, stored as a vector of buckets, each bucket an
/// unordered vector of entries whose keys hash to that bucket.
pub struct HashMap<K: View, V> {
    buckets: Vec<Vec<(K, V)>>,
    /// Number of entries held in all buckets together.
    items: usize,
    /// The map that the buckets represent.
    model: Ghost<Map<K::V, (K, V)>>,
}

/// Largest number of entries that `n` buckets hold before the table grows:
/// three quarters of `n`, rounded down.
pub open spec fn spec_load_limit(n: int) -> int {
    3 * n / 4
}

/// Doubling a nonzero bucket count raises the load limit by at least one.
proof fn lemma_limit_doubles(n: int)
    requires
        n >= 1,
    ensures
        spec_load_limit(n) + 1 <= spec_load_limit(2 * n),
{
}

/// Computes three quarters of `n`, rounded down, without overflow.
fn load_limit(n: usize) -> (r: usize)
    ensures
        r as int == spec_load_limit(n as int),
{
    let q = n / 4;
    let rem = n % 4;
    assert(3 * (n as int) / 4 == 3 * q + 3 * rem / 4) by (nonlinear_arith)
        requires
            q == n as int / 4,
            rem == n as int % 4,
    ;
    assert(q * 3 <= n) by (nonlinear_arith)
        requires
            q == n as int / 4,
    ;
    q * 3 + rem * 3 / 4
}

/// Index of the bucket that a key with view `k` belongs to among `n` buckets.
pub open spec fn bucket_of<K: HashKey>(k: K::V, n: int) -> int {
    (K::spec_hash(k) as int) % n
}

/// Bucket `b` holds an entry whose key has view `k`.
pub open spec fn bucket_has<K: View, V>(b: Seq<(K, V)>, k: K::V) -> bool {
    exists|j: int| 0 <= j < b.len() && (#[trigger] b[j]).0@ == k
}

/// Every entry sits in the bucket that its key hashes to.
pub open spec fn placed<K: HashKey, V>(t: Seq<Vec<(K, V)>>) -> bool {
    forall|i: int, j: int|
        0 <= i < t.len() && 0 <= j < t[i]@.len() ==> bucket_of::<K>(
            (#[trigger] t[i]@[j]).0@,
            t.len() as int,
        ) == i
}

/// No bucket holds two entries with the same key.
pub open spec fn unique_in_buckets<K: View, V>(t: Seq<Vec<(K, V)>>) -> bool {
    forall|i: int, j1: int, j2: int|
        0 <= i < t.len() && 0 <= j1 < t[i]@.len() && 0 <= j2 < t[i]@.len() && j1 != j2
            ==> (#[trigger] t[i]@[j1]).0@ != (#[trigger] t[i]@[j2]).0@
}

/// Every entry of the buckets is an association of `m`.
pub open spec fn agrees<K: View, V>(t: Seq<Vec<(K, V)>>, m: Map<K::V, (K, V)>) -> bool {
    forall|i: int, j: int|
        0 <= i < t.len() && 0 <= j < t[i]@.len() ==> m.contains_key((#[trigger] t[i]@[j]).0@)
            && m[t[i]@[j].0@] == t[i]@[j]
}

/// Every key of `m` has an entry in the bucket it hashes to.
pub open spec fn covers<K: HashKey, V>(t: Seq<Vec<(K, V)>>, m: Map<K::V, (K, V)>) -> bool {
    forall|k: K::V|
        #[trigger] m.contains_key(k) ==> t.len() > 0 && bucket_has(
            t[bucket_of::<K>(k, t.len() as int)]@,
            k,
        )
}

/// Removing the entry at `(i, j)` by moving the bucket's last entry into its
/// place keeps the layout sound, for the model without that entry's key.
proof fn lemma_take_entry<K: HashKey, V>(
    t: Seq<Vec<(K, V)>>,
    t2: Seq<Vec<(K, V)>>,
    m: Map<K::V, (K, V)>,
    i: int,
    j: int,
)
    requires
        placed(t),
        unique_in_buckets(t),
        agrees(t, m),
        covers(t, m),
        0 <= i < t.len(),
        0 <= j < t[i]@.len(),
        t2.len() == t.len(),
        forall|x: int| 0 <= x < t.len() && x != i ==> t2[x] == t[x],
        t2[i]@ == t[i]@.update(j, t[i]@.last()).drop_last(),
    ensures
        placed(t2),
        unique_in_buckets(t2),
        agrees(t2, m.remove(t[i]@[j].0@)),
        covers(t2, m.remove(t[i]@[j].0@)),
{
    let b = t[i]@;
    let b2 = t2[i]@;
    let k = b[j].0@;
    let last = b.len() - 1;
    // Each position of the new bucket holds an entry of the old one.
    assert forall|y: int| 0 <= y < b2.len() implies b2[y] == b[if y == j { last } else { y }]
        && (if y == j { last } else { y }) != j by {}
    assert(placed(t2)) by {
        assert forall|x: int, y: int| 0 <= x < t2.len() && 0 <= y < t2[x]@.len() implies
            bucket_of::<K>((#[trigger] t2[x]@[y]).0@, t2.len() as int) == x by {
            if x == i {
                let z = if y == j { last } else { y };
                assert(t[i]@[z] == t2[x]@[y]);
            } else {
                assert(t[x]@[y] == t2[x]@[y]);
            }
        }
    }
    assert(unique_in_buckets(t2)) by {
        assert forall|x: int, y1: int, y2: int|
            0 <= x < t2.len() && 0 <= y1 < t2[x]@.len() && 0 <= y2 < t2[x]@.len() && y1 != y2
            implies (#[trigger] t2[x]@[y1]).0@ != (#[trigger] t2[x]@[y2]).0@ by {
            if x == i {
                let z1 = if y1 == j { last } else { y1 };
                let z2 = if y2 == j { last } else { y2 };
                assert(t[i]@[z1] == t2[x]@[y1]);
                assert(t[i]@[z2] == t2[x]@[y2]);
            } else {
                assert(t[x]@[y1] == t2[x]@[y1]);
                assert(t[x]@[y2] == t2[x]@[y2]);
            }
        }
    }
    let m2 = m.remove(k);
    assert(agrees(t2, m2)) by {
        assert forall|x: int, y: int| 0 <= x < t2.len() && 0 <= y < t2[x]@.len() implies
            m2.contains_key((#[trigger] t2[x]@[y]).0@) && m2[t2[x]@[y].0@] == t2[x]@[y] by {
            if x == i {
                let z = if y == j { last } else { y };
                assert(t[i]@[z] == t2[x]@[y]);
                assert(t[i]@[z].0@ != t[i]@[j].0@);
            } else {
                assert(t[x]@[y] == t2[x]@[y]);
                if t2[x]@[y].0@ == k {
                    assert(t[i]@[j].0@ == k);
                    assert(bucket_of::<K>(t[i]@[j].0@, t.len() as int) == i);
                    assert(bucket_of::<K>(t[x]@[y].0@, t.len() as int) == x);
                }
            }
        }
    }
    assert(covers(t2, m2)) by {
        assert forall|k2: K::V| #[trigger] m2.contains_key(k2) implies t2.len() > 0 && bucket_has(
            t2[bucket_of::<K>(k2, t2.len() as int)]@,
            k2,
        ) by {
            assert(m.contains_key(k2));
            let x = bucket_of::<K>(k2, t.len() as int);
            let y = choose|y: int| 0 <= y < t[x]@.len() && (#[trigger] t[x]@[y]).0@ == k2;
            if x == i {
                assert(y != j);
                let z = if y == last { j } else { y };
                assert(t2[x]@[z] == t[x]@[y]);
            } else {
                assert(t2[x]@[y] == t[x]@[y]);
            }
        }
    }
}

/// Changing the value of the entry at `(i, j)` keeps the layout sound, for
/// the model with that entry's key associated with the new value.
proof fn lemma_replace_value<K: HashKey, V>(
    t: Seq<Vec<(K, V)>>,
    t2: Seq<Vec<(K, V)>>,
    m: Map<K::V, (K, V)>,
    i: int,
    j: int,
)
    requires
        placed(t),
        unique_in_buckets(t),
        agrees(t, m),
        covers(t, m),
        0 <= i < t.len(),
        0 <= j < t[i]@.len(),
        t2.len() == t.len(),
        forall|x: int| 0 <= x < t.len() && x != i ==> t2[x] == t[x],
        t2[i]@.len() == t[i]@.len(),
        forall|y: int| 0 <= y < t[i]@.len() && y != j ==> t2[i]@[y] == t[i]@[y],
        t2[i]@[j].0 == t[i]@[j].0,
    ensures
        placed(t2),
        unique_in_buckets(t2),
        agrees(t2, m.insert(t[i]@[j].0@, t2[i]@[j])),
        covers(t2, m.insert(t[i]@[j].0@, t2[i]@[j])),
{
    let k = t[i]@[j].0@;
    let m2 = m.insert(k, t2[i]@[j]);
    assert(placed(t2)) by {
        assert forall|x: int, y: int| 0 <= x < t2.len() && 0 <= y < t2[x]@.len() implies
            bucket_of::<K>((#[trigger] t2[x]@[y]).0@, t2.len() as int) == x by {
            assert(t[x]@[y].0 == t2[x]@[y].0);
        }
    }
    assert(unique_in_buckets(t2)) by {
        assert forall|x: int, y1: int, y2: int|
            0 <= x < t2.len() && 0 <= y1 < t2[x]@.len() && 0 <= y2 < t2[x]@.len() && y1 != y2
            implies (#[trigger] t2[x]@[y1]).0@ != (#[trigger] t2[x]@[y2]).0@ by {
            assert(t[x]@[y1].0 == t2[x]@[y1].0);
            assert(t[x]@[y2].0 == t2[x]@[y2].0);
        }
    }
    assert(agrees(t2, m2)) by {
        assert forall|x: int, y: int| 0 <= x < t2.len() && 0 <= y < t2[x]@.len() implies
            m2.contains_key((#[trigger] t2[x]@[y]).0@) && m2[t2[x]@[y].0@] == t2[x]@[y] by {
            if x != i || y != j {
                assert(t[x]@[y] == t2[x]@[y]);
                if x == i {
                    assert(t[x]@[y].0@ != k);
                } else if t[x]@[y].0@ == k {
                    assert(bucket_of::<K>(t[i]@[j].0@, t.len() as int) == i);
                    assert(bucket_of::<K>(t[x]@[y].0@, t.len() as int) == x);
                }
            }
        }
    }
    assert(covers(t2, m2)) by {
        assert forall|k2: K::V| #[trigger] m2.contains_key(k2) implies t2.len() > 0 && bucket_has(
            t2[bucket_of::<K>(k2, t2.len() as int)]@,
            k2,
        ) by {
            if k2 == k {
                assert(t2[i]@[j].0@ == k);
            } else {
                assert(m.contains_key(k2));
                let x = bucket_of::<K>(k2, t.len() as int);
                let y = choose|y: int| 0 <= y < t[x]@.len() && (#[trigger] t[x]@[y]).0@ == k2;
                assert(t2[x]@[y].0 == t[x]@[y].0);
            }
        }
    }
}

/// Appending an entry with a new key to the bucket it hashes to keeps every
/// entry in its bucket, keys unique within buckets, and entries in agreement
/// with the model extended by that association.
proof fn lemma_add_entry_layout<K: HashKey, V>(
    t: Seq<Vec<(K, V)>>,
    t2: Seq<Vec<(K, V)>>,
    m: Map<K::V, (K, V)>,
    i: int,
    e: (K, V),
)
    requires
        placed(t),
        unique_in_buckets(t),
        agrees(t, m),
        0 <= i < t.len(),
        i == bucket_of::<K>(e.0@, t.len() as int),
        !bucket_has(t[i]@, e.0@),
        t2.len() == t.len(),
        forall|x: int| 0 <= x < t.len() && x != i ==> t2[x] == t[x],
        t2[i]@ == t[i]@.push(e),
    ensures
        placed(t2),
        unique_in_buckets(t2),
        agrees(t2, m.insert(e.0@, e)),
{
    let k = e.0@;
    let b = t[i]@;
    let m2 = m.insert(k, e);
    assert(placed(t2)) by {
        assert forall|x: int, y: int| 0 <= x < t2.len() && 0 <= y < t2[x]@.len() implies
            bucket_of::<K>((#[trigger] t2[x]@[y]).0@, t2.len() as int) == x by {
            if x != i || y < b.len() {
                assert(t[x]@[y] == t2[x]@[y]);
            }
        }
    }
    assert(unique_in_buckets(t2)) by {
        assert forall|x: int, y1: int, y2: int|
            0 <= x < t2.len() && 0 <= y1 < t2[x]@.len() && 0 <= y2 < t2[x]@.len() && y1 != y2
            implies (#[trigger] t2[x]@[y1]).0@ != (#[trigger] t2[x]@[y2]).0@ by {
            if x != i || (y1 < b.len() && y2 < b.len()) {
                assert(t[x]@[y1] == t2[x]@[y1]);
                assert(t[x]@[y2] == t2[x]@[y2]);
            } else if y1 < b.len() {
                assert(t[x]@[y1] == t2[x]@[y1]);
            } else {
                assert(t[x]@[y2] == t2[x]@[y2]);
            }
        }
    }
    assert(agrees(t2, m2)) by {
        assert forall|x: int, y: int| 0 <= x < t2.len() && 0 <= y < t2[x]@.len() implies
            m2.contains_key((#[trigger] t2[x]@[y]).0@) && m2[t2[x]@[y].0@] == t2[x]@[y] by {
            if x != i || y < b.len() {
                assert(t[x]@[y] == t2[x]@[y]);
                if t[x]@[y].0@ == k {
                    assert(x == i);
                }
            }
        }
    }
}

/// Appending an entry with a new key to the bucket it hashes to keeps the
/// layout sound, for the model with that association added.
proof fn lemma_add_entry<K: HashKey, V>(
    t: Seq<Vec<(K, V)>>,
    t2: Seq<Vec<(K, V)>>,
    m: Map<K::V, (K, V)>,
    i: int,
    e: (K, V),
)
    requires
        placed(t),
        unique_in_buckets(t),
        agrees(t, m),
        covers(t, m),
        0 <= i < t.len(),
        i == bucket_of::<K>(e.0@, t.len() as int),
        !bucket_has(t[i]@, e.0@),
        t2.len() == t.len(),
        forall|x: int| 0 <= x < t.len() && x != i ==> t2[x] == t[x],
        t2[i]@ == t[i]@.push(e),
    ensures
        placed(t2),
        unique_in_buckets(t2),
        agrees(t2, m.insert(e.0@, e)),
        covers(t2, m.insert(e.0@, e)),
        !m.contains_key(e.0@),
{
    lemma_add_entry_layout(t, t2, m, i, e);
    let k = e.0@;
    let b = t[i]@;
    let m2 = m.insert(k, e);
    assert(!m.contains_key(k)) by {
        if m.contains_key(k) {
            assert(bucket_has(t[i]@, k));
        }
    }
    assert(covers(t2, m2)) by {
        assert forall|k2: K::V| #[trigger] m2.contains_key(k2) implies t2.len() > 0 && bucket_has(
            t2[bucket_of::<K>(k2, t2.len() as int)]@,
            k2,
        ) by {
            if k2 == k {
                assert(t2[i]@[b.len() as int] == e);
            } else {
                assert(m.contains_key(k2));
                let x = bucket_of::<K>(k2, t.len() as int);
                let y = choose|y: int| 0 <= y < t[x]@.len() && (#[trigger] t[x]@[y]).0@ == k2;
                assert(t2[x]@[y] == t[x]@[y]);
            }
        }
    }
}

/// The entries of buckets `b, b + 1, ...` of `t`, starting at position `at`
/// of bucket `b`, in bucket order.
pub open spec fn entries_from<K: View, V>(t: Seq<Vec<(K, V)>>, b: int, at: int) -> Seq<(K, V)>
    decreases t.len() - b,
{
    if b < 0 || b >= t.len() {
        Seq::empty()
    } else {
        t[b]@.skip(at) + entries_from(t, b + 1, 0)
    }
}

/// The entries of buckets `b, b + 1, ...` are associations of `m`, have
/// distinct keys, hash to buckets from `b` on, and cover every key of `m`
/// that hashes there.
proof fn lemma_entries_from<K: HashKey, V>(t: Seq<Vec<(K, V)>>, m: Map<K::V, (K, V)>, b: int)
    requires
        placed(t),
        unique_in_buckets(t),
        agrees(t, m),
        covers(t, m),
        0 <= b <= t.len(),
    ensures
        forall|x: int|
            0 <= x < entries_from(t, b, 0).len() ==> m.contains_key(
                (#[trigger] entries_from(t, b, 0)[x]).0@,
            ) && m[entries_from(t, b, 0)[x].0@] == entries_from(t, b, 0)[x] && bucket_of::<K>(
                entries_from(t, b, 0)[x].0@,
                t.len() as int,
            ) >= b,
        forall|x1: int, x2: int|
            0 <= x1 < entries_from(t, b, 0).len() && 0 <= x2 < entries_from(t, b, 0).len() && x1
                != x2 ==> (#[trigger] entries_from(t, b, 0)[x1]).0@ != (#[trigger] entries_from(
                t,
                b,
                0,
            )[x2]).0@,
        forall|k: K::V|
            #[trigger] m.contains_key(k) && bucket_of::<K>(k, t.len() as int) >= b ==> bucket_has(
                entries_from(t, b, 0),
                k,
            ),
    decreases t.len() - b,
{
    if b < t.len() {
        lemma_entries_from(t, m, b + 1);
        let head = t[b]@;
        let tail = entries_from(t, b + 1, 0);
        let s = entries_from(t, b, 0);
        assert(head.skip(0) =~= head);
        assert(s == head + tail);
        assert forall|x: int| 0 <= x < s.len() implies m.contains_key((#[trigger] s[x]).0@)
            && m[s[x].0@] == s[x] && bucket_of::<K>(s[x].0@, t.len() as int) >= b by {
            if x < head.len() {
                assert(s[x] == t[b]@[x]);
            } else {
                assert(s[x] == tail[x - head.len()]);
            }
        }
        assert forall|x1: int, x2: int| 0 <= x1 < s.len() && 0 <= x2 < s.len() && x1 != x2 implies (
        #[trigger] s[x1]).0@ != (#[trigger] s[x2]).0@ by {
            if x1 < head.len() {
                assert(s[x1] == t[b]@[x1]);
            } else {
                assert(s[x1] == tail[x1 - head.len()]);
            }
            if x2 < head.len() {
                assert(s[x2] == t[b]@[x2]);
            } else {
                assert(s[x2] == tail[x2 - head.len()]);
            }
        }
        assert forall|k: K::V| #[trigger] m.contains_key(k) && bucket_of::<K>(k, t.len() as int) >= b
            implies bucket_has(s, k) by {
            if bucket_of::<K>(k, t.len() as int) == b {
                let y = choose|y: int| 0 <= y < t[b]@.len() && (#[trigger] t[b]@[y]).0@ == k;
                assert(s[y] == t[b]@[y]);
            } else {
                let y = choose|y: int| 0 <= y < tail.len() && (#[trigger] tail[y]).0@ == k;
                assert(s[head.len() + y] == tail[y]);
            }
        }
    }
}

/// Keys of a sequence of entries.
pub open spec fn keys_of<K: View, V>(s: Seq<(K, V)>) -> Seq<K::V> {
    s.map_values(|e: (K, V)| e.0@)
}

/// Bucket count after an insertion into a table of `n` buckets holding
/// `len` entries: one bucket at first, twice as many once the entries
/// exceed the load limit, unless doubling would overflow.
pub open spec fn grown_count(n: nat, len: nat) -> nat {
    if n == 0 {
        1
    } else if len > spec_load_limit(n as int) && n <= usize::MAX / 2 {
        2 * n
    } else {
        n
    }
}

/// The buckets `bs` after the entry at position `j` of bucket `i` is taken
/// out and the bucket's last entry moved into its place.
pub open spec fn taken<K, V>(bs: Seq<Seq<(K, V)>>, i: int, j: int) -> Seq<Seq<(K, V)>> {
    bs.update(i, bs[i].update(j, bs[i].last()).drop_last())
}

impl<K: View, V> HashMap<K, V> {
    /// For each key of the map, by its view, the entry that stores it: the
    /// key object kept in the table and its value.
    pub closed spec fn stored(&self) -> Map<K::V, (K, V)> {
        self.model@
    }

    /// The entries of each bucket, bucket by bucket.
    pub closed spec fn bucket_entries(&self) -> Seq<Seq<(K, V)>> {
        self.buckets@.map_values(|b: Vec<(K, V)>| b@)
    }

    /// Number of buckets allocated.
    pub open spec fn bucket_count(&self) -> nat {
        self.bucket_entries().len()
    }
}

impl<K: View, V> View for HashMap<K, V> {
    type V = Map<K::V, V>;

    open spec fn view(&self) -> Map<K::V, V> {
        self.stored().map_values(|e: (K, V)| e.1)
    }
}

impl<K: HashKey, V> HashMap<K, V> {
    /// The buckets represent the model and the count is its size.
    pub closed spec fn wf(&self) -> bool {
        let t = self.buckets@;
        &&& self.model@.dom().finite()
        &&& self.items as nat == self.model@.len()
        &&& placed(t)
        &&& unique_in_buckets(t)
        &&& agrees(t, self.model@)
        &&& covers(t, self.model@)
    }

    /// A well-formed map has finitely many keys, those of its stored entries.
    pub proof fn lemma_wf(&self)
        requires
            self.wf(),
        ensures
            self@.dom().finite(),
            self@.dom() == self.stored().dom(),
            self@.len() == self.stored().len(),
            forall|k: K::V| #[trigger] self@.contains_key(k) ==> self@[k] == self.stored()[k].1,
    {
        assert(self@.dom() =~= self.stored().dom());
    }

    /// Creates an empty map; no bucket is allocated until the first insertion.
    pub fn new() -> (r: Self)
        ensures
            r.wf(),
            r@ == Map::<K::V, V>::empty(),
            r@.dom().finite(),
            r.stored() == Map::<K::V, (K, V)>::empty(),
            r.bucket_count() == 0,
    {
        let r = HashMap { buckets: Vec::new(), items: 0, model: Ghost(Map::empty()) };
        proof {
            r.lemma_wf();
            assert(r@ =~= Map::<K::V, V>::empty());
        }
        r
    }

    /// The bucket that `key` belongs to, or `None` while no bucket exists.
    fn bucket<Q: Equivalent<K> + ?Sized>(&self, key: &Q) -> (r: Option<usize>)
        ensures
            match r {
                Some(i) => self.buckets@.len() > 0 && i as int == bucket_of::<K>(
                    key@,
                    self.buckets@.len() as int,
                ),
                None => self.buckets@.len() == 0,
            },
    {
        if self.buckets.len() == 0 {
            return None;
        }
        let h = key.query_hash();
        Some((h % (self.buckets.len() as u64)) as usize)
    }

    /// Position in bucket `i` of the entry whose key is equivalent to `key`.
    fn position<Q: Equivalent<K> + ?Sized>(&self, i: usize, key: &Q) -> (r: Option<usize>)
        requires
            i < self.buckets@.len(),
        ensures
            match r {
                Some(j) => j < self.buckets@[i as int]@.len() && self.buckets@[i as int]@[j as int].0@
                    == key@,
                None => !bucket_has(self.buckets@[i as int]@, key@),
            },
    {
        let b = &self.buckets[i];
        let mut j: usize = 0;
        while j < b.len()
            invariant
                b@ == self.buckets@[i as int]@,
                j <= b@.len(),
                forall|x: int| 0 <= x < j ==> (#[trigger] b@[x]).0@ != key@,
            decreases b@.len() - j,
        {
            if key.equivalent(&b[j].0) {
                return Some(j);
            }
            j = j + 1;
        }
        None
    }

    /// Position in bucket `i` of the entry whose key is the same as `key`.
    fn key_position(&self, i: usize, key: &K) -> (r: Option<usize>)
        requires
            i < self.buckets@.len(),
        ensures
            match r {
                Some(j) => j < self.buckets@[i as int]@.len() && self.buckets@[i as int]@[j as int].0@
                    == key@,
                None => !bucket_has(self.buckets@[i as int]@, key@),
            },
    {
        let b = &self.buckets[i];
        let mut j: usize = 0;
        while j < b.len()
            invariant
                b@ == self.buckets@[i as int]@,
                j <= b@.len(),
                forall|x: int| 0 <= x < j ==> (#[trigger] b@[x]).0@ != key@,
            decreases b@.len() - j,
        {
            if b[j].0.same_key(key) {
                return Some(j);
            }
            j = j + 1;
        }
        None
    }

    /// Index of the bucket for `key`; some bucket must exist.
    fn home(&self, key: &K) -> (r: usize)
        requires
            self.buckets@.len() > 0,
        ensures
            r as int == bucket_of::<K>(key@, self.buckets@.len() as int),
            r < self.buckets@.len(),
    {
        (key.hash_key() % (self.buckets.len() as u64)) as usize
    }

    /// Associates `value` with `key`. Returns the value that `key` had
    /// before, which is replaced, and `None` when `key` was absent. An entry
    /// already present keeps its stored key.
    pub fn insert(&mut self, key: K, value: V) -> (r: Option<V>)
        requires
            old(self).wf(),
            old(self)@.contains_key(key@) || old(self)@.len() < usize::MAX,
        ensures
            final(self).wf(),
            final(self)@.dom().finite(),
            r == old(self)@.get(key@),
            final(self)@ == old(self)@.insert(key@, value),
            final(self).stored() == old(self).stored().insert(
                key@,
                (
                    if old(self)@.contains_key(key@) {
                        old(self).stored()[key@].0
                    } else {
                        key
                    },
                    value,
                ),
            ),
            final(self)@.len() == if old(self)@.contains_key(key@) {
                old(self)@.len()
            } else {
                old(self)@.len() + 1
            },
            final(self).bucket_count() == grown_count(old(self).bucket_count(), old(self)@.len()),
            old(self).bucket_count() <= usize::MAX / 2 && old(self)@.len() <= spec_load_limit(
                old(self).bucket_count() as int,
            ) + 1 ==> final(self)@.len() <= spec_load_limit(final(self).bucket_count() as int) + 1,
    {
        proof {
            self.lemma_wf();
            if self.buckets@.len() == 0 {
                assert(self.model@.dom() =~= Set::empty());
            }
        }
        // Grow before locating the bucket, so that one exists. Once the bucket
        // count could not be doubled without overflow, the table stops growing.
        let n = self.buckets.len();
        if n == 0 || (self.items > load_limit(n) && n <= usize::MAX / 2) {
            self.resize();
            proof {
                if n > 0 {
                    lemma_limit_doubles(n as int);
                }
            }
        }
        let i = self.home(&key);
        let ghost t = self.buckets@;
        let ghost m = self.model@;
        match self.key_position(i, &key) {
            Some(j) => {
                let mut displaced = value;
                std::mem::swap(&mut self.buckets[i][j].1, &mut displaced);
                proof {
                    let k = key@;
                    lemma_replace_value(t, self.buckets@, m, i as int, j as int);
                    assert(t[i as int]@[j as int].0@ == k);
                    self.model = Ghost(m.insert(k, self.buckets@[i as int]@[j as int]));
                    self.lemma_wf();
                    assert(self@ =~= old(self)@.insert(key@, value));
                }
                Some(displaced)
            },
            None => {
                self.buckets[i].push((key, value));
                self.items = self.items + 1;
                proof {
                    lemma_add_entry(t, self.buckets@, m, i as int, (key, value));
                    self.model = Ghost(m.insert(key@, (key, value)));
                    self.lemma_wf();
                    assert(self@ =~= old(self)@.insert(key@, value));
                }
                None
            },
        }
    }

    /// Removes the entry for `key` and returns its value, if there was one.
    pub fn remove<Q: Equivalent<K> + ?Sized>(&mut self, key: &Q) -> (r: Option<V>)
        requires
            old(self).wf(),
        ensures
            final(self).wf(),
            final(self)@.dom().finite(),
            r == old(self)@.get(key@),
            final(self)@ == old(self)@.remove(key@),
            final(self).stored() == old(self).stored().remove(key@),
            final(self)@.len() == if old(self)@.contains_key(key@) {
                old(self)@.len() - 1
            } else {
                old(self)@.len() as int
            },
            final(self).bucket_count() == old(self).bucket_count(),
            r is None ==> final(self).bucket_entries() == old(self).bucket_entries(),
            r is Some ==> exists|j: int|
                0 <= j < old(self).bucket_entries()[bucket_of::<K>(
                    key@,
                    old(self).bucket_count() as int,
                )].len() && old(self).bucket_entries()[bucket_of::<K>(
                    key@,
                    old(self).bucket_count() as int,
                )][j].0@ == key@ && final(self).bucket_entries() == #[trigger] taken(
                    old(self).bucket_entries(),
                    bucket_of::<K>(key@, old(self).bucket_count() as int),
                    j,
                ),
    {
        proof {
            self.lemma_wf();
        }
        let i = match self.bucket(key) {
            Some(i) => i,
            None => {
                assert(self.stored().remove(key@) =~= self.stored());
                assert(self@.remove(key@) =~= self@);
                return None;
            },
        };
        let j = match self.position(i, key) {
            Some(j) => j,
            None => {
                assert(!self@.contains_key(key@));
                assert(self.stored().remove(key@) =~= self.stored());
                assert(self@.remove(key@) =~= self@);
                return None;
            },
        };
        let ghost t = self.buckets@;
        let ghost m = self.model@;
        let ghost bs = self.bucket_entries();
        let entry = self.buckets[i].swap_remove(j);
        self.items = self.items - 1;
        proof {
            lemma_take_entry(t, self.buckets@, m, i as int, j as int);
            self.model = Ghost(m.remove(key@));
            self.lemma_wf();
            assert(self@ =~= old(self)@.remove(key@));
            assert(bs.len() == t.len());
            assert(self.bucket_entries() =~= taken(bs, i as int, j as int));
            assert(bs[i as int][j as int] == t[i as int]@[j as int]);
            assert(bs == old(self).bucket_entries());
            assert(old(self).bucket_count() == t.len());
            assert(bucket_of::<K>(key@, old(self).bucket_count() as int) == i);
            assert(self.bucket_entries() == taken(
                old(self).bucket_entries(),
                bucket_of::<K>(key@, old(self).bucket_count() as int),
                j as int,
            ));
        }
        Some(entry.1)
    }

    /// Replaces the buckets by twice as many (one when there is none), and
    /// moves every entry to the bucket its key hashes to among the new ones.
    fn resize(&mut self)
        requires
            old(self).wf(),
            old(self).buckets@.len() <= usize::MAX / 2,
        ensures
            final(self).wf(),
            final(self).model@ == old(self).model@,
            final(self).buckets@.len() == if old(self).buckets@.len() == 0 {
                1
            } else {
                2 * old(self).buckets@.len()
            },
    {
        let n = self.buckets.len();
        let target: usize = if n == 0 {
            INITIAL_BUCKETS
        } else {
            2 * n
        };
        let ghost m = self.model@;
        let mut fresh: Vec<Vec<(K, V)>> = Vec::with_capacity(target);
        while fresh.len() < target
            invariant
                fresh@.len() <= target,
                forall|x: int| 0 <= x < fresh@.len() ==> (#[trigger] fresh@[x])@.len() == 0,
            decreases target - fresh@.len(),
        {
            fresh.push(Vec::new());
        }
        let mut old_buckets: Vec<Vec<(K, V)>> = Vec::new();
        std::mem::swap(&mut self.buckets, &mut old_buckets);
        let ghost orig = old_buckets@;
        // Gather every entry into one vector.
        let mut all: Vec<(K, V)> = Vec::new();
        while old_buckets.len() > 0
            invariant
                placed(orig),
                unique_in_buckets(orig),
                agrees(orig, m),
                covers(orig, m),
                orig.len() == n,
                old_buckets@.len() <= n,
                old_buckets@ == orig.subrange(0, old_buckets@.len() as int),
                forall|x: int|
                    0 <= x < all@.len() ==> m.contains_key((#[trigger] all@[x]).0@) && m[all@[x].0@]
                        == all@[x] && bucket_of::<K>(all@[x].0@, n as int)
                        >= old_buckets@.len(),
                forall|x1: int, x2: int|
                    0 <= x1 < all@.len() && 0 <= x2 < all@.len() && x1 != x2 ==> (#[trigger] all@[x1]).0@
                        != (#[trigger] all@[x2]).0@,
                forall|k: K::V|
                    #[trigger] m.contains_key(k) ==> bucket_of::<K>(k, n as int) < old_buckets@.len()
                        || bucket_has(all@, k),
            decreases old_buckets@.len(),
        {
            let ghost before = all@;
            let mut b = old_buckets.pop().unwrap();
            let ghost l = old_buckets@.len() as int;
            assert(b == orig[l]);
            let ghost bs = b@;
            all.append(&mut b);
            assert(all@ == before + bs);
            assert forall|x: int| 0 <= x < all@.len() implies m.contains_key(
                (#[trigger] all@[x]).0@,
            ) && m[all@[x].0@] == all@[x] && bucket_of::<K>(all@[x].0@, n as int) >= l by {
                if x >= before.len() {
                    assert(all@[x] == orig[l]@[x - before.len()]);
                }
            }
            assert forall|x1: int, x2: int|
                0 <= x1 < all@.len() && 0 <= x2 < all@.len() && x1 != x2 implies (#[trigger] all@[x1]).0@
                != (#[trigger] all@[x2]).0@ by {
                if x1 >= before.len() {
                    assert(all@[x1] == orig[l]@[x1 - before.len()]);
                }
                if x2 >= before.len() {
                    assert(all@[x2] == orig[l]@[x2 - before.len()]);
                }
            }
            assert forall|k: K::V| #[trigger] m.contains_key(k) implies bucket_of::<K>(k, n as int)
                < l || bucket_has(all@, k) by {
                if bucket_of::<K>(k, n as int) == l {
                    let y = choose|y: int| 0 <= y < orig[l]@.len() && (#[trigger] orig[l]@[y]).0@ == k;
                    assert(all@[before.len() + y] == orig[l]@[y]);
                } else if bucket_has(before, k) {
                    let y = choose|y: int| 0 <= y < before.len() && (#[trigger] before[y]).0@ == k;
                    assert(all@[y] == before[y]);
                }
            }
        }
        // Hand each entry to its bucket among the new ones.
        while all.len() > 0
            invariant
                fresh@.len() == target,
                target > 0,
                placed(fresh@),
                unique_in_buckets(fresh@),
                agrees(fresh@, m),
                forall|x: int|
                    0 <= x < all@.len() ==> m.contains_key((#[trigger] all@[x]).0@) && m[all@[x].0@]
                        == all@[x],
                forall|x1: int, x2: int|
                    0 <= x1 < all@.len() && 0 <= x2 < all@.len() && x1 != x2 ==> (#[trigger] all@[x1]).0@
                        != (#[trigger] all@[x2]).0@,
                forall|k: K::V|
                    #[trigger] m.contains_key(k) ==> bucket_has(all@, k) || bucket_has(
                        fresh@[bucket_of::<K>(k, target as int)]@,
                        k,
                    ),
                forall|x: int, i: int, y: int|
                    0 <= x < all@.len() && 0 <= i < fresh@.len() && 0 <= y < fresh@[i]@.len()
                        ==> (#[trigger] all@[x]).0@ != (#[trigger] fresh@[i]@[y]).0@,
            decreases all@.len(),
        {
            let ghost before = all@;
            let ghost t = fresh@;
            let e = all.pop().unwrap();
            let i = (e.0.hash_key() % (target as u64)) as usize;
            assert(!bucket_has(t[i as int]@, e.0@)) by {
                if bucket_has(t[i as int]@, e.0@) {
                    let y = choose|y: int|
                        0 <= y < t[i as int]@.len() && (#[trigger] t[i as int]@[y]).0@ == e.0@;
                    assert(before[before.len() - 1] == e);
                }
            }
            fresh[i].push(e);
            proof {
                lemma_add_entry_layout(t, fresh@, m, i as int, e);
                assert(m.insert(e.0@, e) =~= m);
                assert(fresh@[i as int]@[t[i as int]@.len() as int] == e);
                assert forall|k: K::V| #[trigger] m.contains_key(k) implies bucket_has(all@, k)
                    || bucket_has(fresh@[bucket_of::<K>(k, target as int)]@, k) by {
                    if k != e.0@ {
                        if bucket_has(before, k) {
                            let y = choose|y: int| 0 <= y < before.len() && (#[trigger] before[y]).0@ == k;
                            assert(all@[y] == before[y]);
                        } else {
                            let x = bucket_of::<K>(k, target as int);
                            let y = choose|y: int| 0 <= y < t[x]@.len() && (#[trigger] t[x]@[y]).0@ == k;
                            assert(fresh@[x]@[y] == t[x]@[y]);
                        }
                    }
                }
                assert forall|x: int, i2: int, y: int|
                    0 <= x < all@.len() && 0 <= i2 < fresh@.len() && 0 <= y < fresh@[i2]@.len()
                    implies (#[trigger] all@[x]).0@ != (#[trigger] fresh@[i2]@[y]).0@ by {
                    assert(all@[x] == before[x]);
                    if i2 != i || y < t[i as int]@.len() {
                        assert(fresh@[i2]@[y] == t[i2]@[y]);
                    } else {
                        assert(before[before.len() - 1] == e);
                    }
                }
            }
        }
        self.buckets = fresh;
    }

    /// The entries of the map in the order in which iteration visits them.
    pub closed spec fn entries(&self) -> Seq<(K, V)> {
        entries_from(self.buckets@, 0, 0)
    }

    /// Iteration visits every association of the map exactly once: as many
    /// entries as the map has keys, each one an association of the map, no
    /// key twice, and every key of the map among them.
    pub proof fn lemma_entries(&self)
        requires
            self.wf(),
        ensures
            self.entries().len() == self@.len(),
            forall|x: int|
                0 <= x < self.entries().len() ==> self@.contains_key(
                    (#[trigger] self.entries()[x]).0@,
                ) && self@[self.entries()[x].0@] == self.entries()[x].1 && self.stored()[self.entries()[x].0@]
                    == self.entries()[x],
            forall|x1: int, x2: int|
                0 <= x1 < self.entries().len() && 0 <= x2 < self.entries().len() && x1 != x2
                    ==> (#[trigger] self.entries()[x1]).0@ != (#[trigger] self.entries()[x2]).0@,
            forall|k: K::V|
                #[trigger] self@.contains_key(k) ==> exists|x: int|
                    0 <= x < self.entries().len() && (#[trigger] self.entries()[x]).0@ == k,
    {
        let t = self.buckets@;
        let m = self.model@;
        self.lemma_wf();
        lemma_entries_from(t, m, 0);
        let s = self.entries();
        assert forall|k: K::V| #[trigger] m.contains_key(k) implies exists|x: int|
            0 <= x < s.len() && (#[trigger] s[x]).0@ == k by {
            assert(t.len() > 0);
            assert(bucket_of::<K>(k, t.len() as int) >= 0);
            assert(bucket_has(s, k));
        }
        let ks = keys_of(s);
        assert(ks.no_duplicates()) by {
            assert forall|x1: int, x2: int| 0 <= x1 < ks.len() && 0 <= x2 < ks.len() && x1 != x2
                implies ks[x1] != ks[x2] by {
                assert(ks[x1] == s[x1].0@);
                assert(ks[x2] == s[x2].0@);
            }
        }
        assert(ks.to_set() =~= m.dom()) by {
            assert forall|k: K::V| ks.to_set().contains(k) implies m.dom().contains(k) by {
                let x = choose|x: int| 0 <= x < ks.len() && ks[x] == k;
                assert(s[x].0@ == k);
            }
            assert forall|k: K::V| m.dom().contains(k) implies ks.to_set().contains(k) by {
                assert(m.contains_key(k));
                let x = choose|x: int| 0 <= x < s.len() && (#[trigger] s[x]).0@ == k;
                assert(ks[x] == k);
            }
        }
        ks.unique_seq_to_set();
    }

    /// An iterator over the entries of the map, bucket by bucket.
    pub fn iter(&self) -> (r: Iter<'_, K, V>)
        requires
            self.wf(),
        ensures
            r.wf(),
            r@ == self.entries(),
            r.source() == *self,
            r.cursor() == (0int, 0int),
    {
        Iter { map: self, bucket: 0, at: 0 }
    }

    /// Returns a reference to the value associated with `key`.
    pub fn get<Q: Equivalent<K> + ?Sized>(&self, key: &Q) -> (r: Option<&V>)
        requires
            self.wf(),
        ensures
            r.is_some() == self@.contains_key(key@),
            r matches Some(v) ==> *v == self@[key@],
    {
        let i = match self.bucket(key) {
            Some(i) => i,
            None => return None,
        };
        match self.position(i, key) {
            Some(j) => Some(&self.buckets[i][j].1),
            None => None,
        }
    }

    /// Returns true if the map holds an entry for `key`.
    pub fn contains_key<Q: Equivalent<K> + ?Sized>(&self, key: &Q) -> (r: bool)
        requires
            self.wf(),
        ensures
            r == self@.contains_key(key@),
    {
        self.get(key).is_some()
    }

    /// Number of entries in the map.
    pub fn len(&self) -> (r: usize)
        requires
            self.wf(),
        ensures
            r as nat == self@.len(),
    {
        proof {
            self.lemma_wf();
        }
        self.items
    }

    /// Returns true if the map holds no entry.
    pub fn is_empty(&self) -> (r: bool)
        requires
            self.wf(),
        ensures
            r == (self@.len() == 0),
    {
        proof {
            self.lemma_wf();
        }
        self.items == 0
    }
}

/// A single pass over the entries of a map, bucket by bucket.
pub struct Iter<'a, K: View, V> {
    map: &'a HashMap<K, V>,
    /// The bucket being visited.
    bucket: usize,
    /// The position of the next entry in that bucket.
    at: usize,
}

impl<'a, K: View, V> View for Iter<'a, K, V> {
    type V = Seq<(K, V)>;

    /// The entries that are still to come.
    closed spec fn view(&self) -> Seq<(K, V)> {
        entries_from(self.map.buckets@, self.bucket as int, self.at as int)
    }
}

impl<'a, K: View, V> Iter<'a, K, V> {
    /// The map being walked.
    pub closed spec fn source(&self) -> HashMap<K, V> {
        *self.map
    }

    /// The bucket being visited and the position of the next entry in it.
    pub closed spec fn cursor(&self) -> (int, int) {
        (self.bucket as int, self.at as int)
    }

    /// The position is within the map.
    pub closed spec fn wf(&self) -> bool {
        &&& self.bucket <= self.map.buckets@.len()
        &&& self.bucket < self.map.buckets@.len() ==> self.at <= self.map.buckets@[self.bucket as int]@.len()
    }

    /// Returns the next entry, or `None` when every entry has been visited.
    pub fn next(&mut self) -> (r: Option<(&'a K, &'a V)>)
        requires
            old(self).wf(),
        ensures
            final(self).wf(),
            final(self).source() == old(self).source(),
            match r {
                Some(e) => old(self)@.len() > 0 && (*e.0, *e.1) == old(self)@[0] && final(self)@
                    == old(self)@.drop_first(),
                None => old(self)@.len() == 0 && final(self)@ == old(self)@,
            },
            ({
                let be = old(self).source().bucket_entries();
                let (b0, a0) = old(self).cursor();
                let (b1, a1) = final(self).cursor();
                match r {
                    Some(e) => 0 <= b1 < be.len() && 1 <= a1 <= be[b1].len() && (*e.0, *e.1)
                        == be[b1][a1 - 1] && ((b1 == b0 && a1 == a0 + 1) || (b0 < b1 && a1 == 1
                        && a0 >= be[b0].len() && forall|b: int| b0 < b < b1 ==> (#[trigger] be[b]).len()
                        == 0)),
                    None => b1 == be.len() && (b0 < be.len() ==> a0 >= be[b0].len()) && forall|b: int|
                        b0 < b < be.len() ==> (#[trigger] be[b]).len() == 0,
                }
            }),
    {
        let map: &'a HashMap<K, V> = self.map;
        loop
            invariant
                self.map == map,
                old(self).map == map,
                self.wf(),
                self@ == old(self)@,
                self.bucket >= old(self).bucket,
                self.bucket == old(self).bucket ==> self.at == old(self).at,
                self.bucket > old(self).bucket ==> self.at == 0 && old(self).at >= map.buckets@[old(
                    self,
                ).bucket as int]@.len(),
                forall|b: int|
                    old(self).bucket < b < self.bucket ==> (#[trigger] map.buckets@[b])@.len() == 0,
            decreases map.buckets@.len() - self.bucket, map.buckets@.len() + 1 - self.at,
        {
            if self.bucket >= map.buckets.len() {
                return None;
            }
            let b: &'a Vec<(K, V)> = &map.buckets[self.bucket];
            let ghost rest = entries_from(map.buckets@, self.bucket as int + 1, 0);
            if self.at < b.len() {
                let e: &'a (K, V) = &b[self.at];
                assert(b@.skip(self.at as int) =~= seq![*e] + b@.skip(self.at + 1));
                self.at = self.at + 1;
                assert(old(self)@ == seq![*e] + self@);
                assert(old(self)@.drop_first() =~= self@);
                return Some((&e.0, &e.1));
            }
            assert(b@.skip(self.at as int) =~= Seq::<(K, V)>::empty());
            self.bucket = self.bucket + 1;
            self.at = 0;
        }
    }
}

} // verus!
