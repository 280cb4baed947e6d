use vstd::prelude::*;

use crate::key::OrderedKey;

verus! {

/// The branching parameter `d`: a node holds at most `2d - 1` keys. It is fixed at build time.
pub const MAX_DEGREE: usize = 2;

/// The most keys a node may hold, `2d - 1`.
pub open spec fn max_keys() -> int {
    2 * MAX_DEGREE - 1
}

/// `a` comes before `b`: strictly when `strict`, else possibly equal to it.
pub open spec fn precedes(strict: bool, a: int, b: int) -> bool {
    if strict {
        a < b
    } else {
        a <= b
    }
}

/// Position `i` of the ascending `keys` is where `key` goes: right of every key not greater
/// than `key`, left of every greater one.
pub open spec fn fits_at<K: OrderedKey>(keys: Seq<K>, i: int, key: K) -> bool {
    &&& 0 <= i <= keys.len()
    &&& i > 0 ==> keys[i - 1].rank() <= key.rank()
    &&& forall|j: int| i <= j < keys.len() ==> key.rank() < #[trigger] keys[j].rank()
}

/// The first position at or after `i` whose key is not less than `k`, scanning left to right.
pub open spec fn scan<K: OrderedKey>(keys: Seq<K>, k: K, i: int) -> int
    decreases keys.len() - i,
{
    if 0 <= i < keys.len() && keys[i].rank() < k.rank() {
        scan(keys, k, i + 1)
    } else {
        i
    }
}

/// The scan from `i` stops at the first key not less than `k`.
pub proof fn lemma_scan_props<K: OrderedKey>(keys: Seq<K>, k: K, i: int)
    requires
        0 <= i <= keys.len(),
    ensures
        i <= scan(keys, k, i) <= keys.len(),
        forall|j: int| i <= j < scan(keys, k, i) ==> #[trigger] keys[j].rank() < k.rank(),
        scan(keys, k, i) < keys.len() ==> k.rank() <= keys[scan(keys, k, i)].rank(),
    decreases keys.len() - i,
{
    if i < keys.len() && keys[i].rank() < k.rank() {
        lemma_scan_props(keys, k, i + 1);
    }
}

/// A position whose keys before are all less than `k`, and whose own key is not, is where
/// the scan stops.
pub proof fn lemma_scan_at<K: OrderedKey>(keys: Seq<K>, k: K, c: int, i: int)
    requires
        0 <= i <= c <= keys.len(),
        forall|j: int| 0 <= j < c ==> #[trigger] keys[j].rank() < k.rank(),
        c < keys.len() ==> k.rank() <= keys[c].rank(),
    ensures
        scan(keys, k, i) == c,
    decreases c - i,
{
    if i < c {
        lemma_scan_at(keys, k, c, i + 1);
    }
}

/// The value a lookup of `k` answers after `prev`, once `(key, value)` is inserted: the
/// earlier answer stays, and a key not held before answers its first value.
pub open spec fn after_insert<K: OrderedKey, V>(prev: Option<V>, k: K, key: K, value: V) -> Option<V> {
    if k.rank() == key.rank() && prev is None {
        Some(value)
    } else {
        prev
    }
}

/// `x` is at least the lower bound `lo`, where `None` stands for no bound.
pub open spec fn above(lo: Option<int>, x: int, strict: bool) -> bool {
    match lo {
        Some(l) => precedes(strict, l, x),
        None => true,
    }
}

/// `x` is at most the upper bound `hi`, where `None` stands for no bound.
pub open spec fn below(hi: Option<int>, x: int, strict: bool) -> bool {
    match hi {
        Some(u) => precedes(strict, x, u),
        None => true,
    }
}

struct Node<K, V> {
    keys: Vec<K>,
    values: Vec<V>,
    children: Vec<Node<K, V>>,
    leaf: bool,
}

/// The number of entries the subtrees `s`, each of height `h`, store together.
spec fn sum_size<K: OrderedKey, V>(s: Seq<Node<K, V>>, h: nat) -> nat
    decreases h, 1nat, s.len(),
{
    if s.len() == 0 {
        0
    } else {
        sum_size(s.drop_last(), h) + s.last().size(h)
    }
}

/// Counting splits at any position.
proof fn lemma_sum_size_append<K: OrderedKey, V>(a: Seq<Node<K, V>>, b: Seq<Node<K, V>>, h: nat)
    ensures
        sum_size(a + b, h) == sum_size(a, h) + sum_size(b, h),
    decreases b.len(),
{
    if b.len() == 0 {
        assert(a + b == a);
    } else {
        assert((a + b).drop_last() == a + b.drop_last());
        lemma_sum_size_append(a, b.drop_last(), h);
    }
}

/// The count of one subtree alone.
proof fn lemma_sum_size_one<K: OrderedKey, V>(x: Node<K, V>, h: nat)
    ensures
        sum_size(seq![x], h) == x.size(h),
{
    reveal_with_fuel(sum_size, 2);
    assert(seq![x].drop_last() == Seq::<Node<K, V>>::empty());
    assert(seq![x].last() == x);
}

impl<K: OrderedKey, V> Node<K, V> {
    /// The node itself stores `(k, v)` at position `i`.
    spec fn stores(self, i: int, k: K, v: V) -> bool {
        0 <= i < self.keys.len() && self.keys@[i] == k && self.values@[i] == v
    }

    /// The subtree of height `h` rooted at this node holds the entry `(k, v)`.
    spec fn has(self, h: nat, k: K, v: V) -> bool
        decreases h,
    {
        ||| exists|i: int| #[trigger] self.stores(i, k, v)
        ||| h > 0 && exists|j: int|
            #![trigger self.children@[j]]
            0 <= j < self.children.len() && self.children@[j].has((h - 1) as nat, k, v)
    }

    /// The value a lookup of `k` answers in the subtree: at the first key not less than
    /// `k`, an equal key answers unless its left child answers first; else the child there
    /// answers.
    spec fn find(self, h: nat, k: K) -> Option<V>
        decreases h,
    {
        let i = scan(self.keys@, k, 0);
        if i < self.keys.len() && self.keys@[i].rank() == k.rank() {
            if h == 0 {
                Some(self.values@[i])
            } else {
                match self.children@[i].find((h - 1) as nat, k) {
                    Some(v) => Some(v),
                    None => Some(self.values@[i]),
                }
            }
        } else if h == 0 {
            None
        } else {
            self.children@[i].find((h - 1) as nat, k)
        }
    }

    /// The number of entries the subtree stores, each repeat counted.
    spec fn size(self, h: nat) -> nat
        decreases h, 0nat, 0nat,
    {
        if h == 0 {
            self.keys@.len()
        } else {
            self.keys@.len() + sum_size(self.children@, (h - 1) as nat)
        }
    }

    /// The lower bound on the keys of child `j`, given the bound `lo` on this node.
    spec fn lo_of(self, j: int, lo: Option<int>) -> Option<int> {
        if j == 0 {
            lo
        } else {
            Some(self.keys@[j - 1].rank())
        }
    }

    /// The upper bound on the keys of child `j`, given the bound `hi` on this node.
    spec fn hi_of(self, j: int, hi: Option<int>) -> Option<int> {
        if j == self.keys.len() {
            hi
        } else {
            Some(self.keys@[j].rank())
        }
    }

    /// The node's keys ascend, strictly when `st`.
    spec fn sorted(self, st: bool) -> bool {
        forall|a: int, b: int|
            #![trigger self.keys@[a], self.keys@[b]]
            0 <= a < b < self.keys.len() ==> precedes(st, self.keys@[a].rank(), self.keys@[b].rank())
    }

    /// Well-formed subtree of height `h` whose keys lie between `lo` and `hi`: keys in order,
    /// at most `2d - 1` of them, values parallel to keys, every leaf at depth `h`, and each
    /// child's keys between the two keys that surround it, and no node below the root
    /// empty. With `st` every one of these
    /// orders is strict; without it, equal keys may stand side by side.
    spec fn wf(self, h: nat, lo: Option<int>, hi: Option<int>, st: bool) -> bool
        decreases h,
    {
        &&& self.keys.len() == self.values.len()
        &&& self.keys.len() <= max_keys()
        &&& self.sorted(st)
        &&& forall|i: int|
            0 <= i < self.keys.len() ==> above(lo, #[trigger] self.keys@[i].rank(), st)
                && below(hi, self.keys@[i].rank(), st)
        &&& self.leaf == (h == 0)
        &&& h == 0 ==> self.children.len() == 0
        &&& h > 0 ==> {
            &&& self.children.len() == self.keys.len() + 1
            &&& forall|j: int|
                #![trigger self.children@[j]]
                0 <= j < self.children.len() ==> self.children@[j].keys.len() >= 1
            &&& forall|j: int|
                #![trigger self.children@[j]]
                0 <= j < self.children.len() ==> self.children@[j].wf(
                    (h - 1) as nat,
                    self.lo_of(j, lo),
                    self.hi_of(j, hi),
                    st,
                )
        }
    }

    /// Every entry of a well-formed subtree lies within its bounds.
    proof fn lemma_has_bounded(self, h: nat, lo: Option<int>, hi: Option<int>, st: bool, k: K, v: V)
        requires
            self.wf(h, lo, hi, st),
            self.has(h, k, v),
        ensures
            above(lo, k.rank(), st),
            below(hi, k.rank(), st),
        decreases h,
    {
        if exists|i: int| #[trigger] self.stores(i, k, v) {
            let i = choose|i: int| #[trigger] self.stores(i, k, v);
            assert(above(lo, self.keys@[i].rank(), st));
        } else {
            let j = choose|j: int|
                #![trigger self.children@[j]]
                0 <= j < self.children.len() && self.children@[j].has((h - 1) as nat, k, v);
            let c = self.children@[j];
            c.lemma_has_bounded((h - 1) as nat, self.lo_of(j, lo), self.hi_of(j, hi), st, k, v);
            if j > 0 {
                assert(above(lo, self.keys@[j - 1].rank(), st));
            }
            if j < self.keys.len() {
                assert(below(hi, self.keys@[j].rank(), st));
            }
        }
    }

    /// The two halves of a full node, split around its median key, are well formed on
    /// either side of the median, and hold between them every entry of the node but the
    /// median.
    proof fn lemma_split_halves(
        self,
        h: nat,
        lo: Option<int>,
        hi: Option<int>,
        st: bool,
        left: Self,
        right: Self,
    )
        requires
            self.wf(h, lo, hi, st),
            self.keys.len() == max_keys(),
            left.leaf == self.leaf,
            right.leaf == self.leaf,
            left.keys@ == self.keys@.subrange(0, MAX_DEGREE - 1),
            left.values@ == self.values@.subrange(0, MAX_DEGREE - 1),
            right.keys@ == self.keys@.subrange(MAX_DEGREE as int, max_keys()),
            right.values@ == self.values@.subrange(MAX_DEGREE as int, max_keys()),
            h == 0 ==> left.children@.len() == 0 && right.children@.len() == 0,
            h > 0 ==> left.children@ == self.children@.subrange(0, MAX_DEGREE as int),
            h > 0 ==> right.children@ == self.children@.subrange(
                MAX_DEGREE as int,
                2 * MAX_DEGREE,
            ),
        ensures
            left.wf(h, lo, Some(self.keys@[MAX_DEGREE - 1].rank()), st),
            right.wf(h, Some(self.keys@[MAX_DEGREE - 1].rank()), hi, st),
            forall|k: K, v: V| #[trigger] left.has(h, k, v) ==> self.has(h, k, v),
            forall|k: K, v: V| #[trigger] right.has(h, k, v) ==> self.has(h, k, v),
            forall|k: K, v: V|
                #[trigger] self.has(h, k, v) ==> left.has(h, k, v) || right.has(h, k, v) || (k
                    == self.keys@[MAX_DEGREE - 1] && v == self.values@[MAX_DEGREE - 1]),
    {
        let mid = MAX_DEGREE - 1;
        let d = MAX_DEGREE as int;
        let m = Some(self.keys@[mid].rank());
        assert forall|k: K, v: V| #[trigger] left.has(h, k, v) implies self.has(h, k, v) by {
            if exists|i: int| #[trigger] left.stores(i, k, v) {
                let i = choose|i: int| #[trigger] left.stores(i, k, v);
                assert(self.stores(i, k, v));
            } else {
                let j = choose|j: int|
                    #![trigger left.children@[j]]
                    0 <= j < left.children.len() && left.children@[j].has((h - 1) as nat, k, v);
                assert(self.children@[j] == left.children@[j]);
            }
        }
        assert forall|k: K, v: V| #[trigger] right.has(h, k, v) implies self.has(h, k, v) by {
            if exists|i: int| #[trigger] right.stores(i, k, v) {
                let i = choose|i: int| #[trigger] right.stores(i, k, v);
                assert(self.stores(i + d, k, v));
            } else {
                let j = choose|j: int|
                    #![trigger right.children@[j]]
                    0 <= j < right.children.len() && right.children@[j].has((h - 1) as nat, k, v);
                assert(self.children@[j + d] == right.children@[j]);
            }
        }
        assert forall|k: K, v: V| #[trigger] self.has(h, k, v) implies left.has(h, k, v)
            || right.has(h, k, v) || (k == self.keys@[mid] && v == self.values@[mid]) by {
            if exists|i: int| #[trigger] self.stores(i, k, v) {
                let i = choose|i: int| #[trigger] self.stores(i, k, v);
                if i < mid {
                    assert(left.stores(i, k, v));
                } else if i > mid {
                    assert(right.stores(i - d, k, v));
                }
            } else {
                let j = choose|j: int|
                    #![trigger self.children@[j]]
                    0 <= j < self.children.len() && self.children@[j].has((h - 1) as nat, k, v);
                if j < d {
                    assert(left.children@[j] == self.children@[j]);
                } else {
                    assert(right.children@[j - d] == self.children@[j]);
                }
            }
        }
        assert forall|i: int| 0 <= i < left.keys.len() implies above(lo, #[trigger] left.keys@[i].rank(), st)
            && below(m, left.keys@[i].rank(), st) by {
            assert(left.keys@[i] == self.keys@[i]);
            assert(above(lo, self.keys@[i].rank(), st));
        }
        assert forall|i: int| 0 <= i < right.keys.len() implies above(m, #[trigger] right.keys@[i].rank(), st)
            && below(hi, right.keys@[i].rank(), st) by {
            assert(right.keys@[i] == self.keys@[i + d]);
            assert(below(hi, self.keys@[i + d].rank(), st));
        }
        if h > 0 {
            assert forall|j: int|
                #![trigger left.children@[j]]
                0 <= j < left.children.len() implies left.children@[j].wf(
                    (h - 1) as nat,
                    left.lo_of(j, lo),
                    left.hi_of(j, m),
                    st,
                ) by {
                assert(left.children@[j] == self.children@[j]);
            }
            assert forall|j: int|
                #![trigger right.children@[j]]
                0 <= j < right.children.len() implies right.children@[j].wf(
                    (h - 1) as nat,
                    right.lo_of(j, m),
                    right.hi_of(j, hi),
                    st,
                ) by {
                assert(right.children@[j] == self.children@[j + d]);
            }
        }
    }

    /// Putting `(key, value)` at position `i` of a leaf, between the keys not greater and
    /// the keys greater than `key`, keeps the leaf well formed and adds just that entry.
    proof fn lemma_insert_in_leaf(self, q: Self, i: int, key: K, value: V, lo: Option<int>, hi: Option<int>, st: bool)
        requires
            self.wf(0, lo, hi, st),
            self.keys.len() < max_keys(),
            0 <= i <= self.keys.len(),
            i > 0 ==> precedes(st, self.keys@[i - 1].rank(), key.rank()),
            forall|j: int| i <= j < self.keys.len() ==> key.rank() < #[trigger] self.keys@[j].rank(),
            above(lo, key.rank(), st),
            below(hi, key.rank(), st),
            q.keys@ == self.keys@.insert(i, key),
            q.values@ == self.values@.insert(i, value),
            q.children == self.children,
            q.leaf == self.leaf,
        ensures
            q.wf(0, lo, hi, st),
            forall|k: K, v: V| #[trigger] q.has(0, k, v) == (self.has(0, k, v) || (k == key && v == value)),
    {
        let p = self;
        assert(q.sorted(st)) by {
            assert forall|a: int, b: int|
                0 <= a < b < q.keys.len() implies precedes(st, q.keys@[a].rank(), q.keys@[b].rank()) by {
                if a < i - 1 && b == i {
                    assert(precedes(st, p.keys@[a].rank(), p.keys@[i - 1].rank()));
                } else if a < i && b > i {
                    assert(q.keys@[b] == p.keys@[b - 1]);
                } else if a == i {
                    assert(q.keys@[b] == p.keys@[b - 1]);
                } else if a > i {
                    assert(q.keys@[b] == p.keys@[b - 1]);
                    assert(q.keys@[a] == p.keys@[a - 1]);
                }
            }
        }
        assert forall|a: int| 0 <= a < q.keys.len() implies above(lo, #[trigger] q.keys@[a].rank(), st)
            && below(hi, q.keys@[a].rank(), st) by {
            if a < i {
                assert(q.keys@[a] == p.keys@[a]);
            } else if a > i {
                assert(q.keys@[a] == p.keys@[a - 1]);
            }
        }
        assert forall|k: K, v: V| #[trigger] q.has(0, k, v) == (p.has(0, k, v) || (k == key && v
            == value)) by {
            if q.has(0, k, v) {
                let a = choose|a: int| #[trigger] q.stores(a, k, v);
                if a < i {
                    assert(p.stores(a, k, v));
                } else if a > i {
                    assert(p.stores(a - 1, k, v));
                }
            }
            if p.has(0, k, v) {
                let a = choose|a: int| #[trigger] p.stores(a, k, v);
                if a < i {
                    assert(q.stores(a, k, v));
                } else {
                    assert(q.stores(a + 1, k, v));
                }
            }
            if k == key && v == value {
                assert(q.stores(i, k, v));
            }
        }
    }

    /// Replacing child `i` by one that holds one more entry `(key, value)`, within the same
    /// bounds, keeps the node well formed and adds just that entry.
    proof fn lemma_replace_child(self, q: Self, h: nat, i: int, key: K, value: V, lo: Option<int>, hi: Option<int>, st: bool)
        requires
            h > 0,
            self.wf(h, lo, hi, st),
            0 <= i < self.children.len(),
            q.keys == self.keys,
            q.values == self.values,
            q.leaf == self.leaf,
            q.children@.len() == self.children@.len(),
            forall|j: int| 0 <= j < q.children.len() && j != i ==> q.children@[j] == self.children@[j],
            q.children@[i].wf((h - 1) as nat, self.lo_of(i, lo), self.hi_of(i, hi), st),
            q.children@[i].keys.len() >= self.children@[i].keys.len(),
            forall|k: K, v: V|
                #[trigger] q.children@[i].has((h - 1) as nat, k, v) == (self.children@[i].has(
                    (h - 1) as nat,
                    k,
                    v,
                ) || (k == key && v == value)),
        ensures
            q.wf(h, lo, hi, st),
            forall|k: K, v: V| #[trigger] q.has(h, k, v) == (self.has(h, k, v) || (k == key && v == value)),
    {
        let n1 = self;
        let hc = (h - 1) as nat;
        assert forall|j: int|
            #![trigger q.children@[j]]
            0 <= j < q.children.len() implies q.children@[j].wf(hc, q.lo_of(j, lo), q.hi_of(j, hi), st) by {
            if j != i {
                assert(q.children@[j] == n1.children@[j]);
                assert(n1.children@[j].wf(hc, n1.lo_of(j, lo), n1.hi_of(j, hi), st));
            }
        }
        assert forall|k: K, v: V| #[trigger] q.has(h, k, v) == (n1.has(h, k, v) || (k == key && v
            == value)) by {
            if exists|a: int| #[trigger] q.stores(a, k, v) {
                let a = choose|a: int| #[trigger] q.stores(a, k, v);
                assert(n1.stores(a, k, v));
            }
            if exists|a: int| #[trigger] n1.stores(a, k, v) {
                let a = choose|a: int| #[trigger] n1.stores(a, k, v);
                assert(q.stores(a, k, v));
            }
            if exists|j: int|
                #![trigger q.children@[j]]
                0 <= j < q.children.len() && q.children@[j].has(hc, k, v) {
                let j = choose|j: int|
                    #![trigger q.children@[j]]
                    0 <= j < q.children.len() && q.children@[j].has(hc, k, v);
                if j != i {
                    assert(n1.children@[j] == q.children@[j]);
                } else if !(k == key && v == value) {
                    assert(n1.children@[i].has(hc, k, v));
                }
            }
            if exists|j: int|
                #![trigger n1.children@[j]]
                0 <= j < n1.children.len() && n1.children@[j].has(hc, k, v) {
                let j = choose|j: int|
                    #![trigger n1.children@[j]]
                    0 <= j < n1.children.len() && n1.children@[j].has(hc, k, v);
                if j != i {
                    assert(n1.children@[j] == q.children@[j]);
                } else {
                    assert(q.children@[i].has(hc, k, v));
                }
            }
            if k == key && v == value {
                assert(q.children@[i].has(hc, k, v));
            }
        }
    }

    /// A key that lies between the keys around child `i`, and that the node does not hold
    /// when `st`, lies within that child's bounds, and the child does not hold it either.
    proof fn lemma_child_slot(self, h: nat, i: int, key: K, lo: Option<int>, hi: Option<int>, st: bool)
        requires
            h > 0,
            self.wf(h, lo, hi, st),
            0 <= i <= self.keys.len(),
            i > 0 ==> self.keys@[i - 1].rank() <= key.rank(),
            i < self.keys.len() ==> key.rank() <= self.keys@[i].rank(),
            above(lo, key.rank(), st),
            below(hi, key.rank(), st),
            st ==> forall|v: V| !#[trigger] self.has(h, key, v),
        ensures
            above(self.lo_of(i, lo), key.rank(), st),
            below(self.hi_of(i, hi), key.rank(), st),
            st ==> forall|v: V| !#[trigger] self.children@[i].has((h - 1) as nat, key, v),
    {
        if st && i > 0 && self.keys@[i - 1].rank() == key.rank() {
            K::lemma_rank_injective(&self.keys@[i - 1], &key);
            assert(self.stores(i - 1, key, self.values@[i - 1]));
            assert(self.has(h, key, self.values@[i - 1]));
        }
        if st && i < self.keys.len() && self.keys@[i].rank() == key.rank() {
            K::lemma_rank_injective(&self.keys@[i], &key);
            assert(self.stores(i, key, self.values@[i]));
            assert(self.has(h, key, self.values@[i]));
        }
        if st {
            assert forall|v: V| !#[trigger] self.children@[i].has((h - 1) as nat, key, v) by {
                if self.children@[i].has((h - 1) as nat, key, v) {
                    assert(self.has(h, key, v));
                }
            }
        }
    }

    /// Splitting the full child `i` into `left` and `right` around its median, which moves up
    /// into the node at `i`, keeps the node well formed and its entries the same.
    proof fn lemma_split_into(
        self,
        q: Self,
        h: nat,
        i: int,
        lo: Option<int>,
        hi: Option<int>,
        st: bool,
        child: Self,
        sibling: Self,
    )
        requires
            h > 0,
            self.wf(h, lo, hi, st),
            self.keys.len() < max_keys(),
            0 <= i < self.children.len(),
            self.children@[i].keys.len() == max_keys(),
            child.leaf == self.children@[i].leaf,
            sibling.leaf == self.children@[i].leaf,
            child.keys@ == self.children@[i].keys@.subrange(0, MAX_DEGREE - 1),
            child.values@ == self.children@[i].values@.subrange(0, MAX_DEGREE - 1),
            sibling.keys@ == self.children@[i].keys@.subrange(MAX_DEGREE as int, max_keys()),
            sibling.values@ == self.children@[i].values@.subrange(MAX_DEGREE as int, max_keys()),
            h == 1 ==> child.children@.len() == 0 && sibling.children@.len() == 0,
            h > 1 ==> child.children@ == self.children@[i].children@.subrange(0, MAX_DEGREE as int),
            h > 1 ==> sibling.children@ == self.children@[i].children@.subrange(
                MAX_DEGREE as int,
                2 * MAX_DEGREE,
            ),
            q.leaf == self.leaf,
            q.keys@ == self.keys@.insert(i, self.children@[i].keys@[MAX_DEGREE - 1]),
            q.values@ == self.values@.insert(i, self.children@[i].values@[MAX_DEGREE - 1]),
            q.children@ == self.children@.remove(i).insert(i, child).insert(i + 1, sibling),
        ensures
            q.wf(h, lo, hi, st),
            forall|k: K, v: V| #[trigger] q.has(h, k, v) == self.has(h, k, v),
    {
        let p = self;
        let c = p.children@[i];
        let hc = (h - 1) as nat;
        assert(q.children@[i] == child);
        assert(q.children@[i + 1] == sibling);
        let m = c.keys@[MAX_DEGREE - 1];
        let mv = c.values@[MAX_DEGREE - 1];
        assert(c.wf(hc, p.lo_of(i, lo), p.hi_of(i, hi), st));
        c.lemma_split_halves(hc, p.lo_of(i, lo), p.hi_of(i, hi), st, child, sibling);
        // the median lies between the keys around it in the parent
        assert(above(p.lo_of(i, lo), m.rank(), st) && below(p.hi_of(i, hi), m.rank(), st));
        assert(q.sorted(st)) by {
            assert forall|a: int, b: int|
                0 <= a < b < q.keys.len() implies precedes(st, q.keys@[a].rank(), q.keys@[b].rank()) by {
                if a < i - 1 && b == i {
                    assert(precedes(st, p.keys@[a].rank(), p.keys@[i - 1].rank()));
                } else if a == i && b > i + 1 {
                    assert(precedes(st, p.keys@[i].rank(), p.keys@[b - 1].rank()));
                }
            }
        }
        assert forall|a: int| 0 <= a < q.keys.len() implies above(lo, #[trigger] q.keys@[a].rank(), st)
            && below(hi, q.keys@[a].rank(), st) by {
            if a == i {
                if i > 0 {
                    assert(above(lo, p.keys@[i - 1].rank(), st));
                }
                if i < p.keys.len() {
                    assert(below(hi, p.keys@[i].rank(), st));
                }
            } else if a < i {
                assert(q.keys@[a] == p.keys@[a]);
            } else {
                assert(q.keys@[a] == p.keys@[a - 1]);
            }
        }
        assert forall|j: int|
            #![trigger q.children@[j]]
            0 <= j < q.children.len() implies q.children@[j].wf(
                hc,
                q.lo_of(j, lo),
                q.hi_of(j, hi),
                st,
            ) by {
            if j < i {
                assert(q.children@[j] == p.children@[j]);
                assert(p.children@[j].wf(hc, p.lo_of(j, lo), p.hi_of(j, hi), st));
            } else if j > i + 1 {
                assert(q.children@[j] == p.children@[j - 1]);
                assert(p.children@[j - 1].wf(hc, p.lo_of(j - 1, lo), p.hi_of(j - 1, hi), st));
            }
        }
        assert forall|k: K, v: V| #[trigger] q.has(h, k, v) implies p.has(h, k, v) by {
            if exists|a: int| #[trigger] q.stores(a, k, v) {
                let a = choose|a: int| #[trigger] q.stores(a, k, v);
                if a < i {
                    assert(p.stores(a, k, v));
                } else if a > i {
                    assert(p.stores(a - 1, k, v));
                } else {
                    assert(c.stores(MAX_DEGREE - 1, k, v));
                    assert(p.children@[i].has(hc, k, v));
                }
            } else {
                let j = choose|j: int|
                    #![trigger q.children@[j]]
                    0 <= j < q.children.len() && q.children@[j].has(hc, k, v);
                if j < i {
                    assert(p.children@[j] == q.children@[j]);
                } else if j > i + 1 {
                    assert(p.children@[j - 1] == q.children@[j]);
                } else {
                    assert(p.children@[i].has(hc, k, v));
                }
            }
        }
        assert forall|k: K, v: V| #[trigger] p.has(h, k, v) implies q.has(h, k, v) by {
            if exists|a: int| #[trigger] p.stores(a, k, v) {
                let a = choose|a: int| #[trigger] p.stores(a, k, v);
                if a < i {
                    assert(q.stores(a, k, v));
                } else {
                    assert(q.stores(a + 1, k, v));
                }
            } else {
                let j = choose|j: int|
                    #![trigger p.children@[j]]
                    0 <= j < p.children.len() && p.children@[j].has(hc, k, v);
                if j < i {
                    assert(p.children@[j] == q.children@[j]);
                } else if j > i {
                    assert(p.children@[j] == q.children@[j + 1]);
                } else {
                    if child.has(hc, k, v) {
                        assert(q.children@[i] == child);
                    } else if sibling.has(hc, k, v) {
                        assert(q.children@[i + 1] == sibling);
                    } else {
                        assert(q.stores(i, k, v));
                    }
                }
            }
        }
    }

    /// Putting `(key, value)` into a leaf at its place changes only the answer for a key
    /// the leaf did not hold, which becomes `value`.
    proof fn lemma_leaf_find(self, q: Self, i: int, key: K, value: V, lo: Option<int>, hi: Option<int>, st: bool, k: K)
        requires
            self.wf(0, lo, hi, st),
            fits_at(self.keys@, i, key),
            q.keys@ == self.keys@.insert(i, key),
            q.values@ == self.values@.insert(i, value),
        ensures
            q.find(0, k) == after_insert(self.find(0, k), k, key, value),
    {
        let p = self;
        lemma_scan_props(p.keys@, k, 0);
        lemma_scan_props(q.keys@, k, 0);
        let ps = scan(p.keys@, k, 0);
        let qs = scan(q.keys@, k, 0);
        if key.rank() < k.rank() {
            if ps < i {
                assert(p.keys@[ps].rank() <= p.keys@[i - 1].rank());
            }
            assert(ps >= i);
            assert forall|j: int| 0 <= j < ps + 1 implies #[trigger] q.keys@[j].rank() < k.rank() by {
                if j < i {
                    assert(q.keys@[j] == p.keys@[j]);
                } else if j > i {
                    assert(q.keys@[j] == p.keys@[j - 1]);
                }
            }
            if ps < p.keys.len() {
                assert(q.keys@[ps + 1] == p.keys@[ps]);
            }
            lemma_scan_at(q.keys@, k, ps + 1, 0);
        } else if key.rank() > k.rank() {
            if ps > i {
                assert(p.keys@[i].rank() < k.rank());
            }
            assert forall|j: int| 0 <= j < ps implies #[trigger] q.keys@[j].rank() < k.rank() by {
                assert(q.keys@[j] == p.keys@[j]);
            }
            lemma_scan_at(q.keys@, k, ps, 0);
        } else {
            if ps < p.keys.len() && p.keys@[ps].rank() == k.rank() {
                assert(ps < i);
                assert forall|j: int| 0 <= j < ps implies #[trigger] q.keys@[j].rank() < k.rank() by {
                    assert(q.keys@[j] == p.keys@[j]);
                }
                assert(q.keys@[ps] == p.keys@[ps]);
                lemma_scan_at(q.keys@, k, ps, 0);
            } else {
                if i > 0 {
                    assert(p.keys@[i - 1].rank() < k.rank());
                }
                assert(ps == i);
                assert forall|j: int| 0 <= j < i implies #[trigger] q.keys@[j].rank() < k.rank() by {
                    assert(q.keys@[j] == p.keys@[j]);
                }
                lemma_scan_at(q.keys@, k, i, 0);
            }
        }
    }

    /// Replacing child `i`, the one a lookup of `key` reaches, by one whose answers follow
    /// the insert of `(key, value)`, makes the node's answers follow it too.
    proof fn lemma_replace_find(self, q: Self, h: nat, i: int, key: K, value: V, lo: Option<int>, hi: Option<int>, st: bool, k: K)
        requires
            h > 0,
            self.wf(h, lo, hi, st),
            0 <= i < self.children.len(),
            i > 0 ==> self.keys@[i - 1].rank() <= key.rank(),
            i < self.keys.len() ==> key.rank() < self.keys@[i].rank(),
            q.keys == self.keys,
            q.values == self.values,
            q.children@.len() == self.children@.len(),
            forall|j: int| 0 <= j < q.children.len() && j != i ==> q.children@[j] == self.children@[j],
            forall|k2: K|
                #[trigger] q.children@[i].find((h - 1) as nat, k2) == after_insert(
                    self.children@[i].find((h - 1) as nat, k2),
                    k2,
                    key,
                    value,
                ),
        ensures
            q.find(h, k) == after_insert(self.find(h, k), k, key, value),
    {
        let n1 = self;
        lemma_scan_props(n1.keys@, k, 0);
        let s = scan(n1.keys@, k, 0);
        assert(q.keys@ == n1.keys@);
        assert(q.children@[i].find((h - 1) as nat, k) == after_insert(n1.children@[i].find((h - 1) as nat, k), k, key, value));
        if s != i {
            assert(q.children@[s] == n1.children@[s]);
            if k.rank() == key.rank() {
                if s < i {
                    assert(n1.keys@[s].rank() <= n1.keys@[i - 1].rank());
                }
            }
        }
    }

    /// Replacing child `i` by one with one more entry adds one entry to the node.
    proof fn lemma_replace_size(self, q: Self, h: nat, i: int)
        requires
            h > 0,
            0 <= i < self.children.len(),
            q.keys@.len() == self.keys@.len(),
            q.children@ == self.children@.update(i, q.children@[i]),
            q.children@[i].size((h - 1) as nat) == self.children@[i].size((h - 1) as nat) + 1,
        ensures
            q.size(h) == self.size(h) + 1,
    {
        let hc = (h - 1) as nat;
        let a = self.children@.subrange(0, i);
        let b = self.children@.subrange(i + 1, self.children.len() as int);
        assert(self.children@ =~= a + seq![self.children@[i]] + b);
        assert(q.children@ =~= a + seq![q.children@[i]] + b);
        lemma_sum_size_append(a + seq![self.children@[i]], b, hc);
        lemma_sum_size_append(a, seq![self.children@[i]], hc);
        lemma_sum_size_append(a + seq![q.children@[i]], b, hc);
        lemma_sum_size_append(a, seq![q.children@[i]], hc);
        lemma_sum_size_one(self.children@[i], hc);
        lemma_sum_size_one(q.children@[i], hc);
    }

    /// Splitting child `i` keeps the number of entries.
    proof fn lemma_split_size(
        self,
        q: Self,
        h: nat,
        i: int,
        child: Self,
        sibling: Self,
    )
        requires
            h > 0,
            self.children.len() == self.keys.len() + 1,
            0 <= i < self.children.len(),
            self.children@[i].keys.len() == max_keys(),
            h > 1 ==> self.children@[i].children.len() == 2 * MAX_DEGREE,
            child.keys@ == self.children@[i].keys@.subrange(0, MAX_DEGREE - 1),
            sibling.keys@ == self.children@[i].keys@.subrange(MAX_DEGREE as int, max_keys()),
            h > 1 ==> child.children@ == self.children@[i].children@.subrange(0, MAX_DEGREE as int),
            h > 1 ==> sibling.children@ == self.children@[i].children@.subrange(
                MAX_DEGREE as int,
                2 * MAX_DEGREE,
            ),
            q.keys@.len() == self.keys@.len() + 1,
            q.children@ == self.children@.remove(i).insert(i, child).insert(i + 1, sibling),
        ensures
            q.size(h) == self.size(h),
    {
        let hc = (h - 1) as nat;
        let c = self.children@[i];
        let a = self.children@.subrange(0, i);
        let b = self.children@.subrange(i + 1, self.children.len() as int);
        assert(self.children@ =~= a + seq![c] + b);
        assert(q.children@ =~= a + seq![child] + seq![sibling] + b);
        lemma_sum_size_append(a + seq![c], b, hc);
        lemma_sum_size_append(a, seq![c], hc);
        lemma_sum_size_append(a + seq![child] + seq![sibling], b, hc);
        lemma_sum_size_append(a + seq![child], seq![sibling], hc);
        lemma_sum_size_append(a, seq![child], hc);
        lemma_sum_size_one(c, hc);
        lemma_sum_size_one(child, hc);
        lemma_sum_size_one(sibling, hc);
        if hc > 0 {
            let cc = c.children@;
            assert(cc =~= child.children@ + sibling.children@);
            lemma_sum_size_append(child.children@, sibling.children@, (hc - 1) as nat);
        }
    }

    /// Splitting child `i` changes no lookup answer.
    #[verifier::rlimit(50)]
    #[verifier::spinoff_prover]
    proof fn lemma_split_find(
        self,
        q: Self,
        h: nat,
        i: int,
        lo: Option<int>,
        hi: Option<int>,
        st: bool,
        child: Self,
        sibling: Self,
        k: K,
    )
        requires
            h > 0,
            self.wf(h, lo, hi, st),
            q.wf(h, lo, hi, st),
            self.keys.len() < max_keys(),
            0 <= i < self.children.len(),
            self.children@[i].keys.len() == max_keys(),
            child.keys@ == self.children@[i].keys@.subrange(0, MAX_DEGREE - 1),
            child.values@ == self.children@[i].values@.subrange(0, MAX_DEGREE - 1),
            sibling.keys@ == self.children@[i].keys@.subrange(MAX_DEGREE as int, max_keys()),
            sibling.values@ == self.children@[i].values@.subrange(MAX_DEGREE as int, max_keys()),
            h > 1 ==> child.children@ == self.children@[i].children@.subrange(0, MAX_DEGREE as int),
            h > 1 ==> sibling.children@ == self.children@[i].children@.subrange(
                MAX_DEGREE as int,
                2 * MAX_DEGREE,
            ),
            q.keys@ == self.keys@.insert(i, self.children@[i].keys@[MAX_DEGREE - 1]),
            q.values@ == self.values@.insert(i, self.children@[i].values@[MAX_DEGREE - 1]),
            q.children@ == self.children@.remove(i).insert(i, child).insert(i + 1, sibling),
        ensures
            q.find(h, k) == self.find(h, k),
    {
        reveal_with_fuel(Node::find, 2);
        let p = self;
        let c = p.children@[i];
        let hc = (h - 1) as nat;
        assert(c.wf(hc, p.lo_of(i, lo), p.hi_of(i, hi), st));
        assert(q.children@[i] == child);
        assert(q.children@[i + 1] == sibling);
        lemma_scan_props(p.keys@, k, 0);
        lemma_scan_props(q.keys@, k, 0);
        lemma_scan_props(c.keys@, k, 0);
        lemma_scan_props(child.keys@, k, 0);
        lemma_scan_props(sibling.keys@, k, 0);
        let m = c.keys@[1];
        assert(c.keys@[0].rank() <= m.rank() && m.rank() <= c.keys@[2].rank());
        if i > 0 {
            assert(p.keys@[i - 1].rank() <= c.keys@[0].rank());
        }
        if i < p.keys.len() {
            assert(c.keys@[2].rank() <= p.keys@[i].rank());
        }
        let ps = scan(p.keys@, k, 0);
        let qs = scan(q.keys@, k, 0);
        if ps < i {
            assert(qs == ps);
            assert(q.children@[ps] == p.children@[ps]);
        } else if ps > i {
            assert(qs == ps + 1);
            assert(q.children@[ps + 1] == p.children@[ps]);
        } else {
            let cs = scan(c.keys@, k, 0);
            if m.rank() < k.rank() {
                assert(qs == i + 1);
                assert(cs >= 2);
                assert(scan(sibling.keys@, k, 0) == cs - 2);
                if h > 1 {
                    assert(sibling.children@[cs - 2] == c.children@[cs]);
                }
            } else {
                assert(qs == i);
                assert(cs <= 1);
                assert(scan(child.keys@, k, 0) == cs);
                if h > 1 {
                    assert(child.children@[cs] == c.children@[cs]);
                }
            }
        }
    }

    /// A subtree ordered strictly is ordered.
    proof fn lemma_strict_is_loose(self, h: nat, lo: Option<int>, hi: Option<int>)
        requires
            self.wf(h, lo, hi, true),
        ensures
            self.wf(h, lo, hi, false),
        decreases h,
    {
        assert forall|a: int, b: int|
            #![trigger self.keys@[a], self.keys@[b]]
            0 <= a < b < self.keys.len() implies self.keys@[a].rank() <= self.keys@[b].rank() by {
            assert(precedes(true, self.keys@[a].rank(), self.keys@[b].rank()));
        }
        assert forall|i: int| 0 <= i < self.keys.len() implies above(lo, #[trigger] self.keys@[i].rank(), false)
            && below(hi, self.keys@[i].rank(), false) by {
            assert(above(lo, self.keys@[i].rank(), true) && below(hi, self.keys@[i].rank(), true));
        }
        if h > 0 {
            assert forall|j: int|
                #![trigger self.children@[j]]
                0 <= j < self.children.len() implies self.children@[j].wf(
                    (h - 1) as nat,
                    self.lo_of(j, lo),
                    self.hi_of(j, hi),
                    false,
                ) by {
                self.children@[j].lemma_strict_is_loose((h - 1) as nat, self.lo_of(j, lo), self.hi_of(j, hi));
            }
        }
    }

    fn new(leaf: bool) -> (r: Self)
        ensures
            r.leaf == leaf,
            r.keys@.len() == 0,
            r.values@.len() == 0,
            r.children@.len() == 0,
    {
        Node { leaf, keys: Vec::new(), values: Vec::new(), children: Vec::new() }
    }
}

/// An insertion-only B-tree of fixed degree `MAX_DEGREE`, mapping keys to values. A key
/// inserted twice is stored twice.
pub struct BTree<K, V> {
    root: Option<Node<K, V>>,
    height: Ghost<nat>,
}

impl<K: OrderedKey, V> BTree<K, V> {
    /// Inserts `(key, value)` into the subtree rooted at `node`, which has room for one more
    /// key. The entry goes to the right of every key not greater than `key`; a full child on
    /// the way down is split before the descent enters it.
    #[verifier::rlimit(100)]
    #[verifier::spinoff_prover]
    fn insert_non_full(
        node: &mut Node<K, V>,
        key: K,
        value: V,
        Ghost(h): Ghost<nat>,
        Ghost(lo): Ghost<Option<int>>,
        Ghost(hi): Ghost<Option<int>>,
        Ghost(st): Ghost<bool>,
    )
        requires
            old(node).wf(h, lo, hi, st),
            old(node).keys.len() < max_keys(),
            st ==> forall|v: V| !#[trigger] old(node).has(h, key, v),
            above(lo, key.rank(), st),
            below(hi, key.rank(), st),
        ensures
            final(node).wf(h, lo, hi, st),
            forall|k: K, v: V|
                #[trigger] final(node).has(h, k, v) == (old(node).has(h, k, v) || (k == key && v
                    == value)),
            final(node).keys.len() >= old(node).keys.len(),
            final(node).keys.len() <= old(node).keys.len() + 1,
            final(node).leaf == old(node).leaf,
            forall|k: K| #[trigger] final(node).find(h, k) == after_insert(old(node).find(h, k), k, key, value),
            final(node).size(h) == old(node).size(h) + 1,
            old(node).leaf ==> exists|i: int|
                fits_at(old(node).keys@, i, key) && final(node).keys@ == old(node).keys@.insert(i, key)
                    && final(node).values@ == old(node).values@.insert(i, value),
            !old(node).leaf && (forall|j: int|
                0 <= j < old(node).children.len() ==> #[trigger] old(node).children@[j].keys.len()
                    < max_keys()) ==> final(node).keys@ == old(node).keys@ && final(node).values@
                    == old(node).values@,
            !old(node).leaf ==> exists|i: int|
                {
                    let c = #[trigger] old(node).children@[i];
                    &&& fits_at(old(node).keys@, i, key)
                    &&& c.keys.len() < max_keys() ==> final(node).keys@ == old(node).keys@
                        && final(node).values@ == old(node).values@
                    &&& c.keys.len() == max_keys() ==> final(node).keys@ == old(node).keys@.insert(
                        i,
                        c.keys@[MAX_DEGREE - 1],
                    ) && final(node).values@ == old(node).values@.insert(i, c.values@[MAX_DEGREE - 1])
                },
        decreases h,
    {
        let mut i: usize = node.keys.len();
        while i > 0 && key.key_lt(&node.keys[i - 1])
            invariant
                *node == *old(node),
                0 <= i <= node.keys.len(),
                forall|j: int| i <= j < node.keys.len() ==> key.rank() < #[trigger] node.keys@[j].rank(),
            decreases i,
        {
            i -= 1;
        }
        proof {
            if st && i > 0 && node.keys@[i - 1].rank() == key.rank() {
                K::lemma_rank_injective(&node.keys@[i - 1], &key);
                assert(node.stores(i - 1, key, node.values@[i - 1]));
                assert(node.has(h, key, node.values@[i - 1]));
            }
        }
        if node.leaf {
            let ghost p = *node;
            node.keys.insert(i, key);
            node.values.insert(i, value);
            proof {
                p.lemma_insert_in_leaf(*node, i as int, key, value, lo, hi, st);
                assert(fits_at(p.keys@, i as int, key));
                assert forall|k: K| #[trigger] node.find(h, k) == after_insert(p.find(h, k), k, key, value) by {
                    p.lemma_leaf_find(*node, i as int, key, value, lo, hi, st, k);
                }
            }
        } else {
            let ghost p = *node;
            let ghost i0 = i as int;
            proof {
                assert(fits_at(p.keys@, i0, key));
                assert(p.children@[i as int].wf((h - 1) as nat, p.lo_of(i as int, lo), p.hi_of(i as int, hi), st));
            }
            if node.children[i].keys.len() == 2 * MAX_DEGREE - 1 {
                proof {
                    assert(p.children@[i as int].keys.len() == max_keys());
                }
                Self::split_child(node, i, Ghost(h), Ghost(lo), Ghost(hi), Ghost(st));
                if !key.key_lt(&node.keys[i]) {
                    i = i + 1;
                }
            }
            let ghost n1 = *node;
            let ghost clo = n1.lo_of(i as int, lo);
            let ghost chi = n1.hi_of(i as int, hi);
            proof {
                assert(n1.children@[i as int].wf((h - 1) as nat, clo, chi, st));
                assert(forall|v: V| #[trigger] n1.has(h, key, v) == p.has(h, key, v));
                if i > 0 {
                    assert(n1.keys@[i - 1].rank() <= key.rank());
                }
                if i < n1.keys.len() {
                    assert(key.rank() < n1.keys@[i as int].rank());
                }
                n1.lemma_child_slot(h, i as int, key, lo, hi, st);
            }
            let mut child = node.children.remove(i);
            Self::insert_non_full(&mut child, key, value, Ghost((h - 1) as nat), Ghost(clo), Ghost(chi), Ghost(st));
            node.children.insert(i, child);
            proof {
                n1.lemma_replace_child(*node, h, i as int, key, value, lo, hi, st);
                assert(node.keys@ == n1.keys@ && node.values@ == n1.values@);
                assert(forall|k: K| #[trigger] n1.find(h, k) == p.find(h, k));
                assert(node.children@ =~= n1.children@.update(i as int, node.children@[i as int]));
                n1.lemma_replace_size(*node, h, i as int);
                assert forall|k: K| #[trigger] node.find(h, k) == after_insert(n1.find(h, k), k, key, value) by {
                    n1.lemma_replace_find(*node, h, i as int, key, value, lo, hi, st, k);
                }
                assert(fits_at(p.keys@, i0, key) && p.children@[i0] == p.children@[i0]);
            }
        }
    }

    /// Looks `key` up in the subtree rooted at `node`: the first key of a node, from the
    /// left, that is not less than `key` either matches, or names the child to descend into.
    fn search_node<'a>(
        node: &'a Node<K, V>,
        key: K,
        Ghost(h): Ghost<nat>,
        Ghost(lo): Ghost<Option<int>>,
        Ghost(hi): Ghost<Option<int>>,
        Ghost(st): Ghost<bool>,
    ) -> (r: Option<&'a V>)
        requires
            node.wf(h, lo, hi, st),
        ensures
            match r {
                Some(v) => node.has(h, key, *v),
                None => forall|v: V| !#[trigger] node.has(h, key, v),
            },
            opt_value(r) == node.find(h, key),
        decreases h,
    {
        let mut i: usize = 0;
        while i < node.keys.len() && node.keys[i].key_lt(&key)
            invariant
                0 <= i <= node.keys.len(),
                forall|j: int| 0 <= j < i ==> #[trigger] node.keys@[j].rank() < key.rank(),
                scan(node.keys@, key, i as int) == scan(node.keys@, key, 0),
            decreases node.keys.len() - i,
        {
            i += 1;
        }
        proof {
            assert(scan(node.keys@, key, i as int) == i);
        }
        if i < node.keys.len() && key.key_eq(&node.keys[i]) {
            proof {
                K::lemma_rank_injective(&key, &node.keys@[i as int]);
                assert(node.stores(i as int, key, node.values@[i as int]));
            }
            if node.leaf {
                Some(&node.values[i])
            } else {
                // entries equal to `key` in the child to the left were stored earlier
                proof {
                    assert(node.children@[i as int].wf((h - 1) as nat, node.lo_of(i as int, lo), node.hi_of(i as int, hi), st));
                }
                let r = Self::search_node(
                    &node.children[i],
                    key,
                    Ghost((h - 1) as nat),
                    Ghost(node.lo_of(i as int, lo)),
                    Ghost(node.hi_of(i as int, hi)),
                    Ghost(st),
                );
                if r.is_some() {
                    proof {
                        assert(node.children@[i as int].has((h - 1) as nat, key, *r->Some_0));
                    }
                    r
                } else {
                    Some(&node.values[i])
                }
            }
        } else {
            proof {
                assert forall|a: int| !#[trigger] node.stores(a, key, node.values@[a]) by {
                    if 0 <= a < node.keys.len() && a >= i {
                        assert(node.keys@[i as int].rank() <= node.keys@[a].rank());
                    }
                }
            }
            if node.leaf {
                proof {
                    assert forall|v: V| !#[trigger] node.has(h, key, v) by {
                        if exists|a: int| #[trigger] node.stores(a, key, v) {
                            let a = choose|a: int| #[trigger] node.stores(a, key, v);
                            assert(node.stores(a, key, node.values@[a]));
                        }
                    }
                }
                None
            } else {
                proof {
                    assert(node.children@[i as int].wf((h - 1) as nat, node.lo_of(i as int, lo), node.hi_of(i as int, hi), st));
                }
                let r = Self::search_node(
                    &node.children[i],
                    key,
                    Ghost((h - 1) as nat),
                    Ghost(node.lo_of(i as int, lo)),
                    Ghost(node.hi_of(i as int, hi)),
                    Ghost(st),
                );
                proof {
                    let hc = (h - 1) as nat;
                    if r is None {
                        assert forall|v: V| !#[trigger] node.has(h, key, v) by {
                            if exists|a: int| #[trigger] node.stores(a, key, v) {
                                let a = choose|a: int| #[trigger] node.stores(a, key, v);
                                assert(node.stores(a, key, node.values@[a]));
                            }
                            if exists|j: int|
                                #![trigger node.children@[j]]
                                0 <= j < node.children.len() && node.children@[j].has(hc, key, v) {
                                let j = choose|j: int|
                                    #![trigger node.children@[j]]
                                    0 <= j < node.children.len() && node.children@[j].has(hc, key, v);
                                assert(node.children@[j].wf(hc, node.lo_of(j, lo), node.hi_of(j, hi), st));
                                node.children@[j].lemma_has_bounded(hc, node.lo_of(j, lo), node.hi_of(j, hi), st, key, v);
                                if j > i {
                                    assert(node.keys@[i as int].rank() <= node.keys@[j - 1].rank());
                                }
                            }
                        }
                    } else {
                        assert(node.children@[i as int].has(hc, key, *r->Some_0));
                    }
                }
                r
            }
        }
    }


    /// Splits the full child at `index` of `parent` in two halves of `d - 1` keys each, and
    /// moves its median key and value up into `parent` at `index`, with the upper half as a
    /// new child right after the lower one. An internal child hands its last `d` children
    /// to the upper half.
    fn split_child(
        parent: &mut Node<K, V>,
        index: usize,
        Ghost(h): Ghost<nat>,
        Ghost(lo): Ghost<Option<int>>,
        Ghost(hi): Ghost<Option<int>>,
        Ghost(st): Ghost<bool>,
    )
        requires
            h > 0,
            old(parent).wf(h, lo, hi, st),
            old(parent).keys.len() < max_keys(),
            index < old(parent).children.len(),
            old(parent).children@[index as int].keys.len() == max_keys(),
        ensures
            final(parent).wf(h, lo, hi, st),
            final(parent).leaf == old(parent).leaf,
            forall|k: K| #[trigger] final(parent).find(h, k) == old(parent).find(h, k),
            final(parent).size(h) == old(parent).size(h),
            forall|k: K, v: V| #[trigger] final(parent).has(h, k, v) == old(parent).has(h, k, v),
            ({
                let c = old(parent).children@[index as int];
                let l = final(parent).children@[index as int];
                let r = final(parent).children@[index + 1];
                &&& final(parent).keys@ == old(parent).keys@.insert(
                    index as int,
                    c.keys@[MAX_DEGREE - 1],
                )
                &&& final(parent).values@ == old(parent).values@.insert(
                    index as int,
                    c.values@[MAX_DEGREE - 1],
                )
                &&& final(parent).children.len() == old(parent).children.len() + 1
                &&& l.keys@ == c.keys@.subrange(0, MAX_DEGREE - 1)
                &&& l.values@ == c.values@.subrange(0, MAX_DEGREE - 1)
                &&& r.keys@ == c.keys@.subrange(MAX_DEGREE as int, max_keys())
                &&& r.values@ == c.values@.subrange(MAX_DEGREE as int, max_keys())
                &&& !c.leaf ==> l.children@ == c.children@.subrange(0, MAX_DEGREE as int)
                &&& !c.leaf ==> r.children@ == c.children@.subrange(
                    MAX_DEGREE as int,
                    2 * MAX_DEGREE,
                )
                &&& forall|j: int|
                    0 <= j < index ==> #[trigger] final(parent).children@[j]
                        == old(parent).children@[j]
                &&& forall|j: int|
                    index + 1 < j < final(parent).children.len() ==> #[trigger] final(parent).children@[j]
                        == old(parent).children@[j - 1]
            }),
    {
        let ghost p = *parent;
        let ghost c = p.children@[index as int];
        proof {
            assert(c.wf((h - 1) as nat, p.lo_of(index as int, lo), p.hi_of(index as int, hi), st));
        }
        let mut child = parent.children.remove(index);
        let mut sibling = Node::new(child.leaf);
        let mid_key = child.keys.remove(MAX_DEGREE - 1);
        let mid_value = child.values.remove(MAX_DEGREE - 1);
        sibling.keys = child.keys.split_off(MAX_DEGREE - 1);
        sibling.values = child.values.split_off(MAX_DEGREE - 1);
        if !child.leaf {
            sibling.children = child.children.split_off(MAX_DEGREE);
        }
        parent.keys.insert(index, mid_key);
        parent.values.insert(index, mid_value);
        parent.children.insert(index, child);
        parent.children.insert(index + 1, sibling);
        proof {
            let i = index as int;
            assert(child.keys@ =~= c.keys@.subrange(0, MAX_DEGREE - 1));
            assert(child.values@ =~= c.values@.subrange(0, MAX_DEGREE - 1));
            assert(sibling.keys@ =~= c.keys@.subrange(MAX_DEGREE as int, max_keys()));
            assert(sibling.values@ =~= c.values@.subrange(MAX_DEGREE as int, max_keys()));
            assert(parent.children@[i] == child);
            assert(parent.children@[i + 1] == sibling);
            p.lemma_split_into(*parent, h, i, lo, hi, st, child, sibling);
            p.lemma_split_size(*parent, h, i, child, sibling);
            assert forall|k: K| #[trigger] parent.find(h, k) == p.find(h, k) by {
                p.lemma_split_find(*parent, h, i, lo, hi, st, child, sibling, k);
            }
        }
    }
}

impl<K: OrderedKey, V> View for BTree<K, V> {
    type V = Set<(K, V)>;

    /// The entries that the tree holds, each as a key and its value.
    closed spec fn view(&self) -> Set<(K, V)> {
        match self.root {
            Some(r) => Set::new(|e: (K, V)| r.has(self.height@, e.0, e.1)),
            None => Set::empty(),
        }
    }
}

impl<K: OrderedKey, V> BTree<K, V> {
    /// The tree's invariant: every node well formed (keys in order, at most `2d - 1` of them,
    /// all leaves at one depth, each subtree between the keys around it), and a present root
    /// holds at least one key.
    pub closed spec fn wf(&self) -> bool {
        match self.root {
            Some(r) => r.wf(self.height@, None, None, false) && r.keys.len() >= 1,
            None => true,
        }
    }

    /// Every node's keys are strictly ascending, and each subtree's keys lie strictly
    /// between the keys around it: so no key is stored twice.
    pub closed spec fn strictly_ordered(&self) -> bool {
        match self.root {
            Some(r) => r.wf(self.height@, None, None, true),
            None => true,
        }
    }

    /// The value a lookup of `k` answers: `None` for a key never inserted, else the value
    /// of the first insert of `k`.
    pub closed spec fn answer(&self, k: K) -> Option<V> {
        match self.root {
            Some(r) => r.find(self.height@, k),
            None => None,
        }
    }

    /// The number of entries stored, each repeated insert of a pair counted: a duplicate is
    /// kept as an entry of its own.
    pub closed spec fn num_entries(&self) -> nat {
        match self.root {
            Some(r) => r.size(self.height@),
            None => 0,
        }
    }

    /// The number of levels: 0 for an empty tree, 1 for a lone leaf root.
    pub closed spec fn height(&self) -> nat {
        match self.root {
            Some(r) => self.height@ + 1,
            None => 0,
        }
    }

    /// The keys of the root node, in order; empty for an empty tree.
    pub closed spec fn root_keys(&self) -> Seq<K> {
        match self.root {
            Some(r) => r.keys@,
            None => Seq::empty(),
        }
    }

    /// The values of the root node, parallel to its keys.
    pub closed spec fn root_values(&self) -> Seq<V> {
        match self.root {
            Some(r) => r.values@,
            None => Seq::empty(),
        }
    }

    /// An empty tree.
    pub fn new() -> (r: Self)
        ensures
            r.wf(),
            r.strictly_ordered(),
            r@ == Set::<(K, V)>::empty(),
            r.height() == 0,
            r.num_entries() == 0,
            forall|k: K| #[trigger] r.answer(k) is None,
    {
        let r = BTree { root: None, height: Ghost(0) };
        proof {
            assert(r@ =~= Set::<(K, V)>::empty());
        }
        r
    }

    /// Inserts the entry `(key, value)`. An entry with an equal key already in the tree is
    /// kept, and the new one is added beside it.
    pub fn insert(&mut self, key: K, value: V)
        requires
            old(self).wf(),
        ensures
            final(self).wf(),
            final(self)@ == old(self)@.insert((key, value)),
            old(self).strictly_ordered() && (forall|v: V| !old(self)@.contains((key, v)))
                ==> final(self).strictly_ordered(),
            forall|k: K| #[trigger] final(self).answer(k) == after_insert(old(self).answer(k), k, key, value),
            final(self).num_entries() == old(self).num_entries() + 1,
            final(self).height() == if old(self).height() == 0 {
                1
            } else if old(self).root_keys().len() == max_keys() {
                old(self).height() + 1
            } else {
                old(self).height()
            },
            old(self).height() == 0 ==> final(self).root_keys() == seq![key] && final(self).root_values() == seq![value],
            old(self).height() == 1 && old(self).root_keys().len() < max_keys() ==> exists|i: int|
                fits_at(old(self).root_keys(), i, key) && final(self).root_keys() == old(self).root_keys().insert(i, key) && final(self).root_values() == old(self).root_values().insert(i, value),
            old(self).height() > 0 && old(self).root_keys().len() == max_keys() ==> final(self).root_keys() == seq![old(self).root_keys()[MAX_DEGREE - 1]] && final(self).root_values() == seq![old(self).root_values()[MAX_DEGREE - 1]],
    {
        let ghost st = old(self).strictly_ordered() && (forall|v: V| !old(self)@.contains((key, v)));
        match self.root.take() {
            None => {
                let mut root = Node::new(true);
                root.keys.push(key);
                root.values.push(value);
                proof {
                    assert(root.stores(0, key, value));
                }
                self.root = Some(root);
                self.height = Ghost(0);
                proof {
                    assert forall|k: K| #[trigger] self.answer(k) == after_insert(old(self).answer(k), k, key, value) by {
                        lemma_scan_props(root.keys@, k, 0);
                    }
                    assert forall|e: (K, V)| #[trigger] self@.contains(e) == old(self)@.insert((key, value)).contains(e) by {
                        if root.has(0, e.0, e.1) {
                            let a = choose|a: int| #[trigger] root.stores(a, e.0, e.1);
                            assert(a == 0);
                        }
                    }
                    assert(self@ =~= old(self)@.insert((key, value)));
                }
            }
            Some(root) => {
                let ghost h = self.height@;
                let ghost r0 = root;
                if root.keys.len() == 2 * MAX_DEGREE - 1 {
                    let mut new_root = Node::new(false);
                    new_root.children.push(root);
                    proof {
                        let n = new_root;
                        assert(n.children@[0] == r0);
                        assert(n.children@ =~= seq![r0]);
                        lemma_sum_size_one(r0, h);
                        assert(n.wf(h + 1, None, None, false));
                        assert(st ==> n.wf(h + 1, None, None, true));
                        assert forall|k: K, v: V| #[trigger] n.has(h + 1, k, v) == r0.has(h, k, v) by {
                            if r0.has(h, k, v) {
                                assert(n.children@[0].has(h, k, v));
                            }
                        }
                    }
                    Self::split_child(&mut new_root, 0, Ghost(h + 1), Ghost(None), Ghost(None), Ghost(st));
                    proof {
                        assert(new_root.keys@ =~= seq![r0.keys@[MAX_DEGREE - 1]]);
                        assert(new_root.values@ =~= seq![r0.values@[MAX_DEGREE - 1]]);
                        assert(new_root.children@[0].keys.len() < max_keys());
                        assert(new_root.children@[1].keys.len() < max_keys());
                        assert(new_root.children.len() == 2);
                        assert forall|j: int| 0 <= j < new_root.children.len() implies #[trigger] new_root.children@[j].keys.len() < max_keys() by {
                            if j == 0 {
                                assert(new_root.children@[0].keys.len() < max_keys());
                            } else {
                                assert(new_root.children@[1].keys.len() < max_keys());
                            }
                        }
                        if st {
                            assert forall|v: V| !#[trigger] new_root.has(h + 1, key, v) by {
                                assert(!old(self)@.contains((key, v)));
                            }
                        }
                    }
                    Self::insert_non_full(&mut new_root, key, value, Ghost(h + 1), Ghost(None), Ghost(None), Ghost(st));
                    self.root = Some(new_root);
                    self.height = Ghost(h + 1);
                } else {
                    let mut root = root;
                    proof {
                        if st {
                            assert forall|v: V| !#[trigger] root.has(h, key, v) by {
                                assert(!old(self)@.contains((key, v)));
                            }
                        }
                    }
                    Self::insert_non_full(&mut root, key, value, Ghost(h), Ghost(None), Ghost(None), Ghost(st));
                    self.root = Some(root);
                }
                proof {
                    let r = self.root->Some_0;
                    if st {
                        r.lemma_strict_is_loose(self.height@, None, None);
                    }
                    assert(self@ =~= old(self)@.insert((key, value)));
                }
            }
        }
    }

    /// Looks `key` up: a value stored with `key` when the tree holds an entry with that key,
    /// and `None` when it holds none.
    pub fn search(&self, key: K) -> (r: Option<&V>)
        requires
            self.wf(),
        ensures
            answers(self@, key, opt_value(r)),
            opt_value(r) == self.answer(key),
    {
        match &self.root {
            None => None,
            Some(root) => {
                let r = Self::search_node(root, key, Ghost(self.height@), Ghost(None), Ghost(None), Ghost(false));
                proof {
                    if r is None {
                        assert forall|v: V| !#[trigger] self@.contains((key, v)) by {
                            assert(!root.has(self.height@, key, v));
                        }
                    }
                }
                r
            }
        }
    }

    /// Whether the tree holds no entry, which is so exactly until the first insert.
    pub fn is_empty(&self) -> (r: bool)
        requires
            self.wf(),
        ensures
            r == (self@ == Set::<(K, V)>::empty()),
    {
        proof {
            if self.root is Some {
                let root = self.root->Some_0;
                assert(root.stores(0, root.keys@[0], root.values@[0]));
                assert(self@.contains((root.keys@[0], root.values@[0])));
            } else {
                assert(self@ =~= Set::<(K, V)>::empty());
            }
        }
        self.root.is_none()
    }
}

impl<K: OrderedKey, V> Default for BTree<K, V> {
    fn default() -> (r: Self)
        ensures
            r.wf(),
            r@ == Set::<(K, V)>::empty(),
    {
        Self::new()
    }
}

/// The value that a lookup result refers to, if any.
pub open spec fn opt_value<V>(r: Option<&V>) -> Option<V> {
    match r {
        Some(v) => Some(*v),
        None => None,
    }
}

/// `r` is a correct answer to a lookup of `k` among the entries `s`: a value stored with
/// `k`, or `None` when no entry has the key `k`.
pub open spec fn answers<K, V>(s: Set<(K, V)>, k: K, r: Option<V>) -> bool {
    match r {
        Some(v) => s.contains((k, v)),
        None => forall|v: V| !#[trigger] s.contains((k, v)),
    }
}

} // verus!
