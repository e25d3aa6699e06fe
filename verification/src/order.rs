//! Ordering of items by composite keys: two numbers, then a byte string.

use vstd::prelude::*;

verus! {

// ---------------------------------------------------------------------------
// Keys
// ---------------------------------------------------------------------------

/// A sort key: compared by `major`, then by `minor`, then by `bytes`.
#[derive(Clone, Copy, Debug)]
pub struct SortKey<'a> {
    pub major: u64,
    pub minor: u64,
    pub bytes: &'a [u8],
}

/// What a sort key says.
#[verifier::ext_equal]
pub struct KeyView {
    pub major: nat,
    pub minor: nat,
    pub bytes: Seq<u8>,
}

impl<'a> View for SortKey<'a> {
    type V = KeyView;

    open spec fn view(&self) -> KeyView {
        KeyView { major: self.major as nat, minor: self.minor as nat, bytes: self.bytes@ }
    }
}

/// The keys of a sequence.
pub open spec fn key_views(keys: Seq<SortKey>) -> Seq<KeyView> {
    keys.map_values(|k: SortKey| k@)
}

/// Byte strings in lexicographic order.
pub open spec fn lex_le(a: Seq<u8>, b: Seq<u8>) -> bool
    decreases a.len(),
{
    if a.len() == 0 {
        true
    } else if b.len() == 0 {
        false
    } else if a[0] != b[0] {
        a[0] < b[0]
    } else {
        lex_le(a.drop_first(), b.drop_first())
    }
}

/// Keys in order.
pub open spec fn key_le(a: KeyView, b: KeyView) -> bool {
    if a.major != b.major {
        a.major < b.major
    } else if a.minor != b.minor {
        a.minor < b.minor
    } else {
        lex_le(a.bytes, b.bytes)
    }
}

pub proof fn lemma_lex_total(a: Seq<u8>, b: Seq<u8>)
    ensures
        lex_le(a, b) || lex_le(b, a),
        lex_le(a, b) && lex_le(b, a) ==> a == b,
        lex_le(a, a),
    decreases a.len(),
{
    if a.len() > 0 {
        lemma_lex_total(a.drop_first(), a.drop_first());
        if b.len() > 0 {
            lemma_lex_total(a.drop_first(), b.drop_first());
            if lex_le(a, b) && lex_le(b, a) {
                assert(a =~= seq![a[0]] + a.drop_first());
                assert(b =~= seq![b[0]] + b.drop_first());
            }
        }
    } else if b.len() == 0 {
        assert(a =~= b);
    }
}

pub proof fn lemma_lex_transitive(a: Seq<u8>, b: Seq<u8>, c: Seq<u8>)
    requires
        lex_le(a, b),
        lex_le(b, c),
    ensures
        lex_le(a, c),
    decreases a.len(),
{
    if a.len() > 0 && a[0] == b[0] && b[0] == c[0] {
        lemma_lex_transitive(a.drop_first(), b.drop_first(), c.drop_first());
    }
}

/// Any two keys are in order one way or the other, and both ways only if equal.
pub proof fn lemma_key_total(a: KeyView, b: KeyView)
    ensures
        key_le(a, b) || key_le(b, a),
        key_le(a, b) && key_le(b, a) ==> a == b,
        key_le(a, a),
{
    lemma_lex_total(a.bytes, b.bytes);
    lemma_lex_total(a.bytes, a.bytes);
}

pub proof fn lemma_key_transitive(a: KeyView, b: KeyView, c: KeyView)
    requires
        key_le(a, b),
        key_le(b, c),
    ensures
        key_le(a, c),
{
    if a.major == b.major && b.major == c.major && a.minor == b.minor && b.minor == c.minor {
        lemma_lex_transitive(a.bytes, b.bytes, c.bytes);
    }
}

/// Compares two byte strings.
pub fn bytes_le(a: &[u8], b: &[u8]) -> (r: bool)
    ensures
        r == lex_le(a@, b@),
{
    let mut i: usize = 0;
    assert(a@.skip(0) =~= a@);
    assert(b@.skip(0) =~= b@);
    while i < a.len() && i < b.len()
        invariant
            i <= a@.len(),
            i <= b@.len(),
            lex_le(a@.skip(i as int), b@.skip(i as int)) == lex_le(a@, b@),
        decreases a@.len() - i,
    {
        let ghost x = a@.skip(i as int);
        let ghost y = b@.skip(i as int);
        assert(x[0] == a@[i as int] && y[0] == b@[i as int]);
        if a[i] != b[i] {
            return a[i] < b[i];
        }
        assert(x.drop_first() =~= a@.skip(i + 1));
        assert(y.drop_first() =~= b@.skip(i + 1));
        i = i + 1;
    }
    i == a.len()
}

/// Compares two keys.
pub fn keys_in_order(a: &SortKey, b: &SortKey) -> (r: bool)
    ensures
        r == key_le(a@, b@),
{
    if a.major != b.major {
        a.major < b.major
    } else if a.minor != b.minor {
        a.minor < b.minor
    } else {
        bytes_le(a.bytes, b.bytes)
    }
}

// ---------------------------------------------------------------------------
// Stable order
// ---------------------------------------------------------------------------

/// `order` with index `k` put behind every index whose key is not greater.
pub open spec fn insert_index(keys: Seq<KeyView>, order: Seq<int>, k: int) -> Seq<int>
    decreases order.len(),
{
    if order.len() == 0 || key_le(keys[order.last()], keys[k]) {
        order.push(k)
    } else {
        insert_index(keys, order.drop_last(), k).push(order.last())
    }
}

/// The first `n` indices, by their keys, equal keys by their position.
pub open spec fn stable_order_upto(keys: Seq<KeyView>, n: nat) -> Seq<int>
    decreases n,
{
    if n == 0 {
        Seq::empty()
    } else {
        insert_index(keys, stable_order_upto(keys, (n - 1) as nat), n - 1)
    }
}

/// The indices of `keys`, by their keys, equal keys by their position.
pub open spec fn stable_order(keys: Seq<KeyView>) -> Seq<int> {
    stable_order_upto(keys, keys.len())
}

/// The items, in the stable order of their keys.
pub open spec fn sorted_by<X>(items: Seq<X>, key: spec_fn(X) -> KeyView) -> Seq<X> {
    let order = stable_order(items.map_values(key));
    order.map_values(|i: int| items[i])
}

/// Index `i` comes strictly before index `j`.
pub open spec fn before(keys: Seq<KeyView>, i: int, j: int) -> bool {
    key_le(keys[i], keys[j]) && (keys[i] == keys[j] ==> i < j)
}

/// Every index comes before every later one.
pub open spec fn ascending(keys: Seq<KeyView>, order: Seq<int>) -> bool {
    forall|a: int, b: int|
        0 <= a < b < order.len() ==> before(keys, #[trigger] order[a], #[trigger] order[b])
}

/// The sequence holds exactly the numbers `lo..hi`.
pub open spec fn holds_range(order: Seq<int>, lo: int, hi: int) -> bool {
    &&& order.len() == hi - lo
    &&& forall|v: int| lo <= v < hi ==> #[trigger] order.contains(v)
    &&& forall|a: int| 0 <= a < order.len() ==> lo <= #[trigger] order[a] < hi
}

proof fn lemma_before_transitive(keys: Seq<KeyView>, i: int, j: int, k: int)
    requires
        before(keys, i, j),
        before(keys, j, k),
    ensures
        before(keys, i, k),
{
    lemma_key_transitive(keys[i], keys[j], keys[k]);
    if keys[i] == keys[k] {
        lemma_key_total(keys[i], keys[j]);
    }
}

proof fn lemma_before_one_way(keys: Seq<KeyView>, i: int, j: int)
    ensures
        !(before(keys, i, j) && before(keys, j, i)),
{
    lemma_key_total(keys[i], keys[j]);
}

/// Two ascending sequences of the same numbers are the same.
proof fn lemma_ascending_unique(keys: Seq<KeyView>, p: Seq<int>, q: Seq<int>)
    requires
        ascending(keys, p),
        ascending(keys, q),
        p.len() == q.len(),
        forall|v: int| #[trigger] p.contains(v) ==> q.contains(v),
        forall|v: int| #[trigger] q.contains(v) ==> p.contains(v),
    ensures
        p == q,
    decreases p.len(),
{
    if p.len() == 0 {
        assert(p =~= q);
    } else {
        let n = p.len() - 1;
        let x = p[n];
        let y = q[n];
        assert(p.contains(x));
        assert(q.contains(y));
        if x != y {
            let a = choose|a: int| 0 <= a < q.len() && q[a] == x;
            let b = choose|b: int| 0 <= b < p.len() && p[b] == y;
            assert(before(keys, q[a], q[n]));
            assert(before(keys, p[b], p[n]));
            lemma_before_one_way(keys, x, y);
        }
        let p1 = p.drop_last();
        let q1 = q.drop_last();
        assert forall|v: int| #[trigger] p1.contains(v) implies q1.contains(v) by {
            let a = choose|a: int| 0 <= a < p1.len() && p1[a] == v;
            assert(p[a] == v);
            assert(p.contains(v));
            let b = choose|b: int| 0 <= b < q.len() && q[b] == v;
            if b == n {
                assert(before(keys, p[a], p[n]));
                lemma_before_one_way(keys, v, v);
            }
            assert(q1[b] == v);
        }
        assert forall|v: int| #[trigger] q1.contains(v) implies p1.contains(v) by {
            let a = choose|a: int| 0 <= a < q1.len() && q1[a] == v;
            assert(q[a] == v);
            assert(q.contains(v));
            let b = choose|b: int| 0 <= b < p.len() && p[b] == v;
            if b == n {
                assert(before(keys, q[a], q[n]));
                lemma_before_one_way(keys, v, v);
            }
            assert(p1[b] == v);
        }
        assert(ascending(keys, p1)) by {
            assert forall|a: int, b: int| 0 <= a < b < p1.len() implies before(
                keys,
                #[trigger] p1[a],
                #[trigger] p1[b],
            ) by {
                assert(before(keys, p[a], p[b]));
            }
        }
        assert(ascending(keys, q1)) by {
            assert forall|a: int, b: int| 0 <= a < b < q1.len() implies before(
                keys,
                #[trigger] q1[a],
                #[trigger] q1[b],
            ) by {
                assert(before(keys, q[a], q[b]));
            }
        }
        lemma_ascending_unique(keys, p1, q1);
        assert(p =~= p1.push(x));
        assert(q =~= q1.push(y));
    }
}

proof fn lemma_insert_index(keys: Seq<KeyView>, order: Seq<int>, k: int)
    requires
        ascending(keys, order),
        forall|a: int| 0 <= a < order.len() ==> #[trigger] order[a] < k,
    ensures
        ascending(keys, insert_index(keys, order, k)),
        insert_index(keys, order, k).len() == order.len() + 1,
        insert_index(keys, order, k).contains(k),
        forall|v: int| #[trigger]
            order.contains(v) ==> insert_index(keys, order, k).contains(v),
        forall|a: int|
            0 <= a < insert_index(keys, order, k).len() ==> (
            #[trigger] insert_index(keys, order, k)[a] == k || order.contains(
                insert_index(keys, order, k)[a],
            )),
    decreases order.len(),
{
    let r = insert_index(keys, order, k);
    if order.len() == 0 || key_le(keys[order.last()], keys[k]) {
        assert(r[order.len() as int] == k);
        assert forall|v: int| #[trigger] order.contains(v) implies r.contains(v) by {
            let a = choose|a: int| 0 <= a < order.len() && order[a] == v;
            assert(r[a] == v);
        }
        assert forall|a: int, b: int| 0 <= a < b < r.len() implies before(
            keys,
            #[trigger] r[a],
            #[trigger] r[b],
        ) by {
            if b == order.len() {
                assert(before(keys, order.last(), k));
                if a < order.len() - 1 {
                    assert(before(keys, order[a], order[order.len() - 1]));
                    lemma_before_transitive(keys, order[a], order.last(), k);
                }
            } else {
                assert(before(keys, order[a], order[b]));
            }
        }
        assert forall|a: int| 0 <= a < r.len() implies (#[trigger] r[a] == k || order.contains(
            r[a],
        )) by {
            if a < order.len() {
                assert(order[a] == r[a]);
            }
        }
    } else {
        let front = order.drop_last();
        let z = order.last();
        assert forall|a: int, b: int| 0 <= a < b < front.len() implies before(
            keys,
            #[trigger] front[a],
            #[trigger] front[b],
        ) by {
            assert(before(keys, order[a], order[b]));
        }
        assert forall|a: int| 0 <= a < front.len() implies #[trigger] front[a] < k by {
            assert(order[a] < k);
        }
        lemma_insert_index(keys, front, k);
        let r1 = insert_index(keys, front, k);
        assert(r == r1.push(z));
        let i = choose|i: int| 0 <= i < r1.len() && r1[i] == k;
        assert(r[i] == k);
        assert forall|v: int| #[trigger] order.contains(v) implies r.contains(v) by {
            let a = choose|a: int| 0 <= a < order.len() && order[a] == v;
            if a < front.len() {
                assert(front[a] == v);
                assert(front.contains(v));
                let b = choose|b: int| 0 <= b < r1.len() && r1[b] == v;
                assert(r[b] == v);
            } else {
                assert(r[r1.len() as int] == v);
            }
        }
        assert forall|a: int, b: int| 0 <= a < b < r.len() implies before(
            keys,
            #[trigger] r[a],
            #[trigger] r[b],
        ) by {
            if b == r1.len() {
                assert(r1[a] == k || front.contains(r1[a]));
                if r1[a] == k {
                    lemma_key_total(keys[z], keys[k]);
                } else {
                    let c = choose|c: int| 0 <= c < front.len() && front[c] == r1[a];
                    assert(before(keys, order[c], order[order.len() - 1]));
                }
            } else {
                assert(before(keys, r1[a], r1[b]));
            }
        }
        assert forall|a: int| 0 <= a < r.len() implies (#[trigger] r[a] == k || order.contains(
            r[a],
        )) by {
            if a < r1.len() {
                assert(r1[a] == k || front.contains(r1[a]));
                if r1[a] != k {
                    let c = choose|c: int| 0 <= c < front.len() && front[c] == r1[a];
                    assert(order[c] == r[a]);
                }
            } else {
                assert(order[order.len() - 1] == r[a]);
            }
        }
    }
}

pub proof fn lemma_stable_order_upto(keys: Seq<KeyView>, n: nat)
    requires
        n <= keys.len(),
    ensures
        ascending(keys, stable_order_upto(keys, n)),
        holds_range(stable_order_upto(keys, n), 0, n as int),
    decreases n,
{
    if n > 0 {
        let shorter = stable_order_upto(keys, (n - 1) as nat);
        lemma_stable_order_upto(keys, (n - 1) as nat);
        lemma_insert_index(keys, shorter, n - 1);
        let r = stable_order_upto(keys, n);
        assert forall|v: int| 0 <= v < n implies #[trigger] r.contains(v) by {
            if v < n - 1 {
                assert(shorter.contains(v));
            }
        }
        assert forall|a: int| 0 <= a < r.len() implies 0 <= #[trigger] r[a] < n by {
            assert(r[a] == n - 1 || shorter.contains(r[a]));
        }
    }
}

/// The stable order is ascending and holds every index once.
pub proof fn law_stable_order(keys: Seq<KeyView>)
    ensures
        ascending(keys, stable_order(keys)),
        holds_range(stable_order(keys), 0, keys.len() as int),
{
    lemma_stable_order_upto(keys, keys.len());
}

/// What is ascending and holds every index once is the stable order.
pub proof fn law_stable_order_unique(keys: Seq<KeyView>, order: Seq<int>)
    requires
        ascending(keys, order),
        holds_range(order, 0, keys.len() as int),
    ensures
        order == stable_order(keys),
{
    law_stable_order(keys);
    let q = stable_order(keys);
    assert forall|v: int| #[trigger] order.contains(v) implies q.contains(v) by {
        let a = choose|a: int| 0 <= a < order.len() && order[a] == v;
        assert(0 <= order[a] < keys.len());
    }
    assert forall|v: int| #[trigger] q.contains(v) implies order.contains(v) by {
        let a = choose|a: int| 0 <= a < q.len() && q[a] == v;
        assert(0 <= q[a] < keys.len());
    }
    lemma_ascending_unique(keys, order, q);
}

/// Indexing one more item adds it.
proof fn lemma_insert_index_items<X>(keys: Seq<KeyView>, order: Seq<int>, k: int, items: Seq<X>)
    ensures
        insert_index(keys, order, k).map_values(|i: int| items[i]).to_multiset()
            == order.map_values(|i: int| items[i]).to_multiset().insert(items[k]),
    decreases order.len(),
{
    let at = |i: int| items[i];
    let mapped = order.map_values(at);
    let longer = insert_index(keys, order, k);
    if order.len() == 0 || key_le(keys[order.last()], keys[k]) {
        assert(longer.map_values(at) =~= mapped.push(items[k]));
        vstd::seq_lib::to_multiset_build(mapped, items[k]);
    } else {
        let front = order.drop_last();
        let last = items[order.last()];
        let inner = insert_index(keys, front, k);
        lemma_insert_index_items(keys, front, k, items);
        assert(longer.map_values(at) =~= inner.map_values(at).push(last));
        assert(mapped =~= front.map_values(at).push(last));
        vstd::seq_lib::to_multiset_build(inner.map_values(at), last);
        vstd::seq_lib::to_multiset_build(front.map_values(at), last);
        assert(longer.map_values(at).to_multiset() =~= mapped.to_multiset().insert(items[k]));
    }
}

proof fn lemma_upto_items<X>(keys: Seq<KeyView>, n: nat, items: Seq<X>)
    requires
        n <= items.len(),
    ensures
        stable_order_upto(keys, n).map_values(|i: int| items[i]).to_multiset() == items.take(
            n as int,
        ).to_multiset(),
    decreases n,
{
    let at = |i: int| items[i];
    if n > 0 {
        let shorter = stable_order_upto(keys, (n - 1) as nat);
        lemma_upto_items(keys, (n - 1) as nat, items);
        lemma_insert_index_items(keys, shorter, n - 1, items);
        assert(items.take(n as int) =~= items.take(n - 1).push(items[n - 1]));
        vstd::seq_lib::to_multiset_build(items.take(n - 1), items[n - 1]);
    } else {
        assert(stable_order_upto(keys, n).map_values(at) =~= items.take(0));
    }
}

/// Items in the stable order of keys are the same items.
pub proof fn law_order_keeps_items<X>(keys: Seq<KeyView>, items: Seq<X>)
    requires
        items.len() == keys.len(),
    ensures
        stable_order(keys).map_values(|i: int| items[i]).to_multiset() == items.to_multiset(),
{
    lemma_upto_items(keys, keys.len(), items);
    assert(items.take(items.len() as int) =~= items);
}

/// Sorting keeps the items, each as often as it occurs.
pub proof fn law_sorting_keeps_items<X>(items: Seq<X>, key: spec_fn(X) -> KeyView)
    ensures
        sorted_by(items, key).to_multiset() == items.to_multiset(),
{
    law_order_keeps_items(items.map_values(key), items);
}

/// Sorting leaves a sequence that is in order as it is.
pub proof fn law_sorted_is_kept<X>(items: Seq<X>, key: spec_fn(X) -> KeyView)
    requires
        forall|a: int, b: int|
            0 <= a < b < items.len() ==> key_le(key(#[trigger] items[a]), key(#[trigger] items[b])),
    ensures
        sorted_by(items, key) == items,
{
    let keys = items.map_values(key);
    let order = Seq::new(items.len(), |i: int| i);
    assert forall|v: int| 0 <= v < items.len() implies #[trigger] order.contains(v) by {
        assert(order[v] == v);
    }
    law_stable_order_unique(keys, order);
    assert(sorted_by(items, key) =~= items);
}

/// Sorting keeps the number of items.
pub proof fn lemma_sorted_by_len<X>(items: Seq<X>, key: spec_fn(X) -> KeyView)
    ensures
        sorted_by(items, key).len() == items.len(),
        forall|a: int|
            0 <= a < items.len() ==> items.contains(#[trigger] sorted_by(items, key)[a]),
{
    let keys = items.map_values(key);
    law_stable_order(keys);
    let order = stable_order(keys);
    assert forall|a: int| 0 <= a < items.len() implies items.contains(
        #[trigger] sorted_by(items, key)[a],
    ) by {
        assert(0 <= order[a] < keys.len());
        assert(items[order[a]] == sorted_by(items, key)[a]);
    }
}

/// Sorted items are in the order of their keys.
pub proof fn law_sorted_in_order<X>(items: Seq<X>, key: spec_fn(X) -> KeyView)
    ensures
        forall|a: int, b: int|
            0 <= a < b < items.len() ==> key_le(
                key(#[trigger] sorted_by(items, key)[a]),
                key(#[trigger] sorted_by(items, key)[b]),
            ),
{
    let keys = items.map_values(key);
    law_stable_order(keys);
    let order = stable_order(keys);
    let r = sorted_by(items, key);
    assert forall|a: int, b: int| 0 <= a < b < items.len() implies key_le(
        key(#[trigger] r[a]),
        key(#[trigger] r[b]),
    ) by {
        assert(before(keys, order[a], order[b]));
        assert(0 <= order[a] < keys.len() && 0 <= order[b] < keys.len());
    }
}

// ---------------------------------------------------------------------------
// Merge sort
// ---------------------------------------------------------------------------

spec fn ints(order: Seq<usize>) -> Seq<int> {
    order.map_values(|i: usize| i as int)
}

/// Merges two ascending runs, the first of which holds the smaller indices.
fn merge(keys: &[SortKey], left: &Vec<usize>, right: &Vec<usize>, lo: usize, mid: usize, hi: usize) -> (out: Vec<usize>)
    requires
        lo <= mid <= hi <= keys@.len(),
        ascending(key_views(keys@), ints(left@)),
        ascending(key_views(keys@), ints(right@)),
        holds_range(ints(left@), lo as int, mid as int),
        holds_range(ints(right@), mid as int, hi as int),
    ensures
        ascending(key_views(keys@), ints(out@)),
        holds_range(ints(out@), lo as int, hi as int),
{
    let ghost kv = key_views(keys@);
    let ghost l = ints(left@);
    let ghost r = ints(right@);
    let mut out: Vec<usize> = Vec::new();
    let mut i: usize = 0;
    let mut j: usize = 0;
    while i < left.len() || j < right.len()
        invariant
            lo <= mid <= hi <= keys@.len(),
            kv == key_views(keys@),
            l == ints(left@),
            r == ints(right@),
            ascending(kv, l),
            ascending(kv, r),
            holds_range(l, lo as int, mid as int),
            holds_range(r, mid as int, hi as int),
            i <= left@.len(),
            j <= right@.len(),
            out@.len() == i + j,
            ascending(kv, ints(out@)),
            forall|a: int| 0 <= a < out@.len() ==> lo <= #[trigger] ints(out@)[a] < hi,
            forall|a: int, b: int|
                0 <= a < out@.len() && i <= b < l.len() ==> before(
                    kv,
                    #[trigger] ints(out@)[a],
                    #[trigger] l[b],
                ),
            forall|a: int, b: int|
                0 <= a < out@.len() && j <= b < r.len() ==> before(
                    kv,
                    #[trigger] ints(out@)[a],
                    #[trigger] r[b],
                ),
            forall|b: int| 0 <= b < i ==> ints(out@).contains(#[trigger] l[b]),
            forall|b: int| 0 <= b < j ==> ints(out@).contains(#[trigger] r[b]),
        decreases left@.len() - i + right@.len() - j,
    {
        let take_left: bool = if i >= left.len() {
            false
        } else if j >= right.len() {
            true
        } else {
            assert(lo <= l[i as int] < mid && mid <= r[j as int] < hi);
            proof {
                lemma_key_total(kv[l[i as int]], kv[r[j as int]]);
            }
            keys_in_order(&keys[left[i]], &keys[right[j]])
        };
        let ghost prev = ints(out@);
        let ghost i0 = i as int;
        let ghost j0 = j as int;
        if take_left {
            let v: usize = left[i];
            assert(l[i as int] == v);
            out.push(v);
            i = i + 1;
        } else {
            let v: usize = right[j];
            assert(r[j as int] == v);
            out.push(v);
            j = j + 1;
        }
        proof {
            let now = ints(out@);
            let v = now.last();
            assert(now =~= prev.push(v));
            assert forall|b: int| i <= b < l.len() implies before(kv, v, #[trigger] l[b]) by {
                if take_left {
                    assert(before(kv, l[i0], l[b]));
                } else {
                    assert(lo <= l[i0] < mid && mid <= r[j0] < hi);
                    assert(before(kv, r[j0], l[i0]));
                    if b > i0 {
                        assert(before(kv, l[i0], l[b]));
                        lemma_before_transitive(kv, r[j0], l[i0], l[b]);
                    }
                }
            }
            assert forall|b: int| j <= b < r.len() implies before(kv, v, #[trigger] r[b]) by {
                if take_left {
                    assert(lo <= l[i0] < mid && mid <= r[j0] < hi);
                    assert(before(kv, l[i0], r[j0]));
                    if b > j0 {
                        assert(before(kv, r[j0], r[b]));
                        lemma_before_transitive(kv, l[i0], r[j0], r[b]);
                    }
                } else {
                    assert(before(kv, r[j0], r[b]));
                }
            }
            assert forall|a: int, b: int| 0 <= a < b < now.len() implies before(
                kv,
                #[trigger] now[a],
                #[trigger] now[b],
            ) by {
                if b == prev.len() {
                    if take_left {
                        assert(before(kv, prev[a], l[i0]));
                    } else {
                        assert(before(kv, prev[a], r[j0]));
                    }
                } else {
                    assert(before(kv, prev[a], prev[b]));
                }
            }
            assert forall|a: int| 0 <= a < now.len() implies lo <= #[trigger] now[a] < hi by {
                if a < prev.len() {
                    assert(now[a] == prev[a]);
                }
            }
            assert forall|a: int, b: int| 0 <= a < now.len() && i <= b < l.len() implies before(
                kv,
                #[trigger] now[a],
                #[trigger] l[b],
            ) by {
                if a < prev.len() {
                    assert(now[a] == prev[a]);
                }
            }
            assert forall|a: int, b: int| 0 <= a < now.len() && j <= b < r.len() implies before(
                kv,
                #[trigger] now[a],
                #[trigger] r[b],
            ) by {
                if a < prev.len() {
                    assert(now[a] == prev[a]);
                }
            }
            assert forall|b: int| 0 <= b < i implies now.contains(#[trigger] l[b]) by {
                if b < i0 {
                    let a = choose|a: int| 0 <= a < prev.len() && prev[a] == l[b];
                    assert(now[a] == l[b]);
                } else {
                    assert(now[prev.len() as int] == l[b]);
                }
            }
            assert forall|b: int| 0 <= b < j implies now.contains(#[trigger] r[b]) by {
                if b < j0 {
                    let a = choose|a: int| 0 <= a < prev.len() && prev[a] == r[b];
                    assert(now[a] == r[b]);
                } else {
                    assert(now[prev.len() as int] == r[b]);
                }
            }
        }
    }
    proof {
        let o = ints(out@);
        assert forall|v: int| lo <= v < hi implies #[trigger] o.contains(v) by {
            if v < mid {
                assert(l.contains(v));
                let b = choose|b: int| 0 <= b < l.len() && l[b] == v;
                assert(o.contains(l[b]));
            } else {
                assert(r.contains(v));
                let b = choose|b: int| 0 <= b < r.len() && r[b] == v;
                assert(o.contains(r[b]));
            }
        }
    }
    out
}

fn sort_range(keys: &[SortKey], lo: usize, hi: usize) -> (out: Vec<usize>)
    requires
        lo <= hi <= keys@.len(),
    ensures
        ascending(key_views(keys@), ints(out@)),
        holds_range(ints(out@), lo as int, hi as int),
    decreases hi - lo,
{
    if hi - lo <= 1 {
        let mut out: Vec<usize> = Vec::new();
        if lo < hi {
            out.push(lo);
            assert(ints(out@)[0] == lo);
        }
        return out;
    }
    let mid: usize = lo + (hi - lo) / 2;
    let left: Vec<usize> = sort_range(keys, lo, mid);
    let right: Vec<usize> = sort_range(keys, mid, hi);
    merge(keys, &left, &right, lo, mid, hi)
}

/// The indices of `keys`, by their keys, equal keys by their position.
pub fn order_of(keys: &[SortKey]) -> (out: Vec<usize>)
    ensures
        out@.map_values(|i: usize| i as int) == stable_order(key_views(keys@)),
        out@.len() == keys@.len(),
        forall|a: int| 0 <= a < out@.len() ==> (#[trigger] out@[a]) < keys@.len(),
{
    let out: Vec<usize> = sort_range(keys, 0, keys.len());
    proof {
        law_stable_order_unique(key_views(keys@), ints(out@));
        assert forall|a: int| 0 <= a < out@.len() implies (#[trigger] out@[a]) < keys@.len() by {
            assert(0 <= ints(out@)[a] < keys@.len());
        }
    }
    out
}

/// Whether some key occurs twice.
pub fn has_equal_keys(keys: &[SortKey]) -> (r: bool)
    ensures
        r == exists|a: int, b: int|
            0 <= a < b < keys@.len() && #[trigger] keys@[a]@ == #[trigger] keys@[b]@,
{
    let order: Vec<usize> = order_of(keys);
    let ghost kv = key_views(keys@);
    let ghost o = stable_order(kv);
    proof {
        law_stable_order(kv);
        assert forall|a: int| 0 <= a < o.len() implies o[a] == order@[a] by {
            assert(ints(order@)[a] == order@[a]);
        }
    }
    let mut i: usize = 1;
    while i < order.len()
        invariant
            kv == key_views(keys@),
            o == stable_order(kv),
            ascending(kv, o),
            holds_range(o, 0, kv.len() as int),
            order@.len() == o.len() == keys@.len(),
            forall|a: int| 0 <= a < o.len() ==> o[a] == #[trigger] order@[a],
            1 <= i,
            i <= order@.len() || order@.len() == 0,
            forall|a: int| 1 <= a < i ==> kv[#[trigger] o[a]] != kv[o[a - 1]],
        decreases order@.len() - i,
    {
        assert(0 <= o[i - 1] < kv.len() && 0 <= o[i as int] < kv.len());
        assert(before(kv, o[i - 1], o[i as int]));
        assert(o[i as int] == order@[i as int]);
        assert(o[i - 1] == order@[i - 1]);
        if keys_in_order(&keys[order[i]], &keys[order[i - 1]]) {
            proof {
                let x = o[i - 1];
                let y = o[i as int];
                lemma_key_total(kv[x], kv[y]);
                assert(x < y);
                assert(keys@[x]@ == keys@[y]@);
            }
            return true;
        }
        proof {
            lemma_key_total(kv[o[i - 1]], kv[o[i - 1]]);
        }
        i = i + 1;
    }
    proof {
        assert forall|a: int, b: int| 0 <= a < b < keys@.len() implies #[trigger] keys@[a]@
            != #[trigger] keys@[b]@ by {
            if keys@[a]@ == keys@[b]@ {
                assert(kv[a] == kv[b]);
                assert(o.contains(a) && o.contains(b));
                let p = choose|p: int| 0 <= p < o.len() && o[p] == a;
                let q = choose|q: int| 0 <= q < o.len() && o[q] == b;
                if p > q {
                    assert(before(kv, o[q], o[p]));
                } else {
                    assert(before(kv, o[p], o[q]));
                    assert(kv[o[p + 1]] != kv[o[p]]);
                    assert(before(kv, o[p], o[p + 1]));
                    if p + 1 < q {
                        assert(before(kv, o[p + 1], o[q]));
                    }
                    lemma_key_total(kv[o[p]], kv[o[p + 1]]);
                }
            }
        }
    }
    false
}

/// The last index whose key is `target`, found in the stable order of the keys.
pub fn find_last(keys: &[SortKey], order: &[usize], target: &SortKey) -> (r: Option<usize>)
    requires
        order@.map_values(|i: usize| i as int) == stable_order(key_views(keys@)),
    ensures
        match r {
            Some(i) => {
                &&& i < keys@.len()
                &&& keys@[i as int]@ == target@
                &&& forall|j: int| i < j < keys@.len() ==> (#[trigger] keys@[j])@ != target@
            },
            None => forall|j: int| 0 <= j < keys@.len() ==> (#[trigger] keys@[j])@ != target@,
        },
{
    let ghost kv = key_views(keys@);
    let ghost o = stable_order(kv);
    let ghost t = target@;
    proof {
        law_stable_order(kv);
        assert forall|a: int| 0 <= a < o.len() implies o[a] == order@[a] by {
            assert(order@.map_values(|i: usize| i as int)[a] == order@[a]);
        }
    }
    let mut lo: usize = 0;
    let mut hi: usize = order.len();
    while lo < hi
        invariant
            kv == key_views(keys@),
            o == stable_order(kv),
            t == target@,
            ascending(kv, o),
            holds_range(o, 0, kv.len() as int),
            order@.len() == o.len() == keys@.len(),
            forall|a: int| 0 <= a < o.len() ==> o[a] == #[trigger] order@[a],
            lo <= hi <= order@.len(),
            forall|a: int| 0 <= a < lo ==> key_le(kv[#[trigger] o[a]], t),
            forall|a: int| hi <= a < o.len() ==> !key_le(kv[#[trigger] o[a]], t),
        decreases hi - lo,
    {
        let mid: usize = lo + (hi - lo) / 2;
        assert(o[mid as int] == order@[mid as int]);
        assert(0 <= o[mid as int] < kv.len());
        if keys_in_order(&keys[order[mid]], target) {
            proof {
                assert forall|a: int| 0 <= a < mid + 1 implies key_le(kv[#[trigger] o[a]], t) by {
                    if a < mid {
                        assert(before(kv, o[a], o[mid as int]));
                        lemma_key_transitive(kv[o[a]], kv[o[mid as int]], t);
                    }
                }
            }
            lo = mid + 1;
        } else {
            proof {
                assert forall|a: int| mid <= a < o.len() implies !key_le(kv[#[trigger] o[a]], t) by {
                    if a > mid && key_le(kv[o[a]], t) {
                        assert(before(kv, o[mid as int], o[a]));
                        lemma_key_transitive(kv[o[mid as int]], kv[o[a]], t);
                    }
                }
            }
            hi = mid;
        }
    }
    if lo > 0 {
        let i: usize = order[lo - 1];
        assert(o[lo - 1] == order@[lo - 1]);
        assert(0 <= o[lo - 1] < kv.len());
        if keys_in_order(target, &keys[i]) {
            proof {
                lemma_key_total(kv[i as int], t);
                assert forall|j: int| i < j < keys@.len() implies (#[trigger] keys@[j])@ != t by {
                    if keys@[j]@ == t {
                        assert(kv[j] == t);
                        assert(o.contains(j));
                        let p = choose|p: int| 0 <= p < o.len() && o[p] == j;
                        lemma_key_total(t, t);
                        assert(p < lo);
                        if p < lo - 1 {
                            assert(before(kv, o[p], o[lo - 1]));
                        }
                    }
                }
            }
            return Some(i);
        }
    }
    proof {
        assert forall|j: int| 0 <= j < keys@.len() implies (#[trigger] keys@[j])@ != t by {
            if keys@[j]@ == t {
                assert(kv[j] == t);
                assert(o.contains(j));
                let p = choose|p: int| 0 <= p < o.len() && o[p] == j;
                lemma_key_total(t, t);
                assert(p < lo);
                if p < lo - 1 {
                    assert(before(kv, o[p], o[lo - 1]));
                    lemma_key_total(kv[o[lo - 1]], t);
                }
            }
        }
    }
    None
}

} // verus!
