//! Order: of text, of sequences, and maps kept in the order of their keys.

use vstd::prelude::*;

use crate::text::chars_of;

verus! {

// ----------------------------------------------------------- order of text

/// Whether `a` comes before `b`, character by character, by code point.
pub open spec fn text_less(a: Seq<char>, b: Seq<char>) -> bool
    decreases a.len(),
{
    if b.len() == 0 {
        false
    } else if a.len() == 0 {
        true
    } else if a[0] != b[0] {
        a[0] < b[0]
    } else {
        text_less(a.drop_first(), b.drop_first())
    }
}

pub proof fn lemma_text_less_irreflexive(a: Seq<char>)
    ensures
        !text_less(a, a),
    decreases a.len(),
{
    if a.len() > 0 {
        lemma_text_less_irreflexive(a.drop_first());
    }
}

pub proof fn lemma_text_less_transitive(a: Seq<char>, b: Seq<char>, c: Seq<char>)
    requires
        text_less(a, b),
        text_less(b, c),
    ensures
        text_less(a, c),
    decreases a.len(),
{
    if a.len() > 0 && a[0] == b[0] && b[0] == c[0] {
        lemma_text_less_transitive(a.drop_first(), b.drop_first(), c.drop_first());
    }
}

pub proof fn lemma_text_less_total(a: Seq<char>, b: Seq<char>)
    ensures
        a == b || text_less(a, b) || text_less(b, a),
    decreases a.len(),
{
    if a.len() > 0 && b.len() > 0 && a[0] == b[0] {
        lemma_text_less_total(a.drop_first(), b.drop_first());
        if a.drop_first() == b.drop_first() {
            assert(a =~= seq![a[0]] + a.drop_first());
            assert(b =~= seq![b[0]] + b.drop_first());
        }
    } else if a.len() == 0 && b.len() == 0 {
        assert(a =~= b);
    }
}

/// Whether `a` comes before `b`.
pub fn text_before(a: &str, b: &str) -> (r: bool)
    ensures
        r == text_less(a@, b@),
{
    let x = chars_of(a);
    let y = chars_of(b);
    let mut i: usize = 0;
    assert(x@.skip(0) =~= x@);
    assert(y@.skip(0) =~= y@);
    while i < x.len() && i < y.len()
        invariant
            i <= x@.len(),
            i <= y@.len(),
            x@ == a@,
            y@ == b@,
            text_less(x@, y@) == text_less(x@.skip(i as int), y@.skip(i as int)),
        decreases x@.len() - i,
    {
        if x[i] != y[i] {
            return x[i] < y[i];
        }
        proof {
            assert(x@.skip(i as int).drop_first() =~= x@.skip(i + 1));
            assert(y@.skip(i as int).drop_first() =~= y@.skip(i + 1));
        }
        i = i + 1;
    }
    i < y.len()
}

// ---------------------------------------------------------- order of bytes

/// Whether `a` comes before `b`, byte by byte.
pub open spec fn bytes_less(a: Seq<u8>, b: Seq<u8>) -> bool
    decreases a.len(),
{
    if b.len() == 0 {
        false
    } else if a.len() == 0 {
        true
    } else if a[0] != b[0] {
        a[0] < b[0]
    } else {
        bytes_less(a.drop_first(), b.drop_first())
    }
}

proof fn lemma_bytes_less_irreflexive(a: Seq<u8>)
    ensures
        !bytes_less(a, a),
    decreases a.len(),
{
    if a.len() > 0 {
        lemma_bytes_less_irreflexive(a.drop_first());
    }
}

proof fn lemma_bytes_less_transitive(a: Seq<u8>, b: Seq<u8>, c: Seq<u8>)
    requires
        bytes_less(a, b),
        bytes_less(b, c),
    ensures
        bytes_less(a, c),
    decreases a.len(),
{
    if a.len() > 0 && a[0] == b[0] && b[0] == c[0] {
        lemma_bytes_less_transitive(a.drop_first(), b.drop_first(), c.drop_first());
    }
}

pub proof fn lemma_bytes_less_total(a: Seq<u8>, b: Seq<u8>)
    ensures
        a == b || bytes_less(a, b) || bytes_less(b, a),
    decreases a.len(),
{
    if a.len() > 0 && b.len() > 0 && a[0] == b[0] {
        lemma_bytes_less_total(a.drop_first(), b.drop_first());
        if a.drop_first() == b.drop_first() {
            assert(a =~= seq![a[0]] + a.drop_first());
            assert(b =~= seq![b[0]] + b.drop_first());
        }
    } else if a.len() == 0 && b.len() == 0 {
        assert(a =~= b);
    }
}

/// Whether `x` comes before `y`.
pub fn bytes_before(x: &[u8], y: &[u8]) -> (r: bool)
    ensures
        r == bytes_less(x@, y@),
{
    let mut i: usize = 0;
    assert(x@.skip(0) =~= x@);
    assert(y@.skip(0) =~= y@);
    while i < x.len() && i < y.len()
        invariant
            i <= x@.len(),
            i <= y@.len(),
            bytes_less(x@, y@) == bytes_less(x@.skip(i as int), y@.skip(i as int)),
        decreases x@.len() - i,
    {
        if x[i] != y[i] {
            return x[i] < y[i];
        }
        proof {
            assert(x@.skip(i as int).drop_first() =~= x@.skip(i + 1));
            assert(y@.skip(i as int).drop_first() =~= y@.skip(i + 1));
        }
        i = i + 1;
    }
    i < y.len()
}

// ------------------------------------------------------------ sorted sequences

/// How many elements of `s`, from the first on, come before `x`.
pub open spec fn rank<T>(s: Seq<T>, x: T, less: spec_fn(T, T) -> bool) -> int
    decreases s.len(),
{
    if s.len() > 0 && less(s[0], x) {
        1 + rank(s.drop_first(), x, less)
    } else {
        0
    }
}

/// `s` in the order of `less`, where elements of which neither comes before
/// the other stay in the order that they had.
pub open spec fn sorted<T>(s: Seq<T>, less: spec_fn(T, T) -> bool) -> Seq<T>
    decreases s.len(),
{
    if s.len() == 0 {
        s
    } else {
        let t = sorted(s.drop_first(), less);
        t.insert(rank(t, s[0], less), s[0])
    }
}

pub proof fn lemma_rank<T>(s: Seq<T>, x: T, less: spec_fn(T, T) -> bool, n: int)
    requires
        0 <= n <= s.len(),
        forall|j: int| 0 <= j < n ==> less(#[trigger] s[j], x),
        n == s.len() || !less(s[n], x),
    ensures
        rank(s, x, less) == n,
    decreases n,
{
    if n > 0 {
        assert(less(s[0], x));
        assert forall|j: int| 0 <= j < n - 1 implies less(#[trigger] s.drop_first()[j], x) by {
            assert(s.drop_first()[j] == s[j + 1]);
        }
        lemma_rank(s.drop_first(), x, less, n - 1);
    }
}

pub proof fn lemma_rank_meaning<T>(s: Seq<T>, x: T, less: spec_fn(T, T) -> bool)
    ensures
        0 <= rank(s, x, less) <= s.len(),
        forall|j: int| 0 <= j < rank(s, x, less) ==> less(#[trigger] s[j], x),
        rank(s, x, less) < s.len() ==> !less(s[rank(s, x, less)], x),
    decreases s.len(),
{
    if s.len() > 0 && less(s[0], x) {
        let t = s.drop_first();
        lemma_rank_meaning(t, x, less);
        let n = rank(s, x, less);
        assert forall|j: int| 0 <= j < n implies less(#[trigger] s[j], x) by {
            if j > 0 {
                assert(s[j] == t[j - 1]);
            }
        }
        if n < s.len() {
            assert(s[n] == t[n - 1]);
        }
    }
}

/// Whether every element of `s` is followed only by such as do not come
/// before it.
pub open spec fn is_sorted<T>(s: Seq<T>, less: spec_fn(T, T) -> bool) -> bool {
    forall|i: int, j: int| 0 <= i < j < s.len() ==> !less(#[trigger] s[j], #[trigger] s[i])
}

/// Whether nothing comes before itself, and both "comes before" and "does not
/// come before" may be chained.
pub open spec fn is_order<T>(less: spec_fn(T, T) -> bool) -> bool {
    &&& forall|a: T| !#[trigger] less(a, a)
    &&& forall|a: T, b: T, c: T|
        #[trigger] less(a, b) && #[trigger] less(b, c) ==> less(a, c)
    &&& forall|a: T, b: T, c: T|
        !#[trigger] less(a, b) && !#[trigger] less(b, c) ==> !less(a, c)
}

/// Sorting keeps every element and puts them in order.
pub proof fn sorting_orders<T>(s: Seq<T>, less: spec_fn(T, T) -> bool)
    requires
        is_order(less),
    ensures
        is_sorted(sorted(s, less), less),
        sorted(s, less).to_multiset() == s.to_multiset(),
        sorted(s, less).len() == s.len(),
    decreases s.len(),
{
    if s.len() > 0 {
        let x = s[0];
        let rest = s.drop_first();
        sorting_orders(rest, less);
        let t = sorted(rest, less);
        let n = rank(t, x, less);
        lemma_rank_meaning(t, x, less);
        let r = t.insert(n, x);
        assert forall|i: int, j: int| 0 <= i < j < r.len() implies !less(
            #[trigger] r[j],
            #[trigger] r[i],
        ) by {
            let a = r[i];
            let b = r[j];
            if i < n {
                assert(a == t[i] && less(a, x));
                if j < n {
                    assert(b == t[j]);
                } else if j > n {
                    assert(b == t[j - 1]);
                    assert(!less(t[j - 1], t[i]));
                } else {
                    if less(x, a) {
                        assert(less(a, a));
                    }
                }
            } else if i == n {
                assert(b == t[j - 1]);
                if j - 1 > n {
                    assert(!less(t[j - 1], t[n]));
                }
                assert(!less(t[n], x));
            } else {
                assert(a == t[i - 1] && b == t[j - 1]);
            }
        }
        vstd::seq_lib::to_multiset_insert(t, n, x);
        vstd::seq_lib::to_multiset_insert(rest, 0, x);
        assert(rest.insert(0, x) =~= s);
    }
}

/// The others are sorted alike with an element and without it.
pub proof fn sorting_without<T>(s: Seq<T>, i: int, less: spec_fn(T, T) -> bool) -> (k: int)
    requires
        is_order(less),
        0 <= i < s.len(),
    ensures
        0 <= k <= sorted(s.remove(i), less).len(),
        sorted(s, less) == sorted(s.remove(i), less).insert(k, s[i]),
    decreases s.len(),
{
    let x = s[0];
    let rest = s.drop_first();
    let t = sorted(rest, less);
    let n = rank(t, x, less);
    lemma_rank_meaning(t, x, less);
    if i == 0 {
        assert(s.remove(0) =~= rest);
        n
    } else {
        let c = s[i];
        let fewer = rest.remove(i - 1);
        assert(rest[i - 1] == c);
        let p = sorting_without(rest, i - 1, less);
        let u = sorted(fewer, less);
        let m = rank(u, x, less);
        lemma_rank_meaning(u, x, less);
        assert(s.remove(i).drop_first() =~= fewer);
        assert(s.remove(i)[0] == x);
        assert(t == u.insert(p, c));
        sorting_orders(rest, less);
        let k = if p > m {
            p + 1
        } else if less(c, x) {
            p
        } else {
            p + 1
        };
        if p > m {
            assert forall|j: int| 0 <= j < m implies less(#[trigger] t[j], x) by {
                assert(t[j] == u[j]);
            }
            assert(t[m] == u[m]);
            lemma_rank(t, x, less, m);
        } else if less(c, x) {
            assert forall|j: int| 0 <= j < m + 1 implies less(#[trigger] t[j], x) by {
                if j < p {
                    assert(t[j] == u[j]);
                } else if j > p {
                    assert(t[j] == u[j - 1]);
                }
            }
            if m < u.len() {
                assert(t[m + 1] == u[m]);
            }
            lemma_rank(t, x, less, m + 1);
        } else {
            if p < m {
                assert(t[p] == c && t[p + 1] == u[p]);
                assert(!less(t[p + 1], t[p]));
                assert(less(u[p], x));
                assert(false);
            }
            assert forall|j: int| 0 <= j < p implies less(#[trigger] t[j], x) by {
                assert(t[j] == u[j]);
            }
            lemma_rank(t, x, less, p);
        }
        assert(t.insert(n, x) =~= u.insert(m, x).insert(k, c));
        k
    }
}

/// Whether of any two elements of `s` one comes before the other.
pub open spec fn told_apart<T>(s: Seq<T>, less: spec_fn(T, T) -> bool) -> bool {
    forall|i: int, j: int|
        0 <= i < j < s.len() ==> less(#[trigger] s[i], #[trigger] s[j]) || less(s[j], s[i])
}

/// The same elements without one, wherever it stands in either sequence.
pub proof fn lemma_same_without<T>(a: Seq<T>, b: Seq<T>, j: int) -> (i: int)
    requires
        0 <= j < a.len(),
        a.to_multiset() == b.to_multiset(),
    ensures
        0 <= i < b.len(),
        b[i] == a[j],
        a.remove(j).to_multiset() == b.remove(i).to_multiset(),
{
    broadcast use vstd::seq_lib::group_to_multiset_ensures;

    assert(a.contains(a[j]));
    assert(a.to_multiset().count(a[j]) > 0);
    assert(b.contains(a[j]));
    let i = choose|i: int| 0 <= i < b.len() && b[i] == a[j];
    vstd::seq_lib::to_multiset_remove(a, j);
    vstd::seq_lib::to_multiset_remove(b, i);
    i
}

/// What a sequence holds is what it holds without an element, and that element.
pub proof fn lemma_restored<T>(s: Seq<T>, k: int)
    requires
        0 <= k < s.len(),
    ensures
        s.to_multiset() == s.remove(k).to_multiset().insert(s[k]),
{
    vstd::seq_lib::to_multiset_insert(s.remove(k), k, s[k]);
    assert(s.remove(k).insert(k, s[k]) =~= s);
}

/// Elements that can be told apart come out in one order, whatever order they
/// came in.
pub proof fn sorting_ignores_order<T>(a: Seq<T>, b: Seq<T>, less: spec_fn(T, T) -> bool)
    requires
        is_order(less),
        told_apart(a, less),
        a.to_multiset() == b.to_multiset(),
    ensures
        sorted(a, less) == sorted(b, less),
    decreases a.len(),
{
    broadcast use vstd::seq_lib::group_to_multiset_ensures;

    assert(a.to_multiset().len() == a.len() && b.to_multiset().len() == b.len());
    if a.len() > 0 {
        let x = a[0];
        let i = lemma_same_without(a, b, 0);
        let others = a.remove(0);
        assert forall|p: int, q: int| 0 <= p < q < others.len() implies less(
            #[trigger] others[p],
            #[trigger] others[q],
        ) || less(others[q], others[p]) by {
            assert(others[p] == a[p + 1] && others[q] == a[q + 1]);
        }
        sorting_ignores_order(others, b.remove(i), less);
        let s = sorted(others, less);
        let m = sorting_without(a, 0, less);
        let n = sorting_without(b, i, less);
        sorting_orders(a, less);
        sorting_orders(b, less);
        sorting_orders(others, less);
        assert forall|k: int| 0 <= k < s.len() implies less(#[trigger] s[k], x) || less(
            x,
            s[k],
        ) by {
            assert(s.contains(s[k]));
            assert(others.to_multiset().count(s[k]) > 0);
            assert(others.contains(s[k]));
            let q = choose|q: int| 0 <= q < others.len() && others[q] == s[k];
            assert(a[0] == x && a[q + 1] == s[k]);
        }
        let u = s.insert(m, x);
        let v = s.insert(n, x);
        if m < n {
            assert(!less(u[m + 1], u[m]));
            assert(u[m + 1] == s[m] && u[m] == x);
            assert(!less(v[n], v[m]));
            assert(v[m] == s[m] && v[n] == x);
        } else if n < m {
            assert(!less(v[n + 1], v[n]));
            assert(v[n + 1] == s[n] && v[n] == x);
            assert(!less(u[m], u[n]));
            assert(u[n] == s[n] && u[m] == x);
        }
    } else {
        assert(a =~= b);
    }
}

/// The order of texts is one.
pub proof fn text_order_is_order()
    ensures
        is_order(key_order()),
{
    let less = key_order();
    assert forall|a: Seq<char>| !#[trigger] less(a, a) by {
        lemma_text_less_irreflexive(a);
    }
    assert forall|a: Seq<char>, b: Seq<char>, c: Seq<char>| #[trigger]
        less(a, b) && #[trigger] less(b, c) implies less(a, c) by {
        lemma_text_less_transitive(a, b, c);
    }
    assert forall|a: Seq<char>, b: Seq<char>, c: Seq<char>|
        !#[trigger] less(a, b) && !#[trigger] less(b, c) implies !less(a, c) by {
        if less(a, c) {
            lemma_text_less_total(a, b);
            lemma_text_less_total(b, c);
            if less(b, a) {
                lemma_text_less_transitive(b, a, c);
            }
        }
    }
}

/// The order of bytes.
pub open spec fn byte_order() -> spec_fn(Seq<u8>, Seq<u8>) -> bool {
    |a: Seq<u8>, b: Seq<u8>| bytes_less(a, b)
}

/// The order of bytes is one.
pub proof fn byte_order_is_order()
    ensures
        is_order(byte_order()),
{
    let less = byte_order();
    assert forall|a: Seq<u8>| !#[trigger] less(a, a) by {
        lemma_bytes_less_irreflexive(a);
    }
    assert forall|a: Seq<u8>, b: Seq<u8>, c: Seq<u8>| #[trigger]
        less(a, b) && #[trigger] less(b, c) implies less(a, c) by {
        lemma_bytes_less_transitive(a, b, c);
    }
    assert forall|a: Seq<u8>, b: Seq<u8>, c: Seq<u8>|
        !#[trigger] less(a, b) && !#[trigger] less(b, c) implies !less(a, c) by {
        if less(a, c) {
            lemma_bytes_less_total(a, b);
            lemma_bytes_less_total(b, c);
            if less(b, a) {
                lemma_bytes_less_transitive(b, a, c);
            }
        }
    }
}

/// What each element of `v` says.
pub open spec fn views<T: View>(v: Seq<T>) -> Seq<T::V> {
    Seq::new(v.len(), |i: int| v[i]@)
}

/// A type whose values have an order, told from what they say.
pub trait Ordered: View {
    spec fn less(a: Self::V, b: Self::V) -> bool;

    fn before(&self, other: &Self) -> (r: bool)
        ensures
            r == Self::less(self@, other@),
    ;
}

/// The order of `T`.
pub open spec fn order_of<T: Ordered>() -> spec_fn(T::V, T::V) -> bool {
    |a: T::V, b: T::V| T::less(a, b)
}

/// Sorts `items`.
pub fn sort<T: Ordered>(items: Vec<T>) -> (r: Vec<T>)
    ensures
        views(r@) == sorted(views(items@), order_of::<T>()),
        r@.len() == items@.len(),
{
    let ghost all = views(items@);
    let ghost less = order_of::<T>();
    let mut rest = items;
    let mut out: Vec<T> = Vec::new();
    proof {
        assert(all.skip(all.len() as int) =~= seq![]);
        assert(views(out@) =~= seq![]);
        assert(views(rest@) =~= all.take(rest@.len() as int));
    }
    loop
        invariant
            less == order_of::<T>(),
            all == views(items@),
            rest@.len() + out@.len() == all.len(),
            views(rest@) == all.take(rest@.len() as int),
            views(out@) == sorted(all.skip(rest@.len() as int), less),
        decreases rest@.len(),
    {
        let ghost n = rest@.len();
        let ghost before = views(rest@);
        match rest.pop() {
            None => {
                assert(all.skip(0) =~= all);
                return out;
            },
            Some(x) => {
                let ghost t = views(out@);
                let mut i: usize = 0;
                while i < out.len() && out[i].before(&x)
                    invariant
                        i <= out@.len(),
                        t == views(out@),
                        less == order_of::<T>(),
                        forall|j: int| 0 <= j < i ==> less(#[trigger] t[j], x@),
                    decreases out@.len() - i,
                {
                    assert(t[i as int] == out@[i as int]@);
                    i = i + 1;
                }
                proof {
                    if i < t.len() {
                        assert(t[i as int] == out@[i as int]@);
                    }
                    lemma_rank(t, x@, less, i as int);
                    assert(before[n - 1] == x@);
                    assert(all[n - 1] == x@);
                    assert(all.skip(n - 1).drop_first() =~= all.skip(n as int));
                }
                out.insert(i, x);
                proof {
                    assert(views(out@) =~= t.insert(i as int, x@));
                    assert(views(rest@) =~= all.take(n - 1));
                }
            },
        }
    }
}

// ------------------------------------------------- maps in order of their keys

/// The keys of `m`.
pub open spec fn keys<V>(m: Seq<(Seq<char>, V)>) -> Seq<Seq<char>> {
    Seq::new(m.len(), |i: int| m[i].0)
}

pub open spec fn key_order() -> spec_fn(Seq<char>, Seq<char>) -> bool {
    |a: Seq<char>, b: Seq<char>| text_less(a, b)
}

/// Where `k` belongs among the keys of `m`.
pub open spec fn key_rank<V>(m: Seq<(Seq<char>, V)>, k: Seq<char>) -> int {
    rank(keys(m), k, key_order())
}

/// Whether `m` has the key `k`.
pub open spec fn has_key<V>(m: Seq<(Seq<char>, V)>, k: Seq<char>) -> bool {
    key_rank(m, k) < m.len() && m[key_rank(m, k)].0 == k
}

/// What `m` has under the key `k`.
pub open spec fn get<V>(m: Seq<(Seq<char>, V)>, k: Seq<char>) -> Option<V> {
    if has_key(m, k) {
        Some(m[key_rank(m, k)].1)
    } else {
        None
    }
}

/// `m` with `v` under the key `k`.
pub open spec fn put<V>(m: Seq<(Seq<char>, V)>, k: Seq<char>, v: V) -> Seq<(Seq<char>, V)> {
    let i = key_rank(m, k);
    if has_key(m, k) {
        m.update(i, (k, v))
    } else {
        m.insert(i, (k, v))
    }
}

/// Whether the keys of `m` rise strictly.
pub open spec fn rising<V>(m: Seq<(Seq<char>, V)>) -> bool {
    forall|i: int, j: int| 0 <= i < j < m.len() ==> text_less(#[trigger] m[i].0, #[trigger] m[j].0)
}

/// Putting a value keeps the keys strictly rising.
pub proof fn put_keeps_order<V>(m: Seq<(Seq<char>, V)>, k: Seq<char>, v: V)
    requires
        rising(m),
    ensures
        rising(put(m, k, v)),
{
    let i = key_rank(m, k);
    let r = put(m, k, v);
    lemma_rank_meaning(keys(m), k, key_order());
    if has_key(m, k) {
        assert forall|a: int, b: int| 0 <= a < b < r.len() implies text_less(
            #[trigger] r[a].0,
            #[trigger] r[b].0,
        ) by {
            assert(r[a].0 == m[a].0 && r[b].0 == m[b].0);
        }
    } else {
        assert forall|a: int, b: int| 0 <= a < b < r.len() implies text_less(
            #[trigger] r[a].0,
            #[trigger] r[b].0,
        ) by {
            if a < i {
                assert(keys(m)[a] == m[a].0);
                assert(key_order()(keys(m)[a], k));
                if b < i {
                } else if b > i {
                    assert(r[b].0 == m[b - 1].0);
                }
            } else {
                assert(r[b].0 == m[b - 1].0);
                if a == i {
                    assert(!text_less(keys(m)[i], k));
                    lemma_text_less_total(m[i].0, k);
                    if b - 1 > i {
                        lemma_text_less_transitive(k, m[i].0, m[b - 1].0);
                    }
                } else {
                    assert(r[a].0 == m[a - 1].0);
                }
            }
        }
    }
}

/// The keys of `m`.
pub open spec fn key_views<V>(m: Seq<(String, V)>) -> Seq<Seq<char>> {
    Seq::new(m.len(), |i: int| m[i].0@)
}

/// Finds where `k` belongs among the keys of `m`.
pub fn find_key<V>(m: &Vec<(String, V)>, k: &str) -> (r: usize)
    ensures
        r == rank(key_views(m@), k@, key_order()),
        r <= m@.len(),
{
    let ghost ks = key_views(m@);
    let mut i: usize = 0;
    while i < m.len() && text_before(m[i].0.as_str(), k)
        invariant
            i <= m@.len(),
            ks == key_views(m@),
            forall|j: int| 0 <= j < i ==> key_order()(#[trigger] ks[j], k@),
        decreases m@.len() - i,
    {
        assert(ks[i as int] == m@[i as int].0@);
        i = i + 1;
    }
    proof {
        if i < m@.len() {
            assert(ks[i as int] == m@[i as int].0@);
        }
        lemma_rank(ks, k@, key_order(), i as int);
    }
    i
}

/// In a map in order, `get` finds exactly the entries.
pub proof fn lemma_get_entry<V>(m: Seq<(Seq<char>, V)>, i: int)
    requires
        rising(m),
        0 <= i < m.len(),
    ensures
        key_rank(m, m[i].0) == i,
        get(m, m[i].0) == Some(m[i].1),
{
    let k = m[i].0;
    assert forall|j: int| 0 <= j < i implies key_order()(#[trigger] keys(m)[j], k) by {
        assert(text_less(m[j].0, m[i].0));
    }
    lemma_text_less_irreflexive(k);
    assert(keys(m)[i] == k);
    lemma_rank(keys(m), k, key_order(), i);
}

/// What was put under a key is what the key gives, and every other key gives
/// what it gave before.
pub proof fn put_then_get<V>(m: Seq<(Seq<char>, V)>, k: Seq<char>, v: V, other: Seq<char>)
    requires
        rising(m),
    ensures
        get(put(m, k, v), other) == if other == k {
            Some(v)
        } else {
            get(m, other)
        },
{
    let r = put(m, k, v);
    let i = key_rank(m, k);
    lemma_rank_meaning(keys(m), k, key_order());
    lemma_rank_meaning(keys(m), other, key_order());
    lemma_rank_meaning(keys(r), other, key_order());
    put_keeps_order(m, k, v);
    assert(r[i] == (k, v));
    lemma_get_entry(r, i);
    if other != k {
        if has_key(m, other) {
            let j = key_rank(m, other);
            if has_key(m, k) || j < i {
                assert(r[j] == m[j]);
                lemma_get_entry(r, j);
            } else {
                assert(r[j + 1] == m[j]);
                lemma_get_entry(r, j + 1);
            }
        } else if has_key(r, other) {
            let j = key_rank(r, other);
            if has_key(m, k) || j < i {
                assert(m[j] == r[j]);
                lemma_get_entry(m, j);
            } else {
                assert(m[j - 1] == r[j]);
                lemma_get_entry(m, j - 1);
            }
        }
    }
}

// ------------------------------------------------------------------------ laws

/// Text is ordered by its first difference: the smaller character comes first,
/// and a text before what it begins.
pub proof fn text_is_ordered_by_its_first_difference(
    same: Seq<char>,
    x: char,
    a: Seq<char>,
    y: char,
    b: Seq<char>,
)
    ensures
        x < y ==> text_less(same + seq![x] + a, same + seq![y] + b),
        x > y ==> !text_less(same + seq![x] + a, same + seq![y] + b),
        text_less(same, same + seq![x] + a),
        !text_less(same + seq![x] + a, same),
    decreases same.len(),
{
    let s = same + seq![x] + a;
    let t = same + seq![y] + b;
    if same.len() == 0 {
        assert(s[0] == x && t[0] == y);
    } else {
        let rest = same.drop_first();
        text_is_ordered_by_its_first_difference(rest, x, a, y, b);
        assert(s[0] == same[0] && t[0] == same[0]);
        assert(s.drop_first() =~= rest + seq![x] + a);
        assert(t.drop_first() =~= rest + seq![y] + b);
    }
}

/// Bytes are ordered by their first difference: the smaller byte comes first, and
/// bytes before what they begin.
pub proof fn bytes_are_ordered_by_their_first_difference(
    same: Seq<u8>,
    x: u8,
    a: Seq<u8>,
    y: u8,
    b: Seq<u8>,
)
    ensures
        x < y ==> bytes_less(same + seq![x] + a, same + seq![y] + b),
        x > y ==> !bytes_less(same + seq![x] + a, same + seq![y] + b),
        bytes_less(same, same + seq![x] + a),
        !bytes_less(same + seq![x] + a, same),
    decreases same.len(),
{
    let s = same + seq![x] + a;
    let t = same + seq![y] + b;
    if same.len() == 0 {
        assert(s[0] == x && t[0] == y);
    } else {
        let rest = same.drop_first();
        bytes_are_ordered_by_their_first_difference(rest, x, a, y, b);
        assert(s[0] == same[0] && t[0] == same[0]);
        assert(s.drop_first() =~= rest + seq![x] + a);
        assert(t.drop_first() =~= rest + seq![y] + b);
    }
}

/// What is in order stays as it is when it is sorted.
pub proof fn what_is_in_order_stays<T>(s: Seq<T>, less: spec_fn(T, T) -> bool)
    requires
        forall|i: int, j: int| 0 <= i < j < s.len() ==> !less(#[trigger] s[j], #[trigger] s[i]),
    ensures
        sorted(s, less) == s,
    decreases s.len(),
{
    if s.len() > 0 {
        let rest = s.drop_first();
        assert forall|i: int, j: int| 0 <= i < j < rest.len() implies !less(
            #[trigger] rest[j],
            #[trigger] rest[i],
        ) by {
            assert(rest[j] == s[j + 1] && rest[i] == s[i + 1]);
        }
        what_is_in_order_stays(rest, less);
        if rest.len() > 0 {
            assert(rest[0] == s[1]);
            assert(!less(s[1], s[0]));
        }
        lemma_rank(rest, s[0], less, 0);
        assert(rest.insert(0, s[0]) =~= s);
    } else {
        assert(sorted(s, less) =~= s);
    }
}

} // verus!
