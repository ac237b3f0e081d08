//! Orderings: texts by code point, stable sorting, and a map whose keys stay
//! in order.

use vstd::prelude::*;

use crate::text::{chars, owned, same_str, texts};

verus! {

/// Whether text `a` comes before text `b`: the first character in which they
/// differ decides, and a text comes after its own beginnings.
pub open spec fn text_before(a: Seq<char>, b: Seq<char>) -> bool
    decreases a.len(),
{
    if b.len() == 0 {
        false
    } else if a.len() == 0 {
        true
    } else if a[0] != b[0] {
        a[0] < b[0]
    } else {
        text_before(a.skip(1), b.skip(1))
    }
}

pub proof fn lemma_text_irreflexive(a: Seq<char>)
    ensures
        !text_before(a, a),
    decreases a.len(),
{
    if a.len() > 0 {
        lemma_text_irreflexive(a.skip(1));
    }
}

pub proof fn lemma_text_total(a: Seq<char>, b: Seq<char>)
    ensures
        a == b || text_before(a, b) || text_before(b, a),
    decreases a.len(),
{
    if a.len() > 0 && b.len() > 0 && a[0] == b[0] {
        lemma_text_total(a.skip(1), b.skip(1));
        if a.skip(1) == b.skip(1) {
            assert(a == seq![a[0]] + a.skip(1));
            assert(b == seq![b[0]] + b.skip(1));
        }
    } else if a.len() == 0 && b.len() == 0 {
        assert(a == b);
    }
}

pub proof fn lemma_text_transitive(a: Seq<char>, b: Seq<char>, c: Seq<char>)
    requires
        text_before(a, b),
        text_before(b, c),
    ensures
        text_before(a, c),
    decreases a.len(),
{
    if a.len() > 0 && a[0] == b[0] && b[0] == c[0] {
        lemma_text_transitive(a.skip(1), b.skip(1), c.skip(1));
    }
}

pub fn text_is_before(a: &str, b: &str) -> (r: bool)
    ensures
        r == text_before(a@, b@),
{
    let x = chars(a);
    let y = chars(b);
    let mut i: usize = 0;
    assert(x@.skip(0) == x@ && y@.skip(0) == y@);
    loop
        invariant
            x@ == a@,
            y@ == b@,
            i <= x@.len(),
            i <= y@.len(),
            text_before(a@, b@) == text_before(x@.skip(i as int), y@.skip(i as int)),
        decreases x@.len() - i,
    {
        if i == y.len() {
            return false;
        }
        if i == x.len() {
            return true;
        }
        if x[i] != y[i] {
            return x[i] < y[i];
        }
        assert(x@.skip(i as int).skip(1) == x@.skip(i + 1));
        assert(y@.skip(i as int).skip(1) == y@.skip(i + 1));
        i = i + 1;
    }
}

// ------------------------------------------------------------ stable sorting

/// A key that values can be sorted by.
pub trait Rank: Sized {
    spec fn precedes(self, other: Self) -> bool;

    /// Of two keys at most one precedes the other, and where one does, a third
    /// stands behind the first or ahead of the second.
    proof fn law(a: Self, b: Self, c: Self)
        ensures
            !(a.precedes(b) && b.precedes(a)),
            a.precedes(b) ==> a.precedes(c) || c.precedes(b),
    ;

    fn comes_first(&self, other: &Self) -> (r: bool)
        ensures
            r == self.precedes(*other),
    ;
}

impl Rank for i64 {
    open spec fn precedes(self, other: Self) -> bool {
        self < other
    }

    proof fn law(a: Self, b: Self, c: Self) {
    }

    fn comes_first(&self, other: &Self) -> (r: bool) {
        *self < *other
    }
}

impl Rank for String {
    open spec fn precedes(self, other: Self) -> bool {
        text_before(self@, other@)
    }

    proof fn law(a: Self, b: Self, c: Self) {
        lemma_text_irreflexive(a@);
        if text_before(a@, b@) && text_before(b@, a@) {
            lemma_text_transitive(a@, b@, a@);
        }
        if text_before(a@, b@) {
            lemma_text_total(a@, c@);
            if text_before(c@, a@) {
                lemma_text_transitive(c@, a@, b@);
            }
        }
    }

    fn comes_first(&self, other: &Self) -> (r: bool) {
        text_is_before(self.as_str(), other.as_str())
    }
}

/// Whether item `a` stands before item `b` in the stable order of the keys:
/// its key precedes, or neither key does and it came first.
pub open spec fn stands_before<K: Rank>(keys: Seq<K>, a: int, b: int) -> bool {
    keys[a].precedes(keys[b]) || (!keys[b].precedes(keys[a]) && a < b)
}

/// Whether `order` lists the positions of `keys` in their stable order.
pub open spec fn is_order<K: Rank>(keys: Seq<K>, order: Seq<int>) -> bool {
    &&& order.len() == keys.len()
    &&& forall|i: int| 0 <= i < order.len() ==> 0 <= #[trigger] order[i] < keys.len()
    &&& forall|i: int, j: int|
        0 <= i < j < order.len() ==> stands_before(keys, #[trigger] order[i], #[trigger] order[j])
}

/// The positions of `keys` in their stable order; there is one such list.
pub open spec fn order_of<K: Rank>(keys: Seq<K>) -> Seq<int> {
    choose|order: Seq<int>| #[trigger] is_order(keys, order)
}

/// The items in the stable order of their keys.
pub open spec fn sorted_by<T, K: Rank>(items: Seq<T>, keys: Seq<K>) -> Seq<T> {
    order_of(keys).map_values(|i: int| items[i])
}

/// A list of `n` distinct numbers below `n` holds each of them.
pub proof fn lemma_onto(order: Seq<int>, a: int)
    requires
        forall|i: int| 0 <= i < order.len() ==> 0 <= #[trigger] order[i] < order.len(),
        forall|i: int, j: int| 0 <= i < j < order.len() ==> order[i] != order[j],
        0 <= a < order.len(),
    ensures
        order.contains(a),
{
    let n = order.len() as int;
    let all = vstd::set_lib::set_int_range(0, n);
    vstd::set_lib::lemma_int_range(0, n);
    assert(order.no_duplicates());
    order.unique_seq_to_set();
    vstd::seq_lib::seq_to_set_is_finite(order);
    assert(order.to_set().subset_of(all)) by {
        assert forall|x: int| order.to_set().contains(x) implies all.contains(x) by {
            assert(order.contains(x));
        }
    }
    vstd::set_lib::lemma_subset_equality(order.to_set(), all);
    assert(all.contains(a));
    assert(order.to_set().contains(a));
}

/// Two lists that are each in order under the same relation are the same.
proof fn lemma_same_order(
    before: spec_fn(int, int) -> bool,
    one: Seq<int>,
    two: Seq<int>,
)
    requires
        one.len() == two.len(),
        forall|i: int| 0 <= i < one.len() ==> 0 <= #[trigger] one[i] < one.len(),
        forall|i: int| 0 <= i < two.len() ==> 0 <= #[trigger] two[i] < two.len(),
        forall|i: int, j: int|
            0 <= i < j < one.len() ==> before(#[trigger] one[i], #[trigger] one[j]),
        forall|i: int, j: int|
            0 <= i < j < two.len() ==> before(#[trigger] two[i], #[trigger] two[j]),
        forall|a: int, b: int|
            0 <= a < one.len() && 0 <= b < one.len() ==> !(#[trigger] before(a, b) && before(
                b,
                a,
            )),
    ensures
        one == two,
{
    assert forall|i: int, j: int| 0 <= i < j < one.len() implies one[i] != one[j] by {
        assert(before(one[i], one[j]));
    }
    assert forall|i: int, j: int| 0 <= i < j < two.len() implies two[i] != two[j] by {
        assert(before(two[i], two[j]));
    }
    assert forall|n: int| 0 <= n <= one.len() implies #[trigger] one.take(n) == two.take(n) by {
        lemma_same_front(before, one, two, n);
    }
    assert(one.take(one.len() as int) == one);
    assert(two.take(two.len() as int) == two);
}

proof fn lemma_same_front(
    before: spec_fn(int, int) -> bool,
    one: Seq<int>,
    two: Seq<int>,
    n: int,
)
    requires
        one.len() == two.len(),
        0 <= n <= one.len(),
        forall|i: int| 0 <= i < one.len() ==> 0 <= #[trigger] one[i] < one.len(),
        forall|i: int| 0 <= i < two.len() ==> 0 <= #[trigger] two[i] < two.len(),
        forall|i: int, j: int|
            0 <= i < j < one.len() ==> before(#[trigger] one[i], #[trigger] one[j]),
        forall|i: int, j: int|
            0 <= i < j < two.len() ==> before(#[trigger] two[i], #[trigger] two[j]),
        forall|a: int, b: int|
            0 <= a < one.len() && 0 <= b < one.len() ==> !(#[trigger] before(a, b) && before(
                b,
                a,
            )),
        forall|i: int, j: int| 0 <= i < j < one.len() ==> one[i] != one[j],
        forall|i: int, j: int| 0 <= i < j < two.len() ==> two[i] != two[j],
    ensures
        one.take(n) == two.take(n),
    decreases n,
{
    if n > 0 {
        lemma_same_front(before, one, two, n - 1);
        let i = n - 1;
        assert forall|k: int| 0 <= k < i implies one[k] == two[k] by {
            assert(one.take(i)[k] == two.take(i)[k]);
        }
        let a = one[i];
        let b = two[i];
        if a != b {
            lemma_onto(two, a);
            lemma_onto(one, b);
            let j = choose|j: int| 0 <= j < two.len() && two[j] == a;
            let k = choose|k: int| 0 <= k < one.len() && one[k] == b;
            assert(j > i) by {
                if j < i {
                    assert(one[j] == two[j]);
                }
            }
            assert(k > i) by {
                if k < i {
                    assert(one[k] == two[k]);
                }
            }
            assert(before(one[i], one[k]));
            assert(before(two[i], two[j]));
            assert(false);
        }
        assert(one.take(n) == one.take(i).push(a));
        assert(two.take(n) == two.take(i).push(b));
    }
}

/// There is one stable order.
pub proof fn lemma_order_is<K: Rank>(keys: Seq<K>, order: Seq<int>)
    requires
        is_order(keys, order),
    ensures
        order_of(keys) == order,
{
    let other = order_of(keys);
    let before = |a: int, b: int| stands_before(keys, a, b);
    assert forall|a: int, b: int| 0 <= a < order.len() && 0 <= b < order.len() implies !(
    #[trigger] before(a, b) && before(b, a)) by {
        K::law(keys[a], keys[b], keys[a]);
    }
    assert forall|i: int, j: int| 0 <= i < j < order.len() implies before(
        #[trigger] order[i],
        #[trigger] order[j],
    ) by {
        assert(stands_before(keys, order[i], order[j]));
    }
    assert forall|i: int, j: int| 0 <= i < j < other.len() implies before(
        #[trigger] other[i],
        #[trigger] other[j],
    ) by {
        assert(stands_before(keys, other[i], other[j]));
    }
    lemma_same_order(before, order, other);
}

/// Whatever the keys are, they have a stable order.
pub proof fn lemma_order_exists<K: Rank>(keys: Seq<K>) -> (order: Seq<int>)
    ensures
        is_order(keys, order),
    decreases keys.len(),
{
    if keys.len() == 0 {
        Seq::empty()
    } else {
        let front = keys.drop_last();
        let inner = lemma_order_exists(front);
        let k = keys.len() - 1;
        let j = lemma_slot(keys, inner, inner.len() as int);
        let order = inner.insert(j, k);
        assert forall|a: int, b: int| 0 <= a < b < inner.len() implies stands_before(
            keys,
            #[trigger] inner[a],
            #[trigger] inner[b],
        ) by {
            assert(stands_before(front, inner[a], inner[b]));
        }
        lemma_insert_in_order(keys, inner, j, k);
        order
    }
}

/// Where the last key goes among the positions in front of `n`.
proof fn lemma_slot<K: Rank>(keys: Seq<K>, inner: Seq<int>, n: int) -> (j: int)
    requires
        keys.len() > 0,
        0 <= n <= inner.len(),
    ensures
        0 <= j <= n,
        forall|i: int| j <= i < n ==> keys.last().precedes(keys[#[trigger] inner[i]]),
        j > 0 ==> !keys.last().precedes(keys[inner[j - 1]]),
    decreases n,
{
    if n > 0 && keys.last().precedes(keys[inner[n - 1]]) {
        lemma_slot(keys, inner, n - 1)
    } else {
        n
    }
}

proof fn lemma_insert_in_order<K: Rank>(keys: Seq<K>, inner: Seq<int>, j: int, k: int)
    requires
        keys.len() > 0,
        k == keys.len() - 1,
        inner.len() == k,
        0 <= j <= inner.len(),
        forall|i: int| 0 <= i < inner.len() ==> 0 <= #[trigger] inner[i] < k,
        forall|a: int, b: int|
            0 <= a < b < inner.len() ==> stands_before(
                keys,
                #[trigger] inner[a],
                #[trigger] inner[b],
            ),
        forall|i: int| j <= i < inner.len() ==> keys[k].precedes(keys[#[trigger] inner[i]]),
        j > 0 ==> !keys[k].precedes(keys[inner[j - 1]]),
    ensures
        is_order(keys, inner.insert(j, k)),
{
    let order = inner.insert(j, k);
    assert forall|i: int| 0 <= i < j implies stands_before(keys, #[trigger] inner[i], k) by {
        let a = keys[inner[i]];
        let x = keys[k];
        let last = keys[inner[j - 1]];
        if x.precedes(a) {
            K::law(x, a, last);
            if i < j - 1 {
                assert(stands_before(keys, inner[i], inner[j - 1]));
                K::law(a, last, a);
            }
        }
    }
    assert forall|a: int, b: int| 0 <= a < b < order.len() implies stands_before(
        keys,
        #[trigger] order[a],
        #[trigger] order[b],
    ) by {
        if b < j {
            assert(order[a] == inner[a] && order[b] == inner[b]);
        } else if a < j && b == j {
            assert(order[a] == inner[a]);
        } else if a < j {
            assert(order[a] == inner[a] && order[b] == inner[b - 1]);
        } else if a == j {
            assert(order[b] == inner[b - 1]);
        } else {
            assert(order[a] == inner[a - 1] && order[b] == inner[b - 1]);
        }
    }
    assert forall|i: int| 0 <= i < order.len() implies 0 <= #[trigger] order[i] < keys.len() by {
        if i < j {
            assert(order[i] == inner[i]);
        } else if i > j {
            assert(order[i] == inner[i - 1]);
        }
    }
}

/// A stable order lists every position.
pub proof fn lemma_order_onto<K: Rank>(keys: Seq<K>, order: Seq<int>, a: int)
    requires
        is_order(keys, order),
        0 <= a < keys.len(),
    ensures
        order.contains(a),
{
    assert forall|i: int, j: int| 0 <= i < j < order.len() implies order[i] != order[j] by {
        assert(stands_before(keys, order[i], order[j]));
        K::law(keys[order[i]], keys[order[i]], keys[order[i]]);
    }
    lemma_onto(order, a);
}

pub open spec fn positions(v: Seq<usize>) -> Seq<int> {
    v.map_values(|i: usize| i as int)
}

/// The positions of the keys in their stable order.
pub fn stable_order<K: Rank>(keys: &Vec<K>) -> (r: Vec<usize>)
    ensures
        is_order(keys@, positions(r@)),
        positions(r@) == order_of(keys@),
        r@.len() == keys@.len(),
        forall|i: int| 0 <= i < r@.len() ==> #[trigger] r@[i] < keys@.len(),
{
    let mut out: Vec<usize> = Vec::new();
    let mut k: usize = 0;
    while k < keys.len()
        invariant
            k <= keys@.len(),
            out@.len() == k,
            forall|i: int| 0 <= i < out@.len() ==> #[trigger] out@[i] < k,
            forall|i: int, j: int|
                0 <= i < j < out@.len() ==> stands_before(
                    keys@,
                    (#[trigger] out@[i]) as int,
                    (#[trigger] out@[j]) as int,
                ),
        decreases keys.len() - k,
    {
        let mut j: usize = out.len();
        while j > 0 && keys[k].comes_first(&keys[out[j - 1]])
            invariant
                j <= out@.len(),
                k < keys@.len(),
                forall|i: int| 0 <= i < out@.len() ==> #[trigger] out@[i] < k,
                forall|i: int|
                    j <= i < out@.len() ==> keys@[k as int].precedes(
                        keys@[(#[trigger] out@[i]) as int],
                    ),
            decreases j,
        {
            j = j - 1;
        }
        proof {
            assert forall|i: int| 0 <= i < j implies stands_before(
                keys@,
                (#[trigger] out@[i]) as int,
                k as int,
            ) by {
                let a = keys@[out@[i] as int];
                let x = keys@[k as int];
                let last = keys@[out@[j - 1] as int];
                assert(!x.precedes(last));
                if x.precedes(a) {
                    K::law(x, a, last);
                    if i < j - 1 {
                        assert(stands_before(keys@, out@[i] as int, out@[j - 1] as int));
                        K::law(a, last, a);
                    }
                }
            }
        }
        let ghost before = out@;
        out.insert(j, k);
        proof {
            assert forall|a: int, b: int| 0 <= a < b < out@.len() implies stands_before(
                keys@,
                (#[trigger] out@[a]) as int,
                (#[trigger] out@[b]) as int,
            ) by {
                if a < j && b < j {
                    assert(before[a] == out@[a] && before[b] == out@[b]);
                } else if a < j && b == j {
                    assert(before[a] == out@[a]);
                } else if a < j {
                    assert(before[a] == out@[a] && before[b - 1] == out@[b]);
                } else if a == j {
                    assert(before[b - 1] == out@[b]);
                } else {
                    assert(before[a - 1] == out@[a] && before[b - 1] == out@[b]);
                }
            }
            assert forall|i: int| 0 <= i < out@.len() implies #[trigger] out@[i] < k + 1 by {
                if i < j {
                    assert(out@[i] == before[i]);
                } else if i > j {
                    assert(out@[i] == before[i - 1]);
                }
            }
        }
        k = k + 1;
    }
    proof {
        let order = positions(out@);
        assert forall|i: int, j: int| 0 <= i < j < order.len() implies stands_before(
            keys@,
            #[trigger] order[i],
            #[trigger] order[j],
        ) by {
            assert(stands_before(keys@, out@[i] as int, out@[j] as int));
        }
        lemma_order_is(keys@, order);
    }
    out
}

/// Whether `order` lists the positions of some texts in their stable order.
pub open spec fn is_text_order(keys: Seq<Seq<char>>, order: Seq<int>) -> bool {
    &&& order.len() == keys.len()
    &&& forall|i: int| 0 <= i < order.len() ==> 0 <= #[trigger] order[i] < keys.len()
    &&& forall|i: int, j: int|
        0 <= i < j < order.len() ==> text_before(
            keys[#[trigger] order[i]],
            keys[#[trigger] order[j]],
        ) || (keys[order[i]] == keys[order[j]] && order[i] < order[j])
}

/// The positions of some texts in their stable order; there is one such list.
pub open spec fn text_order_of(keys: Seq<Seq<char>>) -> Seq<int> {
    choose|order: Seq<int>| #[trigger] is_text_order(keys, order)
}

/// There is one stable order of texts.
pub proof fn lemma_text_order_is(keys: Seq<Seq<char>>, order: Seq<int>)
    requires
        is_text_order(keys, order),
    ensures
        text_order_of(keys) == order,
{
    let other = text_order_of(keys);
    let before = |a: int, b: int|
        text_before(keys[a], keys[b]) || (keys[a] == keys[b] && a < b);
    assert forall|a: int, b: int| 0 <= a < order.len() && 0 <= b < order.len() implies !(
    #[trigger] before(a, b) && before(b, a)) by {
        lemma_text_irreflexive(keys[a]);
        if text_before(keys[a], keys[b]) && text_before(keys[b], keys[a]) {
            lemma_text_transitive(keys[a], keys[b], keys[a]);
        }
    }
    lemma_same_order(before, order, other);
}

/// The positions of some texts in their stable order.
pub fn text_order(keys: &Vec<String>) -> (r: Vec<usize>)
    ensures
        is_text_order(texts(keys@), positions(r@)),
        positions(r@) == text_order_of(texts(keys@)),
        r@.len() == keys@.len(),
        forall|i: int| 0 <= i < r@.len() ==> #[trigger] r@[i] < keys@.len(),
{
    let r = stable_order(keys);
    proof {
        let order = positions(r@);
        let ts = texts(keys@);
        assert forall|i: int, j: int| 0 <= i < j < order.len() implies text_before(
            ts[#[trigger] order[i]],
            ts[#[trigger] order[j]],
        ) || (ts[order[i]] == ts[order[j]] && order[i] < order[j]) by {
            assert(stands_before(keys@, order[i], order[j]));
            lemma_text_total(ts[order[i]], ts[order[j]]);
        }
        lemma_text_order_is(ts, order);
    }
    r
}

// --------------------------------------------------------------- ordered map

/// The views of a vector of string pairs.
pub open spec fn pair_texts(v: Seq<(String, String)>) -> Seq<(Seq<char>, Seq<char>)> {
    v.map_values(|p: (String, String)| (p.0@, p.1@))
}

/// Keys in strictly ascending order.
pub open spec fn ascending(pairs: Seq<(Seq<char>, Seq<char>)>) -> bool {
    forall|i: int, j: int|
        0 <= i < j < pairs.len() ==> text_before(#[trigger] pairs[i].0, #[trigger] pairs[j].0)
}

/// Whether the pairs hold a key.
pub open spec fn has_key(pairs: Seq<(Seq<char>, Seq<char>)>, key: Seq<char>) -> bool {
    exists|i: int| 0 <= i < pairs.len() && #[trigger] pairs[i].0 == key
}

/// The value that the pairs hold for a key.
pub open spec fn value_of(pairs: Seq<(Seq<char>, Seq<char>)>, key: Seq<char>) -> Seq<char> {
    pairs[choose|i: int| 0 <= i < pairs.len() && #[trigger] pairs[i].0 == key].1
}

/// The map that pairs with distinct keys spell out.
pub open spec fn as_map(pairs: Seq<(Seq<char>, Seq<char>)>) -> Map<Seq<char>, Seq<char>> {
    Map::new(|k: Seq<char>| has_key(pairs, k), |k: Seq<char>| value_of(pairs, k))
}

pub proof fn lemma_value_at(pairs: Seq<(Seq<char>, Seq<char>)>, i: int)
    requires
        ascending(pairs),
        0 <= i < pairs.len(),
    ensures
        has_key(pairs, pairs[i].0),
        value_of(pairs, pairs[i].0) == pairs[i].1,
{
    let key = pairs[i].0;
    let k = choose|k: int| 0 <= k < pairs.len() && #[trigger] pairs[k].0 == key;
    assert(pairs[i].0 == key);
    lemma_text_irreflexive(key);
    if k < i {
        assert(text_before(pairs[k].0, pairs[i].0));
    } else if i < k {
        assert(text_before(pairs[i].0, pairs[k].0));
    }
}

/// A map from texts to texts that hands out its entries in key order.
#[derive(Debug, Clone, PartialEq, Eq)]
pub struct TextMap {
    items: Vec<(String, String)>,
}

impl View for TextMap {
    type V = Map<Seq<char>, Seq<char>>;

    closed spec fn view(&self) -> Map<Seq<char>, Seq<char>> {
        as_map(self.pairs())
    }
}

impl TextMap {
    /// The entries in key order.
    pub closed spec fn pairs(&self) -> Seq<(Seq<char>, Seq<char>)> {
        pair_texts(self.items@)
    }

    pub open spec fn wf(&self) -> bool {
        &&& ascending(self.pairs())
        &&& self@ == as_map(self.pairs())
    }

    pub fn new() -> (r: Self)
        ensures
            r.wf(),
            r.pairs() == Seq::<(Seq<char>, Seq<char>)>::empty(),
            r@ == Map::<Seq<char>, Seq<char>>::empty(),
    {
        let r = TextMap { items: Vec::new() };
        assert(r.pairs() == Seq::<(Seq<char>, Seq<char>)>::empty());
        assert(r@ == Map::<Seq<char>, Seq<char>>::empty());
        r
    }

    pub fn len(&self) -> (r: usize)
        ensures
            r == self.pairs().len(),
    {
        self.items.len()
    }

    /// The entry at a position of the key order.
    pub fn at(&self, i: usize) -> (r: (&str, &str))
        requires
            i < self.pairs().len(),
        ensures
            r.0@ == self.pairs()[i as int].0,
            r.1@ == self.pairs()[i as int].1,
    {
        let p = &self.items[i];
        (p.0.as_str(), p.1.as_str())
    }

    /// The first position whose key does not come before `key`.
    fn slot(&self, key: &str) -> (r: usize)
        requires
            self.wf(),
        ensures
            r <= self.pairs().len(),
            forall|i: int| 0 <= i < r ==> text_before(#[trigger] self.pairs()[i].0, key@),
            forall|i: int|
                r <= i < self.pairs().len() ==> !text_before(#[trigger] self.pairs()[i].0, key@),
    {
        let mut i: usize = 0;
        while i < self.items.len() && text_is_before(self.items[i].0.as_str(), key)
            invariant
                i <= self.items@.len(),
                forall|j: int| 0 <= j < i ==> text_before(#[trigger] self.pairs()[j].0, key@),
            decreases self.items.len() - i,
        {
            i = i + 1;
        }
        proof {
            assert forall|j: int| i <= j < self.pairs().len() implies !text_before(
                #[trigger] self.pairs()[j].0,
                key@,
            ) by {
                if j > i {
                    assert(text_before(self.pairs()[i as int].0, self.pairs()[j].0));
                    if text_before(self.pairs()[j].0, key@) {
                        lemma_text_transitive(
                            self.pairs()[i as int].0,
                            self.pairs()[j].0,
                            key@,
                        );
                    }
                }
            }
        }
        i
    }

    pub fn get(&self, key: &str) -> (r: Option<&str>)
        requires
            self.wf(),
        ensures
            match r {
                Some(v) => self@.dom().contains(key@) && v@ == self@[key@],
                None => !self@.dom().contains(key@),
            },
    {
        let i = self.slot(key);
        let ghost pairs = self.pairs();
        if i < self.items.len() && same_str(self.items[i].0.as_str(), key) {
            proof {
                lemma_value_at(pairs, i as int);
            }
            Some(self.items[i].1.as_str())
        } else {
            proof {
                lemma_no_key(pairs, key@, i as int);
            }
            None
        }
    }

    pub fn has(&self, key: &str) -> (r: bool)
        requires
            self.wf(),
        ensures
            r == self@.dom().contains(key@),
    {
        self.get(key).is_some()
    }

    pub fn insert(&mut self, key: &str, value: &str)
        requires
            old(self).wf(),
        ensures
            final(self).wf(),
            final(self)@ == old(self)@.insert(key@, value@),
    {
        let i = self.slot(key);
        let ghost pairs = self.pairs();
        if i < self.items.len() && same_str(self.items[i].0.as_str(), key) {
            self.items.set(i, (owned(key), owned(value)));
            proof {
                let now = self.pairs();
                assert(now == pairs.update(i as int, (key@, value@)));
                assert(ascending(now)) by {
                    assert forall|a: int, b: int| 0 <= a < b < now.len() implies text_before(
                        #[trigger] now[a].0,
                        #[trigger] now[b].0,
                    ) by {
                        assert(text_before(pairs[a].0, pairs[b].0));
                    }
                }
                lemma_put(pairs, now, i as int, key@, value@);
            }
        } else {
            self.items.insert(i, (owned(key), owned(value)));
            proof {
                let now = self.pairs();
                assert(now == pairs.insert(i as int, (key@, value@)));
                lemma_no_key(pairs, key@, i as int);
                assert(ascending(now)) by {
                    assert forall|a: int, b: int| 0 <= a < b < now.len() implies text_before(
                        #[trigger] now[a].0,
                        #[trigger] now[b].0,
                    ) by {
                        if b < i {
                            assert(text_before(pairs[a].0, pairs[b].0));
                        } else if b == i {
                            assert(text_before(pairs[a].0, key@));
                        } else if a == i {
                            lemma_text_total(pairs[b - 1].0, key@);
                            assert(!text_before(pairs[b - 1].0, key@));
                            assert(pairs[b - 1].0 != key@);
                        } else if a < i {
                            assert(text_before(pairs[a].0, pairs[b - 1].0));
                        } else {
                            assert(text_before(pairs[a - 1].0, pairs[b - 1].0));
                        }
                    }
                }
                lemma_put(pairs, now, i as int, key@, value@);
            }
        }
    }

    pub fn remove(&mut self, key: &str)
        requires
            old(self).wf(),
        ensures
            final(self).wf(),
            final(self)@ == old(self)@.remove(key@),
    {
        let i = self.slot(key);
        let ghost pairs = self.pairs();
        if i < self.items.len() && same_str(self.items[i].0.as_str(), key) {
            let _ = self.items.remove(i);
            proof {
                let now = self.pairs();
                assert(now == pairs.remove(i as int));
                assert forall|a: int, b: int| 0 <= a < b < now.len() implies text_before(
                    #[trigger] now[a].0,
                    #[trigger] now[b].0,
                ) by {
                    let x = if a < i { a } else { a + 1 };
                    let y = if b < i { b } else { b + 1 };
                    assert(text_before(pairs[x].0, pairs[y].0));
                }
                lemma_cut(pairs, now, i as int, key@);
            }
        } else {
            proof {
                lemma_no_key(pairs, key@, i as int);
                assert(as_map(pairs) == as_map(pairs).remove(key@));
            }
        }
    }

    pub fn clear(&mut self)
        ensures
            final(self).wf(),
            final(self).pairs() == Seq::<(Seq<char>, Seq<char>)>::empty(),
            final(self)@ == Map::<Seq<char>, Seq<char>>::empty(),
    {
        self.items = Vec::new();
        assert(self.pairs() == Seq::<(Seq<char>, Seq<char>)>::empty());
        assert(self@ == Map::<Seq<char>, Seq<char>>::empty());
    }

    pub fn is_empty(&self) -> (r: bool)
        requires
            self.wf(),
        ensures
            r == (self.pairs().len() == 0),
            r == (self@ == Map::<Seq<char>, Seq<char>>::empty()),
    {
        proof {
            if self.pairs().len() > 0 {
                assert(has_key(self.pairs(), self.pairs()[0].0));
                assert(self@.dom().contains(self.pairs()[0].0));
            } else {
                assert(self@ == Map::<Seq<char>, Seq<char>>::empty());
            }
        }
        self.items.len() == 0
    }
}

proof fn lemma_no_key(pairs: Seq<(Seq<char>, Seq<char>)>, key: Seq<char>, i: int)
    requires
        ascending(pairs),
        0 <= i <= pairs.len(),
        forall|j: int| 0 <= j < i ==> text_before(#[trigger] pairs[j].0, key),
        forall|j: int| i <= j < pairs.len() ==> !text_before(#[trigger] pairs[j].0, key),
        i == pairs.len() || pairs[i].0 != key,
    ensures
        !has_key(pairs, key),
{
    if has_key(pairs, key) {
        let k = choose|k: int| 0 <= k < pairs.len() && #[trigger] pairs[k].0 == key;
        lemma_text_irreflexive(key);
        if k > i {
            assert(text_before(pairs[i].0, pairs[k].0));
        }
    }
}

proof fn lemma_put(
    old_pairs: Seq<(Seq<char>, Seq<char>)>,
    new_pairs: Seq<(Seq<char>, Seq<char>)>,
    i: int,
    key: Seq<char>,
    value: Seq<char>,
)
    requires
        ascending(old_pairs),
        ascending(new_pairs),
        0 <= i <= old_pairs.len(),
        ({
            ||| i < old_pairs.len() && old_pairs[i].0 == key && new_pairs == old_pairs.update(
                i,
                (key, value),
            )
            ||| !has_key(old_pairs, key) && new_pairs == old_pairs.insert(i, (key, value))
        }),
    ensures
        as_map(new_pairs) == as_map(old_pairs).insert(key, value),
{
    let m = as_map(new_pairs);
    let want = as_map(old_pairs).insert(key, value);
    assert(new_pairs[i] == (key, value));
    lemma_value_at(new_pairs, i);
    assert forall|k: Seq<char>| #[trigger] m.dom().contains(k) <==> want.dom().contains(k) by {
        if has_key(new_pairs, k) {
            let a = choose|a: int| 0 <= a < new_pairs.len() && #[trigger] new_pairs[a].0 == k;
            if a != i {
                let b = if new_pairs.len() == old_pairs.len() || a < i { a } else { a - 1 };
                assert(old_pairs[b].0 == k);
            }
        }
        if has_key(old_pairs, k) {
            let a = choose|a: int| 0 <= a < old_pairs.len() && #[trigger] old_pairs[a].0 == k;
            let b = if new_pairs.len() == old_pairs.len() || a < i { a } else { a + 1 };
            assert(new_pairs[b].0 == k);
        }
    }
    assert forall|k: Seq<char>| #[trigger] m.dom().contains(k) implies m[k] == want[k] by {
        if k != key {
            let a = choose|a: int| 0 <= a < new_pairs.len() && #[trigger] new_pairs[a].0 == k;
            assert(a != i);
            let b = if new_pairs.len() == old_pairs.len() || a < i { a } else { a - 1 };
            assert(old_pairs[b] == new_pairs[a]);
            lemma_value_at(old_pairs, b);
            lemma_value_at(new_pairs, a);
        }
    }
    assert(m == want);
}

proof fn lemma_cut(
    old_pairs: Seq<(Seq<char>, Seq<char>)>,
    new_pairs: Seq<(Seq<char>, Seq<char>)>,
    i: int,
    key: Seq<char>,
)
    requires
        ascending(old_pairs),
        ascending(new_pairs),
        0 <= i < old_pairs.len(),
        old_pairs[i].0 == key,
        new_pairs == old_pairs.remove(i),
    ensures
        as_map(new_pairs) == as_map(old_pairs).remove(key),
{
    let m = as_map(new_pairs);
    let want = as_map(old_pairs).remove(key);
    lemma_text_irreflexive(key);
    assert forall|k: Seq<char>| #[trigger] m.dom().contains(k) <==> want.dom().contains(k) by {
        if has_key(new_pairs, k) {
            let a = choose|a: int| 0 <= a < new_pairs.len() && #[trigger] new_pairs[a].0 == k;
            let b = if a < i { a } else { a + 1 };
            assert(old_pairs[b].0 == k);
            if b < i {
                assert(text_before(old_pairs[b].0, old_pairs[i].0));
            } else {
                assert(text_before(old_pairs[i].0, old_pairs[b].0));
            }
        }
        if has_key(old_pairs, k) && k != key {
            let a = choose|a: int| 0 <= a < old_pairs.len() && #[trigger] old_pairs[a].0 == k;
            let b = if a < i { a } else { a - 1 };
            assert(new_pairs[b].0 == k);
        }
    }
    assert forall|k: Seq<char>| #[trigger] m.dom().contains(k) implies m[k] == want[k] by {
        let a = choose|a: int| 0 <= a < new_pairs.len() && #[trigger] new_pairs[a].0 == k;
        let b = if a < i { a } else { a + 1 };
        assert(old_pairs[b] == new_pairs[a]);
        lemma_value_at(old_pairs, b);
        lemma_value_at(new_pairs, a);
    }
    assert(m == want);
}

} // verus!
