//! Ordering items by keys that are compared lexicographically.

use vstd::prelude::*;

verus! {

/// The lexicographic order: the first difference decides, and a proper
/// prefix comes first.
pub open spec fn lex_less(a: Seq<u32>, b: Seq<u32>) -> bool
    decreases a.len(),
{
    if b.len() == 0 {
        false
    } else if a.len() == 0 {
        true
    } else if a[0] != b[0] {
        a[0] < b[0]
    } else {
        lex_less(a.drop_first(), b.drop_first())
    }
}

pub proof fn lemma_lex_irreflexive(a: Seq<u32>)
    ensures
        !lex_less(a, a),
    decreases a.len(),
{
    if a.len() > 0 {
        lemma_lex_irreflexive(a.drop_first());
    }
}

pub proof fn lemma_lex_transitive(a: Seq<u32>, b: Seq<u32>, c: Seq<u32>)
    requires
        lex_less(a, b),
        lex_less(b, c),
    ensures
        lex_less(a, c),
    decreases a.len(),
{
    if a.len() > 0 && a[0] == b[0] && b[0] == c[0] {
        lemma_lex_transitive(a.drop_first(), b.drop_first(), c.drop_first());
    }
}

pub proof fn lemma_lex_total(a: Seq<u32>, b: Seq<u32>)
    ensures
        lex_less(a, b) || lex_less(b, a) || a == b,
    decreases a.len(),
{
    if a.len() == 0 || b.len() == 0 {
        if a.len() == b.len() {
            assert(a =~= b);
        }
    } else if a[0] == b[0] {
        lemma_lex_total(a.drop_first(), b.drop_first());
        if a.drop_first() == b.drop_first() {
            assert(a =~= seq![a[0]] + a.drop_first());
            assert(b =~= seq![b[0]] + b.drop_first());
        }
    }
}

/// One key comes before another exactly where, after all that they have in
/// common, it ends first or goes on with the smaller number.
pub proof fn law_lex_first_difference(a: Seq<u32>, b: Seq<u32>)
    ensures
        lex_less(a, b) <==> exists|d: int|
            0 <= d <= a.len() && d < b.len() && #[trigger] a.take(d) == b.take(d) && (d == a.len()
                || a[d] < b[d]),
    decreases a.len(),
{
    if a.len() == 0 {
        assert(a.take(0) =~= b.take(0));
    } else if b.len() > 0 && a[0] != b[0] {
        assert(a.take(0) =~= b.take(0));
        assert forall|d: int|
            0 < d <= a.len() && d < b.len() implies #[trigger] a.take(d) != b.take(d) by {
            assert(a.take(d)[0] == a[0]);
            assert(b.take(d)[0] == b[0]);
        }
    } else if b.len() > 0 {
        let x = a.drop_first();
        let y = b.drop_first();
        law_lex_first_difference(x, y);
        if lex_less(x, y) {
            let d = choose|d: int|
                0 <= d <= x.len() && d < y.len() && #[trigger] x.take(d) == y.take(d) && (d
                    == x.len() || x[d] < y[d]);
            assert forall|i: int| 0 <= i < d + 1 implies a[i] == b[i] by {
                if i > 0 {
                    assert(x.take(d)[i - 1] == y.take(d)[i - 1]);
                }
            }
            assert(a.take(d + 1) =~= b.take(d + 1));
        }
        if exists|d: int|
            0 <= d <= a.len() && d < b.len() && #[trigger] a.take(d) == b.take(d) && (d == a.len()
                || a[d] < b[d]) {
            let d = choose|d: int|
                0 <= d <= a.len() && d < b.len() && #[trigger] a.take(d) == b.take(d) && (d
                    == a.len() || a[d] < b[d]);
            assert(d > 0);
            assert forall|i: int| 0 <= i < d - 1 implies x[i] == y[i] by {
                assert(a.take(d)[i + 1] == b.take(d)[i + 1]);
            }
            assert(x.take(d - 1) =~= y.take(d - 1));
        }
    }
}

/// Whether one key comes before another.
pub fn key_less(a: &Vec<u32>, b: &Vec<u32>) -> (less: bool)
    ensures
        less == lex_less(a@, b@),
{
    let mut i: usize = 0;
    assert(a@.skip(0) =~= a@);
    assert(b@.skip(0) =~= b@);
    loop
        invariant
            i <= a.len(),
            i <= b.len(),
            lex_less(a@, b@) == lex_less(a@.skip(i as int), b@.skip(i as int)),
        decreases a.len() - i,
    {
        if i == b.len() {
            return false;
        }
        if i == a.len() {
            return true;
        }
        if a[i] != b[i] {
            return a[i] < b[i];
        }
        assert(a@.skip(i as int).drop_first() =~= a@.skip(i + 1));
        assert(b@.skip(i as int).drop_first() =~= b@.skip(i + 1));
        i = i + 1;
    }
}

/// The contents of a list of keys.
pub open spec fn key_views(keys: Seq<Vec<u32>>) -> Seq<Seq<u32>> {
    keys.map_values(|key: Vec<u32>| key@)
}

/// Whether item `i` is ordered before item `j`: by its key, and among equal
/// keys by its position.
pub open spec fn before(keys: Seq<Seq<u32>>, i: usize, j: usize) -> bool {
    lex_less(keys[i as int], keys[j as int]) || (keys[i as int] == keys[j as int] && i < j)
}

pub proof fn lemma_before_transitive(keys: Seq<Seq<u32>>, i: usize, j: usize, k: usize)
    requires
        before(keys, i, j),
        before(keys, j, k),
    ensures
        before(keys, i, k),
{
    if lex_less(keys[i as int], keys[j as int]) && lex_less(keys[j as int], keys[k as int]) {
        lemma_lex_transitive(keys[i as int], keys[j as int], keys[k as int]);
    }
}

/// Every item of the list is ordered before every later one.
pub open spec fn ascending(keys: Seq<Seq<u32>>, list: Seq<usize>) -> bool {
    forall|a: int, b: int|
        0 <= a < b < list.len() ==> before(keys, #[trigger] list[a], #[trigger] list[b])
}

/// The list holds the positions from `from` up to `to`, and no others.
pub open spec fn covers(list: Seq<usize>, from: int, to: int) -> bool {
    &&& list.len() == to - from
    &&& forall|a: int| 0 <= a < list.len() ==> from <= #[trigger] list[a] < to
    &&& forall|x: usize| from <= x < to ==> list.contains(x)
}

/// The list holds the positions of all the keys, in order.
pub open spec fn is_order(keys: Seq<Seq<u32>>, list: Seq<usize>) -> bool {
    covers(list, 0, keys.len() as int) && ascending(keys, list)
}

/// The positions of all the keys, in order.
pub open spec fn order_of(keys: Seq<Seq<u32>>) -> Seq<usize> {
    choose|list: Seq<usize>| is_order(keys, list)
}

/// Two ascending lists of the same items are the same list.
pub proof fn lemma_ascending_unique(keys: Seq<Seq<u32>>, a: Seq<usize>, b: Seq<usize>)
    requires
        ascending(keys, a),
        ascending(keys, b),
        forall|x: usize| a.contains(x) <==> b.contains(x),
    ensures
        a == b,
    decreases a.len(),
{
    if a.len() == 0 {
        if b.len() > 0 {
            assert(b.contains(b[0]));
            assert(a.contains(b[0]));
        }
        assert(a =~= b);
    } else {
        assert(a.contains(a[0]));
        assert(b.contains(a[0]));
        assert(b.contains(b[0]));
        assert(a.contains(b[0]));
        let i = a.index_of(b[0]);
        let j = b.index_of(a[0]);
        lemma_lex_irreflexive(keys[a[0] as int]);
        assert(a[0] == b[0]) by {
            if a[0] != b[0] {
                assert(before(keys, a[0], a[i]));
                assert(before(keys, b[0], b[j]));
                lemma_before_transitive(keys, a[0], b[0], a[0]);
            }
        }
        let x = a.drop_first();
        let y = b.drop_first();
        assert forall|v: usize| x.contains(v) implies y.contains(v) by {
            let k = x.index_of(v);
            assert(a[k + 1] == v);
            assert(a.contains(v));
            let m = b.index_of(v);
            assert(m != 0) by {
                assert(before(keys, a[0], a[k + 1]));
            }
            assert(y[m - 1] == v);
        }
        assert forall|v: usize| y.contains(v) implies x.contains(v) by {
            let k = y.index_of(v);
            assert(b[k + 1] == v);
            assert(b.contains(v));
            let m = a.index_of(v);
            assert(m != 0) by {
                assert(before(keys, b[0], b[k + 1]));
            }
            assert(x[m - 1] == v);
        }
        lemma_ascending_unique(keys, x, y);
        assert(a =~= seq![a[0]] + x);
        assert(b =~= seq![b[0]] + y);
    }
}

/// There is one order of the keys.
pub proof fn lemma_order_unique(keys: Seq<Seq<u32>>, list: Seq<usize>)
    requires
        is_order(keys, list),
    ensures
        order_of(keys) == list,
{
    let other = order_of(keys);
    assert(is_order(keys, other));
    assert forall|x: usize| list.contains(x) <==> other.contains(x) by {
        if list.contains(x) {
            let i = list.index_of(x);
            assert(0 <= list[i] < keys.len());
        }
        if other.contains(x) {
            let i = other.index_of(x);
            assert(0 <= other[i] < keys.len());
        }
    }
    lemma_ascending_unique(keys, list, other);
}

/// How many items at the head of a list are ordered before an item.
spec fn leading(keys: Seq<Seq<u32>>, list: Seq<usize>, item: usize) -> nat
    decreases list.len(),
{
    if list.len() > 0 && before(keys, list[0], item) {
        1 + leading(keys, list.drop_first(), item)
    } else {
        0
    }
}

proof fn lemma_leading(keys: Seq<Seq<u32>>, list: Seq<usize>, item: usize)
    ensures
        leading(keys, list, item) <= list.len(),
        forall|a: int|
            0 <= a < leading(keys, list, item) ==> before(keys, #[trigger] list[a], item),
        leading(keys, list, item) < list.len() ==> !before(
            keys,
            list[leading(keys, list, item) as int],
            item,
        ),
    decreases list.len(),
{
    if list.len() > 0 && before(keys, list[0], item) {
        let rest = list.drop_first();
        lemma_leading(keys, rest, item);
        assert forall|a: int| 0 <= a < leading(keys, list, item) implies before(
            keys,
            #[trigger] list[a],
            item,
        ) by {
            if a > 0 {
                assert(before(keys, rest[a - 1], item));
            }
        }
    }
}

/// The keys have an order.
pub proof fn lemma_order_exists(keys: Seq<Seq<u32>>)
    requires
        keys.len() <= usize::MAX,
    ensures
        is_order(keys, order_of(keys)),
    decreases keys.len(),
{
    if keys.len() == 0 {
        assert(is_order(keys, Seq::empty()));
    } else {
        let rest = keys.drop_last();
        lemma_order_exists(rest);
        let list = order_of(rest);
        let item = (keys.len() - 1) as usize;
        let at = leading(keys, list, item) as int;
        lemma_leading(keys, list, item);
        let all = list.insert(at, item);
        assert forall|a: int| 0 <= a < list.len() implies before(keys, item, #[trigger] list[a])
            || a < at by {
            assert(0 <= list[a] < rest.len());
            if a >= at {
                lemma_lex_total(keys[list[at] as int], keys[item as int]);
                assert(0 <= list[at] < rest.len());
                assert(before(keys, item, list[at]));
                if a > at {
                    assert(before(rest, list[at], list[a]));
                    assert(before(keys, list[at], list[a]));
                    lemma_before_transitive(keys, item, list[at], list[a]);
                }
            }
        }
        assert forall|a: int, b: int| 0 <= a < b < all.len() implies before(
            keys,
            #[trigger] all[a],
            #[trigger] all[b],
        ) by {
            let x = if a < at { a } else { a - 1 };
            let y = if b < at { b } else { b - 1 };
            if a != at && b != at {
                assert(before(rest, list[x], list[y]));
                assert(0 <= list[x] < rest.len() && 0 <= list[y] < rest.len());
            } else if a == at {
                assert(all[b] == list[y]);
            } else {
                assert(all[a] == list[x]);
            }
        }
        assert forall|a: int| 0 <= a < all.len() implies 0 <= #[trigger] all[a] < keys.len() by {
            if a != at {
                let x = if a < at { a } else { a - 1 };
                assert(all[a] == list[x]);
                assert(0 <= list[x] < rest.len());
            }
        }
        assert forall|x: usize| 0 <= x < keys.len() implies all.contains(x) by {
            if x == item {
                assert(all[at] == x);
            } else {
                assert(list.contains(x));
                let i = list.index_of(x);
                let j = if i < at { i } else { i + 1 };
                assert(all[j] == x);
            }
        }
        assert(is_order(keys, all));
    }
}

/// Merges two ascending lists of neighbouring ranges of positions.
fn merge(
    keys: &Vec<Vec<u32>>,
    left: &Vec<usize>,
    right: &Vec<usize>,
    from: usize,
    mid: usize,
    to: usize,
) -> (list: Vec<usize>)
    requires
        from <= mid <= to <= keys.len(),
        covers(left@, from as int, mid as int),
        covers(right@, mid as int, to as int),
        ascending(key_views(keys@), left@),
        ascending(key_views(keys@), right@),
    ensures
        covers(list@, from as int, to as int),
        ascending(key_views(keys@), list@),
{
    let ghost views = key_views(keys@);
    let mut list: Vec<usize> = Vec::new();
    let mut i: usize = 0;
    let mut j: usize = 0;
    while i < left.len() || j < right.len()
        invariant
            views == key_views(keys@),
            from <= mid <= to <= keys.len(),
            covers(left@, from as int, mid as int),
            covers(right@, mid as int, to as int),
            ascending(views, left@),
            ascending(views, right@),
            i <= left.len(),
            j <= right.len(),
            list.len() == i + j,
            ascending(views, list@),
            forall|a: int| 0 <= a < list.len() ==> from <= #[trigger] list@[a] < to,
            forall|a: int| 0 <= a < i ==> list@.contains(#[trigger] left@[a]),
            forall|b: int| 0 <= b < j ==> list@.contains(#[trigger] right@[b]),
            forall|a: int, b: int|
                0 <= a < list.len() && i <= b < left.len() ==> before(
                    views,
                    #[trigger] list@[a],
                    #[trigger] left@[b],
                ),
            forall|a: int, b: int|
                0 <= a < list.len() && j <= b < right.len() ==> before(
                    views,
                    #[trigger] list@[a],
                    #[trigger] right@[b],
                ),
        decreases left.len() - i + (right.len() - j),
    {
        let take_left: bool = if i == left.len() {
            false
        } else if j == right.len() {
            true
        } else {
            assert(from <= left@[i as int] < mid);
            assert(mid <= right@[j as int] < to);
            assert(views[left@[i as int] as int] == keys@[left@[i as int] as int]@);
            assert(views[right@[j as int] as int] == keys@[right@[j as int] as int]@);
            proof {
                lemma_lex_total(
                    views[left@[i as int] as int],
                    views[right@[j as int] as int],
                );
            }
            !key_less(&keys[right[j]], &keys[left[i]])
        };
        let ghost old_list = list@;
        if take_left {
            let ghost item = left@[i as int];
            list.push(left[i]);
            i = i + 1;
            proof {
                assert(list@[list@.len() - 1] == item);
                assert forall|a: int| 0 <= a < i implies list@.contains(#[trigger] left@[a]) by {
                    if a < i - 1 {
                        let k = old_list.index_of(left@[a]);
                        assert(list@[k] == left@[a]);
                    }
                }
                assert forall|b: int| 0 <= b < j implies list@.contains(#[trigger] right@[b]) by {
                    let k = old_list.index_of(right@[b]);
                    assert(list@[k] == right@[b]);
                }
                assert forall|a: int, b: int|
                    0 <= a < list@.len() && j <= b < right@.len() implies before(
                    views,
                    #[trigger] list@[a],
                    #[trigger] right@[b],
                ) by {
                    if a == list@.len() - 1 {
                        assert(before(views, item, right@[j as int]));
                        if b > j {
                            lemma_before_transitive(views, item, right@[j as int], right@[b]);
                        }
                    } else {
                        assert(before(views, old_list[a], right@[b]));
                    }
                }
                assert forall|a: int, b: int|
                    0 <= a < list@.len() && i <= b < left@.len() implies before(
                    views,
                    #[trigger] list@[a],
                    #[trigger] left@[b],
                ) by {
                    if a < list@.len() - 1 {
                        assert(before(views, old_list[a], left@[b]));
                    }
                }
            }
        } else {
            let ghost item = right@[j as int];
            list.push(right[j]);
            j = j + 1;
            proof {
                assert(list@[list@.len() - 1] == item);
                assert forall|a: int| 0 <= a < i implies list@.contains(#[trigger] left@[a]) by {
                    let k = old_list.index_of(left@[a]);
                    assert(list@[k] == left@[a]);
                }
                assert forall|b: int| 0 <= b < j implies list@.contains(#[trigger] right@[b]) by {
                    if b < j - 1 {
                        let k = old_list.index_of(right@[b]);
                        assert(list@[k] == right@[b]);
                    }
                }
                assert forall|a: int, b: int|
                    0 <= a < list@.len() && i <= b < left@.len() implies before(
                    views,
                    #[trigger] list@[a],
                    #[trigger] left@[b],
                ) by {
                    if a == list@.len() - 1 {
                        assert(before(views, item, left@[i as int]));
                        if b > i {
                            lemma_before_transitive(views, item, left@[i as int], left@[b]);
                        }
                    } else {
                        assert(before(views, old_list[a], left@[b]));
                    }
                }
                assert forall|a: int, b: int|
                    0 <= a < list@.len() && j <= b < right@.len() implies before(
                    views,
                    #[trigger] list@[a],
                    #[trigger] right@[b],
                ) by {
                    if a < list@.len() - 1 {
                        assert(before(views, old_list[a], right@[b]));
                    }
                }
            }
        }
    }
    assert forall|x: usize| from <= x < to implies list@.contains(x) by {
        if x < mid {
            assert(left@.contains(x));
            let k = left@.index_of(x);
            assert(left@[k] == x);
        } else {
            assert(right@.contains(x));
            let k = right@.index_of(x);
            assert(right@[k] == x);
        }
    }
    list
}

/// The positions from `from` up to `to`, ordered by their keys.
fn sort_range(keys: &Vec<Vec<u32>>, from: usize, to: usize) -> (list: Vec<usize>)
    requires
        from <= to <= keys.len(),
    ensures
        covers(list@, from as int, to as int),
        ascending(key_views(keys@), list@),
    decreases to - from,
{
    if to - from <= 1 {
        let mut list: Vec<usize> = Vec::new();
        if from < to {
            list.push(from);
            assert(list@[0] == from);
        }
        return list;
    }
    let mid: usize = from + (to - from) / 2;
    let left = sort_range(keys, from, mid);
    let right = sort_range(keys, mid, to);
    merge(keys, &left, &right, from, mid, to)
}

/// The positions of the keys in ascending order; equal keys stay in the
/// order in which they stand.
pub fn sorted_order(keys: &Vec<Vec<u32>>) -> (list: Vec<usize>)
    ensures
        is_order(key_views(keys@), list@),
        list@ == order_of(key_views(keys@)),
{
    let list = sort_range(keys, 0, keys.len());
    proof {
        lemma_order_unique(key_views(keys@), list@);
    }
    list
}

/// An order lists every position once, and ascends by the keys: of two listed
/// items the first has the smaller number where the keys first differ, or ends
/// there, or comes first by its position where the keys are equal.
pub proof fn law_order_ascends(keys: Seq<Seq<u32>>, list: Seq<usize>, a: int, b: int)
    requires
        is_order(keys, list),
        0 <= a < b < list.len(),
    ensures
        list.len() == keys.len(),
        list[a] < keys.len(),
        list[b] < keys.len(),
        list[a] != list[b],
        (keys[list[a] as int] == keys[list[b] as int] && list[a] < list[b]) || exists|d: int|
            0 <= d <= keys[list[a] as int].len() && d < keys[list[b] as int].len()
                && #[trigger] keys[list[a] as int].take(d) == keys[list[b] as int].take(d) && (d
                == keys[list[a] as int].len() || keys[list[a] as int][d]
                < keys[list[b] as int][d]),
{
    assert(before(keys, list[a], list[b]));
    lemma_lex_irreflexive(keys[list[a] as int]);
    law_lex_first_difference(keys[list[a] as int], keys[list[b] as int]);
}

} // verus!
