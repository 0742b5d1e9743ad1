//! Selections: the ways to pick `k` items out of a sorted list, and sums
//! taken over all of them.

use crate::binomial::binomial;
use combinations::Combinations;
use vstd::prelude::*;

verus! {

/// Strictly ascending, hence free of repetitions.
pub open spec fn increasing(s: Seq<usize>) -> bool {
    forall|i: int, j: int| 0 <= i < j < s.len() ==> s[i] < s[j]
}

/// A `k`-selection from `items` is an ascending sequence of `k` of them.
/// Writing selections in ascending order gives each subset one spelling.
pub open spec fn is_selection(items: Seq<usize>, k: nat, s: Seq<usize>) -> bool {
    &&& s.len() == k
    &&& increasing(s)
    &&& forall|i: int| 0 <= i < s.len() ==> items.contains(#[trigger] s[i])
}

/// Dictionary order: where the two first differ, `a` has the smaller item.
pub open spec fn comes_before(a: Seq<usize>, b: Seq<usize>) -> bool {
    exists|p: int|
        0 <= p < a.len() && p < b.len() && a[p] < b[p] && forall|q: int|
            0 <= q < p ==> a[q] == b[q]
}

/// The list holds every `k`-selection from `items` and nothing else, in
/// dictionary order, so each selection stands in it once.
pub open spec fn lists_selections(list: Seq<Seq<usize>>, items: Seq<usize>, k: nat) -> bool {
    &&& forall|j: int| 0 <= j < list.len() ==> is_selection(items, k, #[trigger] list[j])
    &&& forall|i: int, j: int| 0 <= i < j < list.len() ==> comes_before(list[i], list[j])
    &&& forall|s: Seq<usize>| #[trigger]
        is_selection(items, k, s) ==> exists|j: int| 0 <= j < list.len() && list[j] == s
}

/// The contents of a list of vectors.
pub open spec fn views(list: Seq<Vec<usize>>) -> Seq<Seq<usize>> {
    Seq::new(list.len(), |j: int| list[j]@)
}

/// The sum of `w(e + suffix)` over the entries `e` of a list.
pub open spec fn sum_list(
    list: Seq<Seq<usize>>,
    suffix: Seq<usize>,
    w: spec_fn(Seq<usize>) -> nat,
) -> nat
    decreases list.len(),
{
    if list.len() == 0 {
        0
    } else {
        sum_list(list.drop_last(), suffix, w) + w(list.last() + suffix)
    }
}

/// The sum of `w(s + suffix)` over all `k`-selections `s` from `items`:
/// a selection either leaves the last item out, or ends with it.
pub open spec fn sum_sel(
    items: Seq<usize>,
    k: int,
    suffix: Seq<usize>,
    w: spec_fn(Seq<usize>) -> nat,
) -> nat
    decreases items.len(),
{
    if k < 0 {
        0
    } else if items.len() == 0 {
        if k == 0 {
            w(suffix)
        } else {
            0
        }
    } else {
        sum_sel(items.drop_last(), k, suffix, w) + sum_sel(
            items.drop_last(),
            k - 1,
            seq![items.last()] + suffix,
            w,
        )
    }
}

/// How often `s` stands in the list.
spec fn occurrences(list: Seq<Seq<usize>>, s: Seq<usize>) -> nat
    decreases list.len(),
{
    if list.len() == 0 {
        0
    } else {
        occurrences(list.drop_last(), s) + if list.last() == s {
            1nat
        } else {
            0nat
        }
    }
}

/// The entries that do not end with `x`.
spec fn without_last(list: Seq<Seq<usize>>, x: usize) -> Seq<Seq<usize>>
    decreases list.len(),
{
    if list.len() == 0 {
        Seq::empty()
    } else if list.last().len() > 0 && list.last().last() == x {
        without_last(list.drop_last(), x)
    } else {
        without_last(list.drop_last(), x).push(list.last())
    }
}

/// The entries that end with `x`, each without that last item.
spec fn with_last(list: Seq<Seq<usize>>, x: usize) -> Seq<Seq<usize>>
    decreases list.len(),
{
    if list.len() == 0 {
        Seq::empty()
    } else if list.last().len() > 0 && list.last().last() == x {
        with_last(list.drop_last(), x).push(list.last().drop_last())
    } else {
        with_last(list.drop_last(), x)
    }
}

proof fn lemma_occurrences_member(list: Seq<Seq<usize>>, j: int)
    requires
        0 <= j < list.len(),
    ensures
        occurrences(list, list[j]) >= 1,
    decreases list.len(),
{
    if j < list.len() - 1 {
        lemma_occurrences_member(list.drop_last(), j);
    }
}

proof fn lemma_occurrences_witness(list: Seq<Seq<usize>>, s: Seq<usize>) -> (j: int)
    requires
        occurrences(list, s) >= 1,
    ensures
        0 <= j < list.len(),
        list[j] == s,
    decreases list.len(),
{
    if list.last() == s {
        list.len() - 1
    } else {
        lemma_occurrences_witness(list.drop_last(), s)
    }
}

proof fn lemma_occurrences_distinct(list: Seq<Seq<usize>>, s: Seq<usize>)
    requires
        forall|i: int, j: int| 0 <= i < j < list.len() ==> list[i] != list[j],
    ensures
        occurrences(list, s) <= 1,
    decreases list.len(),
{
    if list.len() > 0 {
        let front = list.drop_last();
        lemma_occurrences_distinct(front, s);
        if list.last() == s && occurrences(front, s) >= 1 {
            let j = lemma_occurrences_witness(front, s);
            assert(list[j] == list[list.len() - 1]);
        }
    }
}

proof fn lemma_occurrences_all_equal(list: Seq<Seq<usize>>, s: Seq<usize>)
    requires
        forall|j: int| 0 <= j < list.len() ==> list[j] == s,
    ensures
        occurrences(list, s) == list.len(),
    decreases list.len(),
{
    if list.len() > 0 {
        lemma_occurrences_all_equal(list.drop_last(), s);
    }
}

/// The list holds each `k`-selection exactly once and nothing else, said
/// by counting.
spec fn exactly_once(list: Seq<Seq<usize>>, items: Seq<usize>, k: nat) -> bool {
    forall|s: Seq<usize>| #[trigger]
        occurrences(list, s) == if is_selection(items, k, s) {
            1nat
        } else {
            0nat
        }
}

proof fn lemma_lists_exactly_once(list: Seq<Seq<usize>>, items: Seq<usize>, k: nat)
    requires
        lists_selections(list, items, k),
    ensures
        exactly_once(list, items, k),
{
    assert forall|s: Seq<usize>| #[trigger]
        occurrences(list, s) == if is_selection(items, k, s) {
            1nat
        } else {
            0nat
        } by {
        assert forall|i: int, j: int| 0 <= i < j < list.len() implies list[i] != list[j] by {
            assert(comes_before(list[i], list[j]));
        }
        lemma_occurrences_distinct(list, s);
        if is_selection(items, k, s) {
            let j = choose|j: int| 0 <= j < list.len() && list[j] == s;
            lemma_occurrences_member(list, j);
        } else if occurrences(list, s) >= 1 {
            let j = lemma_occurrences_witness(list, s);
            assert(is_selection(items, k, list[j]));
        }
    }
}

proof fn lemma_split_sum(
    list: Seq<Seq<usize>>,
    x: usize,
    suffix: Seq<usize>,
    w: spec_fn(Seq<usize>) -> nat,
)
    ensures
        sum_list(list, suffix, w) == sum_list(without_last(list, x), suffix, w) + sum_list(
            with_last(list, x),
            seq![x] + suffix,
            w,
        ),
    decreases list.len(),
{
    if list.len() > 0 {
        let front = list.drop_last();
        let e = list.last();
        lemma_split_sum(front, x, suffix, w);
        if e.len() > 0 && e.last() == x {
            let b = with_last(list, x);
            assert(b.drop_last() =~= with_last(front, x));
            assert(b.last() == e.drop_last());
            assert(e.drop_last() + (seq![x] + suffix) =~= e + suffix);
        } else {
            let a = without_last(list, x);
            assert(a.drop_last() =~= without_last(front, x));
            assert(a.last() == e);
        }
    }
}

proof fn lemma_occurrences_without_last(list: Seq<Seq<usize>>, x: usize, s: Seq<usize>)
    ensures
        occurrences(without_last(list, x), s) == if s.len() > 0 && s.last() == x {
            0nat
        } else {
            occurrences(list, s)
        },
    decreases list.len(),
{
    if list.len() > 0 {
        let front = list.drop_last();
        let e = list.last();
        lemma_occurrences_without_last(front, x, s);
        if e.len() > 0 && e.last() == x {
        } else {
            let a = without_last(list, x);
            assert(a.drop_last() =~= without_last(front, x));
            assert(a.last() == e);
        }
    }
}

proof fn lemma_occurrences_with_last(list: Seq<Seq<usize>>, x: usize, s: Seq<usize>)
    ensures
        occurrences(with_last(list, x), s) == occurrences(list, s.push(x)),
    decreases list.len(),
{
    if list.len() > 0 {
        let front = list.drop_last();
        let e = list.last();
        lemma_occurrences_with_last(front, x, s);
        if e.len() > 0 && e.last() == x {
            let b = with_last(list, x);
            assert(b.drop_last() =~= with_last(front, x));
            assert(b.last() == e.drop_last());
            if e.drop_last() == s {
                assert(e =~= s.push(x));
            }
            if e == s.push(x) {
                assert(e.drop_last() =~= s);
            }
        } else {
            if e == s.push(x) {
                assert(e.last() == x);
            }
        }
    }
}

/// In an ascending list every item is at most the last one, and only the
/// last one reaches it.
proof fn lemma_increasing_last(items: Seq<usize>, v: usize)
    requires
        increasing(items),
        items.contains(v),
    ensures
        v <= items.last(),
        v != items.last() ==> items.drop_last().contains(v),
        !items.drop_last().contains(items.last()),
{
    let i = choose|i: int| 0 <= i < items.len() && items[i] == v;
    if i < items.len() - 1 {
        assert(items.drop_last()[i] == v);
    }
    if items.drop_last().contains(items.last()) {
        let j = choose|j: int| 0 <= j < items.drop_last().len() && items.drop_last()[j] == items.last();
        assert(items[j] < items[items.len() - 1]);
    }
}

proof fn lemma_selection_without_last(items: Seq<usize>, k: nat, s: Seq<usize>)
    requires
        increasing(items),
        items.len() > 0,
    ensures
        is_selection(items.drop_last(), k, s) <==> is_selection(items, k, s) && !(s.len() > 0
            && s.last() == items.last()),
{
    let x = items.last();
    let rest = items.drop_last();
    if is_selection(rest, k, s) {
        assert forall|i: int| 0 <= i < s.len() implies items.contains(#[trigger] s[i]) by {
            let j = choose|j: int| 0 <= j < rest.len() && rest[j] == s[i];
            assert(items[j] == s[i]);
        }
        if s.len() > 0 && s.last() == x {
            assert(rest.contains(s[s.len() - 1]));
            lemma_increasing_last(items, x);
        }
    }
    if is_selection(items, k, s) && !(s.len() > 0 && s.last() == x) {
        assert forall|i: int| 0 <= i < s.len() implies rest.contains(#[trigger] s[i]) by {
            lemma_increasing_last(items, s[i]);
            if s[i] == x {
                // an item after the largest one would have to be larger still
                assert(i < s.len() - 1);
                assert(s[i] < s[s.len() - 1]);
                lemma_increasing_last(items, s[s.len() - 1]);
            }
        }
    }
}

proof fn lemma_selection_with_last(items: Seq<usize>, k: nat, s: Seq<usize>)
    requires
        increasing(items),
        items.len() > 0,
    ensures
        is_selection(items, k, s.push(items.last())) <==> k > 0 && is_selection(
            items.drop_last(),
            (k - 1) as nat,
            s,
        ),
{
    let x = items.last();
    let rest = items.drop_last();
    let sx = s.push(x);
    if is_selection(items, k, sx) {
        assert forall|i: int, j: int| 0 <= i < j < s.len() implies s[i] < s[j] by {
            assert(sx[i] < sx[j]);
        }
        assert forall|i: int| 0 <= i < s.len() implies rest.contains(#[trigger] s[i]) by {
            assert(sx[i] == s[i]);
            assert(items.contains(sx[i]));
            assert(sx[i] < sx[s.len() as int]);
            lemma_increasing_last(items, s[i]);
        }
    }
    if k > 0 && is_selection(rest, (k - 1) as nat, s) {
        assert forall|i: int, j: int| 0 <= i < j < sx.len() implies sx[i] < sx[j] by {
            if j == s.len() {
                assert(rest.contains(s[i]));
                let p = choose|p: int| 0 <= p < rest.len() && rest[p] == s[i];
                assert(items[p] < items[items.len() - 1]);
            } else {
                assert(s[i] < s[j]);
            }
        }
        assert forall|i: int| 0 <= i < sx.len() implies items.contains(#[trigger] sx[i]) by {
            if i == s.len() {
                assert(items[items.len() - 1] == x);
            } else {
                assert(rest.contains(s[i]));
                let p = choose|p: int| 0 <= p < rest.len() && rest[p] == s[i];
                assert(items[p] == s[i]);
            }
        }
    }
}

/// Summing over a list that holds each `k`-selection once is summing over
/// the `k`-selections: the entries that end with the last item stand for
/// the selections that hold it, the others for those that leave it out.
proof fn lemma_sum_over_list(
    list: Seq<Seq<usize>>,
    items: Seq<usize>,
    k: nat,
    suffix: Seq<usize>,
    w: spec_fn(Seq<usize>) -> nat,
)
    requires
        increasing(items),
        exactly_once(list, items, k),
    ensures
        sum_list(list, suffix, w) == sum_sel(items, k as int, suffix, w),
    decreases items.len(),
{
    if items.len() == 0 {
        let nil = Seq::<usize>::empty();
        if list.len() > 0 {
            assert forall|j: int| 0 <= j < list.len() implies list[j] == nil by {
                lemma_occurrences_member(list, j);
                assert(is_selection(items, k, list[j]));
                if list[j].len() > 0 {
                    assert(items.contains(list[j][0]));
                }
                assert(list[j] =~= nil);
            }
            // the empty selection is the only one, so the list has one entry
            lemma_occurrences_all_equal(list, nil);
            lemma_occurrences_member(list, 0);
            assert(is_selection(items, k, nil));
            assert(list.last() + suffix =~= suffix);
            assert(sum_list(list.drop_last(), suffix, w) == 0);
        } else if k == 0 {
            assert(is_selection(items, k, nil));
            assert(occurrences(list, nil) == 1);
        }
    } else {
        let x = items.last();
        let rest = items.drop_last();
        let a = without_last(list, x);
        let b = with_last(list, x);
        lemma_split_sum(list, x, suffix, w);
        assert(increasing(rest));
        assert forall|s: Seq<usize>| #[trigger]
            occurrences(a, s) == if is_selection(rest, k, s) {
                1nat
            } else {
                0nat
            } by {
            lemma_occurrences_without_last(list, x, s);
            lemma_selection_without_last(items, k, s);
            assert(occurrences(list, s) == if is_selection(items, k, s) { 1nat } else { 0nat });
        }
        lemma_sum_over_list(a, rest, k, suffix, w);
        if k > 0 {
            assert forall|s: Seq<usize>| #[trigger]
                occurrences(b, s) == if is_selection(rest, (k - 1) as nat, s) {
                    1nat
                } else {
                    0nat
                } by {
                lemma_occurrences_with_last(list, x, s);
                lemma_selection_with_last(items, k, s);
                assert(occurrences(list, s.push(x)) == if is_selection(items, k, s.push(x)) {
                    1nat
                } else {
                    0nat
                });
            }
            lemma_sum_over_list(b, rest, (k - 1) as nat, seq![x] + suffix, w);
        } else {
            if b.len() > 0 {
                lemma_occurrences_member(b, 0);
                lemma_occurrences_with_last(list, x, b[0]);
                assert(occurrences(list, b[0].push(x)) == if is_selection(items, k, b[0].push(x)) {
                    1nat
                } else {
                    0nat
                });
            }
            assert(b.len() == 0);
            assert(sum_sel(rest, -1, seq![x] + suffix, w) == 0);
        }
    }
}

/// An ascending sequence drawn from `items` that is at least as long as
/// `items` is `items` itself.
pub proof fn lemma_full_selection(items: Seq<usize>, s: Seq<usize>)
    requires
        increasing(items),
        is_selection(items, s.len(), s),
        s.len() >= items.len(),
    ensures
        s == items,
    decreases items.len(),
{
    if items.len() == 0 {
        if s.len() > 0 {
            assert(items.contains(s[0]));
        }
        assert(s =~= items);
    } else {
        let x = items.last();
        let rest = items.drop_last();
        let front = s.drop_last();
        let top = s.last();
        assert(items.contains(s[s.len() - 1]));
        lemma_increasing_last(items, top);
        assert forall|i: int| 0 <= i < front.len() implies rest.contains(#[trigger] front[i]) by {
            assert(items.contains(s[i]));
            assert(s[i] < s[s.len() - 1]);
            lemma_increasing_last(items, s[i]);
        }
        lemma_full_selection(rest, front);
        if top != x {
            // `top` would then stand in `rest`, at or below its last item
            assert(rest.contains(top));
            if rest.len() > 0 {
                lemma_increasing_last(rest, top);
                assert(front[front.len() - 1] < top);
            }
        }
        assert(s =~= front.push(top));
        assert(items =~= rest.push(x));
    }
}

/// Every `k`-selection weighs `w`, and there are `binomial(n, k)` of them.
pub proof fn lemma_sum_sel_bound(
    items: Seq<usize>,
    k: int,
    suffix: Seq<usize>,
    w: spec_fn(Seq<usize>) -> nat,
    cap: nat,
)
    requires
        forall|s: Seq<usize>| #[trigger] w(s) <= cap,
    ensures
        sum_sel(items, k, suffix, w) <= cap * binomial(items.len(), k),
    decreases items.len(),
{
    let n = items.len();
    if k < 0 {
    } else if n == 0 {
        assert(w(suffix) <= cap);
        assert(cap * 0 == 0 && cap * 1 == cap) by (nonlinear_arith);
    } else {
        let rest = items.drop_last();
        let m = (n - 1) as nat;
        lemma_sum_sel_bound(rest, k, suffix, w, cap);
        lemma_sum_sel_bound(rest, k - 1, seq![items.last()] + suffix, w, cap);
        if k == 0 {
            assert(sum_sel(rest, -1, seq![items.last()] + suffix, w) == 0);
            assert(binomial(m, 0) == 1);
        } else {
            assert(cap * binomial(n, k) == cap * binomial(m, k) + cap * binomial(m, k - 1))
                by (nonlinear_arith)
                requires
                    binomial(n, k) == binomial(m, k - 1) + binomial(m, k),
            ;
        }
    }
}

/// A larger weight gives a larger sum.
pub proof fn lemma_sum_sel_monotone(
    items: Seq<usize>,
    k: int,
    suffix: Seq<usize>,
    w1: spec_fn(Seq<usize>) -> nat,
    w2: spec_fn(Seq<usize>) -> nat,
)
    requires
        forall|s: Seq<usize>| #[trigger] w1(s) <= w2(s),
    ensures
        sum_sel(items, k, suffix, w1) <= sum_sel(items, k, suffix, w2),
    decreases items.len(),
{
    if k < 0 {
    } else if items.len() == 0 {
        assert(w1(suffix) <= w2(suffix));
    } else {
        lemma_sum_sel_monotone(items.drop_last(), k, suffix, w1, w2);
        lemma_sum_sel_monotone(items.drop_last(), k - 1, seq![items.last()] + suffix, w1, w2);
    }
}

/// Every item of `s` is one of `items`.
pub open spec fn drawn_from(s: Seq<usize>, items: Seq<usize>) -> bool {
    forall|i: int| 0 <= i < s.len() ==> items.contains(#[trigger] s[i])
}

/// Two weights that agree on everything the sum looks at give the same
/// sum.
pub proof fn lemma_sum_sel_equal(
    items: Seq<usize>,
    k: int,
    suffix1: Seq<usize>,
    w1: spec_fn(Seq<usize>) -> nat,
    suffix2: Seq<usize>,
    w2: spec_fn(Seq<usize>) -> nat,
)
    requires
        forall|s: Seq<usize>| #[trigger] drawn_from(s, items) ==> w1(s + suffix1) == w2(s + suffix2),
    ensures
        sum_sel(items, k, suffix1, w1) == sum_sel(items, k, suffix2, w2),
    decreases items.len(),
{
    if k < 0 {
    } else if items.len() == 0 {
        let nil = Seq::<usize>::empty();
        assert(drawn_from(nil, items));
        assert(nil + suffix1 =~= suffix1);
        assert(nil + suffix2 =~= suffix2);
    } else {
        let rest = items.drop_last();
        let x = items.last();
        assert forall|s: Seq<usize>| #[trigger] drawn_from(s, rest) implies w1(s + suffix1) == w2(
            s + suffix2,
        ) by {
            assert forall|i: int| 0 <= i < s.len() implies items.contains(#[trigger] s[i]) by {
                let j = choose|j: int| 0 <= j < rest.len() && rest[j] == s[i];
                assert(items[j] == s[i]);
            }
            assert(drawn_from(s, items));
        }
        lemma_sum_sel_equal(rest, k, suffix1, w1, suffix2, w2);
        assert forall|s: Seq<usize>| #[trigger] drawn_from(s, rest) implies w1(
            s + (seq![x] + suffix1),
        ) == w2(s + (seq![x] + suffix2)) by {
            let sx = s.push(x);
            assert forall|i: int| 0 <= i < sx.len() implies items.contains(#[trigger] sx[i]) by {
                if i < s.len() {
                    let j = choose|j: int| 0 <= j < rest.len() && rest[j] == s[i];
                    assert(items[j] == sx[i]);
                } else {
                    assert(items[items.len() - 1] == sx[i]);
                }
            }
            assert(drawn_from(sx, items));
            assert(sx + suffix1 =~= s + (seq![x] + suffix1));
            assert(sx + suffix2 =~= s + (seq![x] + suffix2));
        }
        lemma_sum_sel_equal(rest, k - 1, seq![x] + suffix1, w1, seq![x] + suffix2, w2);
    }
}

/// A weight that vanishes on everything the sum looks at gives zero.
pub proof fn lemma_sum_sel_zero(
    items: Seq<usize>,
    k: int,
    suffix: Seq<usize>,
    w: spec_fn(Seq<usize>) -> nat,
)
    requires
        forall|s: Seq<usize>| #[trigger] drawn_from(s, items) ==> w(s + suffix) == 0,
    ensures
        sum_sel(items, k, suffix, w) == 0,
{
    let none = |s: Seq<usize>| 0nat;
    lemma_sum_sel_equal(items, k, suffix, w, suffix, none);
    assert forall|s: Seq<usize>| #[trigger] none(s) <= 0nat by {}
    lemma_sum_sel_bound(items, k, suffix, none, 0);
    assert(0nat * binomial(items.len(), k) == 0) by (nonlinear_arith);
}

/// There is no way to select more items than there are.
pub proof fn lemma_sum_sel_beyond(
    items: Seq<usize>,
    k: int,
    suffix: Seq<usize>,
    w: spec_fn(Seq<usize>) -> nat,
)
    requires
        k > items.len(),
    ensures
        sum_sel(items, k, suffix, w) == 0,
    decreases items.len(),
{
    if items.len() > 0 {
        lemma_sum_sel_beyond(items.drop_last(), k, suffix, w);
        lemma_sum_sel_beyond(items.drop_last(), k - 1, seq![items.last()] + suffix, w);
    }
}

/// The weight that counts every selection once.
pub open spec fn unit_weight() -> spec_fn(Seq<usize>) -> nat {
    |s: Seq<usize>| 1nat
}

/// There are `binomial(n, k)` ways to select `k` of `n` items.
pub proof fn lemma_count_selections(items: Seq<usize>, k: int, suffix: Seq<usize>)
    ensures
        sum_sel(items, k, suffix, unit_weight()) == binomial(items.len(), k),
    decreases items.len(),
{
    if k >= 0 && items.len() > 0 {
        lemma_count_selections(items.drop_last(), k, suffix);
        lemma_count_selections(items.drop_last(), k - 1, seq![items.last()] + suffix);
        if k == 0 {
            assert(sum_sel(items.drop_last(), -1, seq![items.last()] + suffix, unit_weight()) == 0);
            assert(binomial((items.len() - 1) as nat, 0) == 1);
        }
    }
}

proof fn lemma_sum_list_unit(list: Seq<Seq<usize>>, suffix: Seq<usize>)
    ensures
        sum_list(list, suffix, unit_weight()) == list.len(),
    decreases list.len(),
{
    if list.len() > 0 {
        lemma_sum_list_unit(list.drop_last(), suffix);
    }
}

/// A list that holds each `k`-selection of `n` items once has
/// `binomial(n, k)` entries.
pub proof fn lemma_list_len(list: Seq<Seq<usize>>, items: Seq<usize>, k: nat)
    requires
        increasing(items),
        lists_selections(list, items, k),
    ensures
        list.len() == binomial(items.len(), k as int),
{
    let nil = Seq::<usize>::empty();
    lemma_lists_exactly_once(list, items, k);
    lemma_sum_over_list(list, items, k, nil, unit_weight());
    lemma_sum_list_unit(list, nil);
    lemma_count_selections(items, k as int, nil);
}

/// Summing over a list of all `k`-selections is summing over the
/// `k`-selections.
pub proof fn lemma_sum_over_selections(
    list: Seq<Seq<usize>>,
    items: Seq<usize>,
    k: nat,
    w: spec_fn(Seq<usize>) -> nat,
)
    requires
        increasing(items),
        lists_selections(list, items, k),
    ensures
        sum_list(list, Seq::empty(), w) == sum_sel(items, k as int, Seq::empty(), w),
{
    lemma_lists_exactly_once(list, items, k);
    lemma_sum_over_list(list, items, k, Seq::empty(), w);
}

/// All ways to pick `k` of the given items, from the `combinations` crate.
///
/// Trusted: for distinct items and `0 < k < items.len()`,
/// `Combinations::new(items, k)` sorts the items, starts with the first
/// `k` of them and then always moves on to the next ascending index tuple,
/// so it yields every ascending `k`-selection, in dictionary order.
/// Outside that range of `k` it panics, hence the `requires`.
#[verifier::external_body]
fn combinations_of(items: &Vec<usize>, k: usize) -> (subsets: Vec<Vec<usize>>)
    requires
        increasing(items@),
        0 < k < items.len(),
    ensures
        lists_selections(views(subsets@), items@, k as nat),
{
    Combinations::new(items.clone(), k).collect()
}

/// All ways to pick `k` of the given ascending items, in dictionary
/// order; each way is itself ascending. There is one way to pick nothing
/// and one to pick everything, and none to pick more than there is.
pub fn subsets_of_size(items: &Vec<usize>, k: usize) -> (subsets: Vec<Vec<usize>>)
    requires
        increasing(items@),
    ensures
        lists_selections(views(subsets@), items@, k as nat),
        subsets.len() == binomial(items.len() as nat, k as int),
{
    let mut subsets: Vec<Vec<usize>> = Vec::new();
    if k == 0 {
        subsets.push(Vec::new());
        proof {
            let list = views(subsets@);
            assert(list[0] =~= Seq::<usize>::empty());
            assert forall|s: Seq<usize>| #[trigger] is_selection(items@, 0, s) implies exists|
                j: int,
            | 0 <= j < list.len() && list[j] == s by {
                assert(s =~= list[0]);
            }
        }
    } else if k == items.len() {
        subsets.push(items.clone());
        proof {
            let list = views(subsets@);
            assert(list[0] == items@);
            assert(is_selection(items@, k as nat, items@)) by {
                assert forall|i: int| 0 <= i < items@.len() implies items@.contains(
                    #[trigger] items@[i],
                ) by {}
            }
            assert forall|s: Seq<usize>| #[trigger] is_selection(items@, k as nat, s) implies exists|
                j: int,
            | 0 <= j < list.len() && list[j] == s by {
                lemma_full_selection(items@, s);
            }
        }
    } else if k < items.len() {
        subsets = combinations_of(items, k);
    } else {
        proof {
            let list = views(subsets@);
            assert forall|s: Seq<usize>| #[trigger] is_selection(items@, k as nat, s) implies exists|
                j: int,
            | 0 <= j < list.len() && list[j] == s by {
                lemma_full_selection(items@, s);
            }
        }
    }
    proof {
        lemma_list_len(views(subsets@), items@, k as nat);
    }
    subsets
}

} // verus!
