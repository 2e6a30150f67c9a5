//! Stable sorting.

use vstd::prelude::*;

verus! {

/// A strict weak order on the contents of items.
pub trait Ranking {
    type Item: DeepView;

    /// `a` sorts before `b`.
    spec fn ranks_before(
        &self,
        a: <Self::Item as DeepView>::V,
        b: <Self::Item as DeepView>::V,
    ) -> bool;

    proof fn asymmetric(
        &self,
        a: <Self::Item as DeepView>::V,
        b: <Self::Item as DeepView>::V,
    )
        ensures
            !(self.ranks_before(a, b) && self.ranks_before(b, a)),
    ;

    /// If `a` is not after `b` and `b` is not after `c`, then `a` is not after
    /// `c`.
    proof fn negatively_transitive(
        &self,
        a: <Self::Item as DeepView>::V,
        b: <Self::Item as DeepView>::V,
        c: <Self::Item as DeepView>::V,
    )
        requires
            !self.ranks_before(b, a),
            !self.ranks_before(c, b),
        ensures
            !self.ranks_before(c, a),
    ;

    /// Decides the order.
    fn is_before(&self, a: &Self::Item, b: &Self::Item) -> (before: bool)
        ensures
            before == self.ranks_before(a.deep_view(), b.deep_view()),
    ;
}

/// `order` lists each position below `n` once.
pub open spec fn lists_positions(order: Seq<int>, n: int) -> bool {
    &&& order.len() == n
    &&& forall|i: int| 0 <= i < n ==> 0 <= #[trigger] order[i] < n
    &&& forall|i: int, j: int| 0 <= i < j < n ==> #[trigger] order[i] != #[trigger] order[j]
}

/// `order` is the stable sort of the items: an item stands before another if
/// it sorts before it, or if neither sorts before the other and it came first.
pub open spec fn stably_sorts<A>(
    before: spec_fn(A, A) -> bool,
    items: Seq<A>,
    order: Seq<int>,
) -> bool {
    &&& lists_positions(order, items.len() as int)
    &&& forall|i: int, j: int|
        0 <= i < j < order.len() ==> {
            &&& !before(items[#[trigger] order[j]], items[#[trigger] order[i]])
            &&& before(items[order[i]], items[order[j]]) || order[i] < order[j]
        }
}

/// The order of a ranking.
pub open spec fn ranking_order<R: Ranking>(ranking: R) -> spec_fn(
    <R::Item as DeepView>::V,
    <R::Item as DeepView>::V,
) -> bool {
    |a: <R::Item as DeepView>::V, b: <R::Item as DeepView>::V| ranking.ranks_before(a, b)
}

/// Positions as mathematical integers.
pub open spec fn positions(order: Seq<usize>) -> Seq<int> {
    Seq::new(order.len(), |i: int| order[i] as int)
}

/// What holds of `order` when the first `n` items are sorted into it.
spec fn sorted_so_far<R: Ranking>(
    ranking: R,
    items: Seq<<R::Item as DeepView>::V>,
    order: Seq<int>,
    n: int,
) -> bool {
    &&& lists_positions(order, n)
    &&& forall|i: int, j: int|
        0 <= i < j < n ==> {
            &&& !ranking.ranks_before(items[#[trigger] order[j]], items[#[trigger] order[i]])
            &&& ranking.ranks_before(items[order[i]], items[order[j]]) || order[i] < order[j]
        }
}

/// Sorts items stably: the positions of the items in their new order.
pub fn stable_order<R: Ranking>(ranking: &R, items: &Vec<R::Item>) -> (order: Vec<usize>)
    ensures
        stably_sorts(ranking_order(*ranking), items.deep_view(), positions(order@)),
        order@.len() == items@.len(),
        forall|i: int| 0 <= i < order@.len() ==> #[trigger] order@[i] < items@.len(),
{
    let ghost view = items.deep_view();
    let mut order: Vec<usize> = Vec::with_capacity(items.len());
    let mut n: usize = 0;
    while n < items.len()
        invariant
            n <= items@.len(),
            view == items.deep_view(),
            order@.len() == n,
            forall|i: int| 0 <= i < order@.len() ==> #[trigger] order@[i] < n,
            sorted_so_far(*ranking, view, positions(order@), n as int),
        decreases items@.len() - n,
    {
        let ghost before = positions(order@);
        let mut p: usize = n;
        while p > 0 && ranking.is_before(&items[n], &items[order[p - 1]])
            invariant
                p <= n < items@.len(),
                view == items.deep_view(),
                order@.len() == n,
                before == positions(order@),
                forall|i: int| 0 <= i < order@.len() ==> #[trigger] order@[i] < n,
                forall|i: int|
                    p <= i < n ==> ranking.ranks_before(view[n as int], view[#[trigger] before[i]]),
            decreases p,
        {
            p = p - 1;
            assert(before[p as int] == order@[p as int]);
            assert(view[before[p as int]] == items@[order@[p as int] as int].deep_view());
            assert(view[n as int] == items@[n as int].deep_view());
        }
        proof {
            if p > 0 {
                assert(before[p - 1] == order@[p - 1]);
                assert(view[before[p - 1]] == items@[order@[p - 1] as int].deep_view());
                assert(view[n as int] == items@[n as int].deep_view());
            }
            insertion_keeps_order(*ranking, view, before, n as int, p as int);
        }
        order.insert(p, n);
        assert(positions(order@) =~= before.insert(p as int, n as int));
        assert forall|i: int| 0 <= i < order@.len() implies #[trigger] order@[i] < n + 1 by {
            assert(positions(order@)[i] == order@[i]);
        }
        n = n + 1;
    }
    assert forall|i: int| 0 <= i < order@.len() implies #[trigger] order@[i] < items@.len() by {
        assert(positions(order@)[i] == order@[i]);
    }
    order
}

proof fn insertion_keeps_order<R: Ranking>(
    ranking: R,
    items: Seq<<R::Item as DeepView>::V>,
    before: Seq<int>,
    n: int,
    p: int,
)
    requires
        0 <= p <= n < items.len(),
        sorted_so_far(ranking, items, before, n),
        forall|i: int| p <= i < n ==> ranking.ranks_before(items[n], items[#[trigger] before[i]]),
        p > 0 ==> !ranking.ranks_before(items[n], items[before[p - 1]]),
    ensures
        sorted_so_far(ranking, items, before.insert(p, n), n + 1),
{
    let after = before.insert(p, n);
    assert forall|i: int| 0 <= i < n + 1 implies 0 <= #[trigger] after[i] < n + 1 by {
        if i < p {
            assert(after[i] == before[i]);
        } else if i > p {
            assert(after[i] == before[i - 1]);
        }
    }
    assert forall|i: int, j: int| 0 <= i < j < n + 1 implies #[trigger] after[i]
        != #[trigger] after[j] && !ranking.ranks_before(items[after[j]], items[after[i]]) && (
    ranking.ranks_before(items[after[i]], items[after[j]]) || after[i] < after[j]) by {
        if j < p {
            assert(after[i] == before[i] && after[j] == before[j]);
        } else if j == p {
            assert(after[i] == before[i] && after[j] == n);
            assert(before[i] < n);
            if i < p - 1 {
                ranking.negatively_transitive(
                    items[before[i]],
                    items[before[p - 1]],
                    items[n],
                );
            }
        } else if i < p {
            assert(after[i] == before[i] && after[j] == before[j - 1]);
        } else if i == p {
            assert(after[i] == n && after[j] == before[j - 1]);
            ranking.asymmetric(items[n], items[before[j - 1]]);
        } else {
            assert(after[i] == before[i - 1] && after[j] == before[j - 1]);
        }
    }
}

/// Items have one stable order.
pub proof fn stable_order_is_unique<R: Ranking>(
    ranking: R,
    items: Seq<<R::Item as DeepView>::V>,
    a: Seq<int>,
    b: Seq<int>,
)
    requires
        stably_sorts(ranking_order(ranking), items, a),
        stably_sorts(ranking_order(ranking), items, b),
    ensures
        a == b,
{
    prefix_agrees(ranking, items, a, b, items.len() as int);
    assert(a =~= b);
}

/// Each position below the length stands somewhere in a complete listing.
pub proof fn position_is_listed(order: Seq<int>, n: int, x: int)
    requires
        lists_positions(order, n),
        0 <= x < n,
    ensures
        order.contains(x),
{
    if !order.contains(x) {
        let below = vstd::set_lib::set_int_range(0, n);
        vstd::set_lib::lemma_int_range(0, n);
        assert(order.no_duplicates());
        order.unique_seq_to_set();
        assert(order.to_set().subset_of(below.remove(x))) by {
            assert forall|y: int| order.to_set().contains(y) implies below.remove(x).contains(y) by {
                let i = choose|i: int| 0 <= i < order.len() && order[i] == y;
                assert(0 <= order[i] < n);
            }
        }
        vstd::set_lib::lemma_len_subset(order.to_set(), below.remove(x));
    }
}

proof fn prefix_agrees<R: Ranking>(
    ranking: R,
    items: Seq<<R::Item as DeepView>::V>,
    a: Seq<int>,
    b: Seq<int>,
    m: int,
)
    requires
        stably_sorts(ranking_order(ranking), items, a),
        stably_sorts(ranking_order(ranking), items, b),
        0 <= m <= items.len(),
    ensures
        forall|i: int| 0 <= i < m ==> a[i] == b[i],
    decreases m,
{
    if m > 0 {
        prefix_agrees(ranking, items, a, b, m - 1);
        let k = m - 1;
        if a[k] != b[k] {
            let n = items.len() as int;
            position_is_listed(b, n, a[k]);
            position_is_listed(a, n, b[k]);
            let i = choose|i: int| 0 <= i < b.len() && b[i] == a[k];
            let j = choose|j: int| 0 <= j < a.len() && a[j] == b[k];
            if i < k {
                assert(a[i] == b[i]);
            }
            if j < k {
                assert(a[j] == b[j]);
            }
            assert(i > k && j > k);
            ranking.asymmetric(items[a[k]], items[b[k]]);
            assert(b[k] < b[i] || ranking.ranks_before(items[b[k]], items[b[i]]));
            assert(a[k] < a[j] || ranking.ranks_before(items[a[k]], items[a[j]]));
        }
    }
}

/// Where an item goes among the first `n` of an order.
spec fn place<A>(
    before: spec_fn(A, A) -> bool,
    items: Seq<A>,
    order: Seq<int>,
    item: A,
    n: int,
) -> int
    decreases n,
{
    if n <= 0 {
        0
    } else if before(item, items[order[n - 1]]) {
        place(before, items, order, item, n - 1)
    } else {
        n
    }
}

proof fn place_fits<A>(
    before: spec_fn(A, A) -> bool,
    items: Seq<A>,
    order: Seq<int>,
    item: A,
    n: int,
)
    requires
        0 <= n <= order.len(),
    ensures
        0 <= place(before, items, order, item, n) <= n,
        forall|i: int|
            place(before, items, order, item, n) <= i < n ==> before(
                item,
                items[#[trigger] order[i]],
            ),
        ({
            let p = place(before, items, order, item, n);
            p > 0 ==> !before(item, items[order[p - 1]])
        }),
    decreases n,
{
    if n > 0 && before(item, items[order[n - 1]]) {
        place_fits(before, items, order, item, n - 1);
    }
}

/// Items can be put in a stable order.
pub proof fn stable_order_exists<A>(before: spec_fn(A, A) -> bool, items: Seq<A>) -> (order: Seq<int>)
    requires
        forall|a: A, b: A| !(#[trigger] before(a, b) && before(b, a)),
        forall|a: A, b: A, c: A|
            !#[trigger] before(b, a) && !#[trigger] before(c, b) ==> !before(c, a),
    ensures
        stably_sorts(before, items, order),
    decreases items.len(),
{
    if items.len() == 0 {
        Seq::empty()
    } else {
        let n = items.len() - 1;
        let fewer = items.drop_last();
        let order = stable_order_exists(before, fewer);
        let item = items[n];
        let p = place(before, fewer, order, item, n);
        place_fits(before, fewer, order, item, n);
        let all = order.insert(p, n);
        assert forall|i: int| 0 <= i < n implies items[#[trigger] order[i]] == fewer[order[i]] by {}
        assert forall|i: int| 0 <= i < p implies !before(item, items[#[trigger] order[i]]) by {
            if i < p - 1 {
                assert(!before(fewer[order[p - 1]], fewer[order[i]]));
            }
        }
        assert forall|i: int, j: int| 0 <= i < j < all.len() implies {
            &&& !before(items[#[trigger] all[j]], items[#[trigger] all[i]])
            &&& before(items[all[i]], items[all[j]]) || all[i] < all[j]
        } by {
            let x = if i < p {
                i
            } else {
                i - 1
            };
            let y = if j < p {
                j
            } else {
                j - 1
            };
            if i == p {
                assert(all[j] == order[y]);
                assert(before(item, fewer[order[y]]));
            } else if j == p {
                assert(all[i] == order[x]);
                assert(!before(item, items[order[x]]));
                assert(order[x] < n);
            } else {
                assert(all[i] == order[x] && all[j] == order[y]);
                assert(!before(fewer[order[y]], fewer[order[x]]));
            }
        }
        assert forall|i: int, j: int| 0 <= i < j < all.len() implies #[trigger] all[i]
            != #[trigger] all[j] by {
            let x = if i < p {
                i
            } else {
                i - 1
            };
            let y = if j < p {
                j
            } else {
                j - 1
            };
            if i != p && j != p {
                assert(all[i] == order[x] && all[j] == order[y]);
            }
        }
        all
    }
}

} // verus!
