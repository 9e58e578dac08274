use crate::derivation::{over_lines, over_pairs, Candidate};
use vstd::prelude::*;

verus! {

/// The tuple `t` with each of the indices before `n` put in front of it, in
/// ascending order of the index.
pub open spec fn with_first(n: int, t: Seq<usize>) -> Seq<Seq<usize>>
    decreases n,
{
    if n <= 0 {
        Seq::empty()
    } else {
        with_first(n - 1, t).push(seq![(n - 1) as usize] + t)
    }
}

/// Each of the tuples with each of the indices before `n` put in front of
/// it: the tuples in their order, and for each the indices in ascending
/// order.
pub open spec fn expand(tuples: Seq<Seq<usize>>, n: int) -> Seq<Seq<usize>>
    decreases tuples.len(),
{
    if tuples.len() == 0 {
        Seq::empty()
    } else {
        expand(tuples.drop_last(), n) + with_first(n, tuples.last())
    }
}

/// Every tuple of `dimension` indices before `n`, the first index running
/// fastest.
pub open spec fn index_tuples(n: int, dimension: nat) -> Seq<Seq<usize>>
    decreases dimension,
{
    if dimension == 0 {
        seq![Seq::empty()]
    } else {
        expand(index_tuples(n, (dimension - 1) as nat), n)
    }
}

/// The candidates of a rule that looks at a tuple of lines, for the given
/// tuples in their order.
pub open spec fn over_tuples(
    tuples: Seq<Seq<usize>>,
    rule: spec_fn(Seq<usize>) -> Seq<Candidate>,
) -> Seq<Candidate>
    decreases tuples.len(),
{
    if tuples.len() == 0 {
        Seq::empty()
    } else {
        over_tuples(tuples.drop_last(), rule) + rule(tuples.last())
    }
}

/// The candidates for two runs of tuples one after the other are those for
/// their concatenation.
pub proof fn lemma_over_tuples_concat(
    a: Seq<Seq<usize>>,
    b: Seq<Seq<usize>>,
    rule: spec_fn(Seq<usize>) -> Seq<Candidate>,
)
    ensures
        over_tuples(a + b, rule) == over_tuples(a, rule) + over_tuples(b, rule),
    decreases b.len(),
{
    if b.len() == 0 {
        assert(a + b =~= a);
        assert(over_tuples(a, rule) + over_tuples(b, rule) =~= over_tuples(a, rule));
    } else {
        assert((a + b).drop_last() =~= a + b.drop_last());
        assert((a + b).last() == b.last());
        lemma_over_tuples_concat(a, b.drop_last(), rule);
        assert(over_tuples(a + b, rule) =~= over_tuples(a, rule) + over_tuples(b, rule));
    }
}

/// Rules that derive the same from each of the lines before `n` derive the
/// same from all of them.
pub proof fn lemma_over_lines_same(
    n: int,
    one: spec_fn(int) -> Seq<Candidate>,
    other: spec_fn(int) -> Seq<Candidate>,
)
    requires
        forall|i: int| 0 <= i < n ==> #[trigger] one(i) == other(i),
    ensures
        over_lines(n, one) == over_lines(n, other),
    decreases n,
{
    if n > 0 {
        lemma_over_lines_same(n - 1, one, other);
    }
}

/// The candidates for a tuple with each index put in front of it are those
/// of the rule that looks at the index.
pub proof fn lemma_over_with_first(
    n: int,
    t: Seq<usize>,
    rule: spec_fn(Seq<usize>) -> Seq<Candidate>,
)
    requires
        n <= usize::MAX,
    ensures
        over_tuples(with_first(n, t), rule) == over_lines(
            n,
            |i: int| rule(seq![i as usize] + t),
        ),
    decreases n,
{
    if n > 0 {
        lemma_over_with_first(n - 1, t, rule);
        let tuples = with_first(n, t);
        assert(tuples.drop_last() =~= with_first(n - 1, t));
    }
}

/// The pairs of lines, in the order in which the rules look at them, are
/// the tuples of two indices.
pub proof fn lemma_pairs_are_tuples(n: int, rule: spec_fn(int, int) -> Seq<Candidate>)
    requires
        0 <= n <= usize::MAX,
    ensures
        over_pairs(n, rule) == over_tuples(
            index_tuples(n, 2),
            |t: Seq<usize>| rule(t[0] as int, t[1] as int),
        ),
{
    let at = |t: Seq<usize>| rule(t[0] as int, t[1] as int);
    let rows = |j: int| over_lines(n, |i: int| rule(i, j));
    let none = Seq::<usize>::empty();
    assert(index_tuples(n, 0) == seq![none]);
    assert(seq![none].drop_last() =~= Seq::<Seq<usize>>::empty());
    assert(index_tuples(n, 1) =~= with_first(n, none)) by {
        reveal_with_fuel(index_tuples, 2);
        reveal_with_fuel(expand, 2);
    }
    assert(index_tuples(n, 2) == expand(with_first(n, none), n));
    lemma_rows_are_tuples(n, n, rule);
}

/// The pairs whose second line stands before `m` are the tuples of two
/// indices whose second index does.
pub proof fn lemma_rows_are_tuples(n: int, m: int, rule: spec_fn(int, int) -> Seq<Candidate>)
    requires
        0 <= m <= n <= usize::MAX,
    ensures
        over_lines(m, |j: int| over_lines(n, |i: int| rule(i, j))) == over_tuples(
            expand(with_first(m, Seq::<usize>::empty()), n),
            |t: Seq<usize>| rule(t[0] as int, t[1] as int),
        ),
    decreases m,
{
    let at = |t: Seq<usize>| rule(t[0] as int, t[1] as int);
    let rows = |j: int| over_lines(n, |i: int| rule(i, j));
    let none = Seq::<usize>::empty();
    if m > 0 {
        lemma_rows_are_tuples(n, m - 1, rule);
        let firsts = with_first(m, none);
        let last = seq![(m - 1) as usize] + none;
        assert(firsts.drop_last() =~= with_first(m - 1, none));
        assert(firsts.last() == last);
        assert(expand(firsts, n) == expand(with_first(m - 1, none), n) + with_first(n, last));
        lemma_over_tuples_concat(expand(with_first(m - 1, none), n), with_first(n, last), at);
        lemma_over_with_first(n, last, at);
        let one = |i: int| at(seq![i as usize] + last);
        let other = |i: int| rule(i, m - 1);
        assert forall|i: int| 0 <= i < n implies #[trigger] one(i) == other(i) by {
            let t = seq![i as usize] + last;
            assert(t[0] == i as usize);
            assert(t[1] == (m - 1) as usize);
        }
        lemma_over_lines_same(n, one, other);
        assert(rows(m - 1) == over_lines(n, other));
    }
}

/// Whether `t` is a tuple of `dimension` indices before `n`.
pub open spec fn within(t: Seq<usize>, n: int, dimension: nat) -> bool {
    t.len() == dimension && forall|d: int| 0 <= d < t.len() ==> #[trigger] t[d] < n
}

/// A tuple of indices before `n`, with an index before `m` put in front of
/// it, is a tuple of indices before `n`, longer by one.
pub proof fn lemma_with_first_within(m: int, n: int, t: Seq<usize>, dimension: nat)
    requires
        0 <= m <= n <= usize::MAX,
        within(t, n, dimension),
    ensures
        forall|k: int|
            0 <= k < with_first(m, t).len() ==> within(
                #[trigger] with_first(m, t)[k],
                n,
                dimension + 1,
            ),
    decreases m,
{
    if m > 0 {
        lemma_with_first_within(m - 1, n, t, dimension);
        let all = with_first(m, t);
        let before = with_first(m - 1, t);
        let x = seq![(m - 1) as usize] + t;
        assert(within(x, n, dimension + 1)) by {
            assert forall|d: int| 0 <= d < x.len() implies #[trigger] x[d] < n by {
                if d > 0 {
                    assert(x[d] == t[d - 1]);
                }
            }
        }
        assert forall|k: int| 0 <= k < all.len() implies within(
            #[trigger] all[k],
            n,
            dimension + 1,
        ) by {
            if k < before.len() {
                assert(all[k] == before[k]);
            } else {
                assert(all[k] == x);
            }
        }
    }
}

/// Tuples of indices before `n`, with indices before `n` put in front of
/// them, are tuples of indices before `n`, longer by one.
pub proof fn lemma_expand_within(tuples: Seq<Seq<usize>>, n: int, dimension: nat)
    requires
        0 <= n <= usize::MAX,
        forall|k: int| 0 <= k < tuples.len() ==> within(#[trigger] tuples[k], n, dimension),
    ensures
        forall|k: int|
            0 <= k < expand(tuples, n).len() ==> within(
                #[trigger] expand(tuples, n)[k],
                n,
                dimension + 1,
            ),
    decreases tuples.len(),
{
    if tuples.len() > 0 {
        let init = tuples.drop_last();
        assert forall|k: int| 0 <= k < init.len() implies within(
            #[trigger] init[k],
            n,
            dimension,
        ) by {
            assert(init[k] == tuples[k]);
        }
        lemma_expand_within(init, n, dimension);
        let t = tuples.last();
        assert(t == tuples[tuples.len() - 1]);
        lemma_with_first_within(n, n, t, dimension);
        let all = expand(tuples, n);
        let before = expand(init, n);
        let added = with_first(n, t);
        assert forall|k: int| 0 <= k < all.len() implies within(
            #[trigger] all[k],
            n,
            dimension + 1,
        ) by {
            if k < before.len() {
                assert(all[k] == before[k]);
            } else {
                assert(all[k] == added[k - before.len()]);
            }
        }
    }
}

/// Every tuple has as many indices as asked for, each before `n`.
pub proof fn lemma_tuples_within(n: int, dimension: nat)
    requires
        0 <= n <= usize::MAX,
    ensures
        forall|k: int|
            0 <= k < index_tuples(n, dimension).len() ==> within(
                #[trigger] index_tuples(n, dimension)[k],
                n,
                dimension,
            ),
    decreases dimension,
{
    if dimension > 0 {
        lemma_tuples_within(n, (dimension - 1) as nat);
        lemma_expand_within(index_tuples(n, (dimension - 1) as nat), n, (dimension - 1) as nat);
    }
}

} // verus!
