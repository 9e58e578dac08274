use vstd::prelude::*;

verus! {

/// `base` with `x` put behind it, unless `base` holds `x` already.
pub open spec fn add_new<A>(base: Seq<A>, x: A) -> Seq<A> {
    if base.contains(x) {
        base
    } else {
        base.push(x)
    }
}

/// `base` followed by those items of `s` that neither `base` nor an earlier
/// part of `s` holds, in the order in which `s` has them.
pub open spec fn merge_new<A>(base: Seq<A>, s: Seq<A>) -> Seq<A>
    decreases s.len(),
{
    if s.len() == 0 {
        base
    } else {
        add_new(merge_new(base, s.drop_last()), s.last())
    }
}

/// `s` without repeats: of equal items the first one stays.
pub open spec fn distinct<A>(s: Seq<A>) -> Seq<A> {
    merge_new(Seq::empty(), s)
}

/// Merging two runs one after the other is merging their concatenation.
pub proof fn lemma_merge_new_concat<A>(base: Seq<A>, a: Seq<A>, b: Seq<A>)
    ensures
        merge_new(base, a + b) == merge_new(merge_new(base, a), b),
    decreases b.len(),
{
    if b.len() == 0 {
        assert(a + b =~= a);
    } else {
        assert((a + b).drop_last() =~= a + b.drop_last());
        assert((a + b).last() == b.last());
        lemma_merge_new_concat(base, a, b.drop_last());
    }
}

/// Merging a single item is adding it if it is new.
pub proof fn lemma_merge_new_one<A>(base: Seq<A>, x: A)
    ensures
        merge_new(base, seq![x]) == add_new(base, x),
{
    let s = seq![x];
    assert(s.drop_last() =~= Seq::<A>::empty());
    assert(merge_new(base, s.drop_last()) == base);
}

/// What a merge holds: the items of `base` and of `s`, nothing else.
pub proof fn lemma_merge_new_contains<A>(base: Seq<A>, s: Seq<A>, x: A)
    ensures
        merge_new(base, s).contains(x) <==> base.contains(x) || s.contains(x),
    decreases s.len(),
{
    if s.len() == 0 {
    } else {
        let init = merge_new(base, s.drop_last());
        lemma_merge_new_contains(base, s.drop_last(), x);
        assert(s =~= s.drop_last().push(s.last()));
        if s.contains(x) {
            let i = choose|i: int| 0 <= i < s.len() && s[i] == x;
            if i < s.len() - 1 {
                assert(s.drop_last()[i] == x);
            }
        }
        if s.drop_last().contains(x) {
            let i = choose|i: int| 0 <= i < s.drop_last().len() && s.drop_last()[i] == x;
            assert(s[i] == x);
        }
        if init.contains(s.last()) {
        } else {
            let m = init.push(s.last());
            assert(m[m.len() - 1] == s.last());
            if m.contains(x) {
                let i = choose|i: int| 0 <= i < m.len() && m[i] == x;
                if i < init.len() {
                    assert(init[i] == x);
                }
            }
            if init.contains(x) {
                let i = choose|i: int| 0 <= i < init.len() && init[i] == x;
                assert(m[i] == x);
            }
        }
    }
}

/// A merge onto a run without repeats has no repeats.
pub proof fn lemma_merge_new_no_duplicates<A>(base: Seq<A>, s: Seq<A>)
    requires
        base.no_duplicates(),
    ensures
        merge_new(base, s).no_duplicates(),
    decreases s.len(),
{
    if s.len() > 0 {
        lemma_merge_new_no_duplicates(base, s.drop_last());
    }
}

/// What `distinct` keeps: each item of `s`, once.
pub proof fn theorem_distinct<A>(s: Seq<A>)
    ensures
        distinct(s).no_duplicates(),
        forall|x: A| distinct(s).contains(x) <==> s.contains(x),
{
    lemma_merge_new_no_duplicates(Seq::<A>::empty(), s);
    assert forall|x: A| distinct(s).contains(x) <==> s.contains(x) by {
        lemma_merge_new_contains(Seq::<A>::empty(), s, x);
    }
}

/// `s`, which ascends strictly by `before`, with `x` put in its place;
/// `s` itself where it holds `x` already.
pub open spec fn insert_ordered<A>(s: Seq<A>, x: A, before: spec_fn(A, A) -> bool) -> Seq<A>
    decreases s.len(),
{
    if s.len() == 0 {
        seq![x]
    } else if before(s.last(), x) {
        s.push(x)
    } else if s.last() == x {
        s
    } else {
        insert_ordered(s.drop_last(), x, before).push(s.last())
    }
}

/// `s` with the items of `xs` put in their places, one after the other.
pub open spec fn insert_all<A>(s: Seq<A>, xs: Seq<A>, before: spec_fn(A, A) -> bool) -> Seq<A>
    decreases xs.len(),
{
    if xs.len() == 0 {
        s
    } else {
        insert_ordered(insert_all(s, xs.drop_last(), before), xs.last(), before)
    }
}

/// Whether `s` ascends strictly by `before`.
pub open spec fn ascending<A>(s: Seq<A>, before: spec_fn(A, A) -> bool) -> bool {
    forall|i: int, j: int| 0 <= i < j < s.len() ==> before(#[trigger] s[i], #[trigger] s[j])
}

/// Whether `before` orders all values of `A` strictly and totally.
pub open spec fn strict_total<A>(before: spec_fn(A, A) -> bool) -> bool {
    &&& forall|a: A| !#[trigger] before(a, a)
    &&& forall|a: A, b: A| a != b ==> #[trigger] before(a, b) || #[trigger] before(b, a)
    &&& forall|a: A, b: A, c: A| #[trigger] before(a, b) && #[trigger] before(b, c) ==> before(a, c)
}

/// Where `x` stands in an ascending run: behind the items before it, none
/// of which is `x` unless the one just before.
pub proof fn lemma_insert_ordered_at<A>(s: Seq<A>, x: A, before: spec_fn(A, A) -> bool, i: int)
    requires
        0 <= i <= s.len(),
        forall|k: int| i <= k < s.len() ==> !before(#[trigger] s[k], x) && s[k] != x,
        i > 0 ==> before(s[i - 1], x) || s[i - 1] == x,
    ensures
        insert_ordered(s, x, before) == if i > 0 && s[i - 1] == x && !before(s[i - 1], x) {
            s
        } else {
            s.take(i).push(x) + s.skip(i)
        },
    decreases s.len() - i,
{
    if i == s.len() {
        assert(s.take(i) =~= s);
        assert(s.skip(i) =~= Seq::<A>::empty());
        if s.len() == 0 {
            assert(s.take(i).push(x) + s.skip(i) =~= seq![x]);
        } else if before(s.last(), x) {
            assert(s.take(i).push(x) + s.skip(i) =~= s.push(x));
        }
    } else {
        let t = s.drop_last();
        assert(!before(s[s.len() - 1], x) && s[s.len() - 1] != x);
        lemma_insert_ordered_at(t, x, before, i);
        assert(t.take(i) =~= s.take(i));
        assert((t.take(i).push(x) + t.skip(i)).push(s.last()) =~= s.take(i).push(x) + s.skip(i));
        assert(t.push(s.last()) =~= s);
    }
}

/// What an insertion holds: the items of `s`, and `x`.
pub proof fn lemma_insert_ordered_contains<A>(s: Seq<A>, x: A, before: spec_fn(A, A) -> bool, y: A)
    ensures
        insert_ordered(s, x, before).contains(y) <==> s.contains(y) || y == x,
    decreases s.len(),
{
    let r = insert_ordered(s, x, before);
    if s.len() == 0 {
        assert(r[0] == x);
    } else if before(s.last(), x) {
        assert(r[r.len() - 1] == x);
        if r.contains(y) {
            let i = choose|i: int| 0 <= i < r.len() && r[i] == y;
            if i < s.len() {
                assert(s[i] == y);
            }
        }
        if s.contains(y) {
            let i = choose|i: int| 0 <= i < s.len() && s[i] == y;
            assert(r[i] == y);
        }
    } else if s.last() == x {
        if y == x {
            assert(s[s.len() - 1] == y);
        }
    } else {
        let init = insert_ordered(s.drop_last(), x, before);
        lemma_insert_ordered_contains(s.drop_last(), x, before, y);
        assert(r[r.len() - 1] == s.last());
        if r.contains(y) {
            let i = choose|i: int| 0 <= i < r.len() && r[i] == y;
            if i < init.len() {
                assert(init[i] == y);
                if s.drop_last().contains(y) {
                    let k = choose|k: int| 0 <= k < s.drop_last().len() && s.drop_last()[k] == y;
                    assert(s[k] == y);
                }
            } else {
                assert(s[s.len() - 1] == y);
            }
        }
        if s.contains(y) {
            let i = choose|i: int| 0 <= i < s.len() && s[i] == y;
            if i < s.len() - 1 {
                assert(s.drop_last()[i] == y);
                assert(init.contains(y));
                let k = choose|k: int| 0 <= k < init.len() && init[k] == y;
                assert(r[k] == y);
            }
        }
        if y == x {
            assert(init.contains(y));
            let k = choose|k: int| 0 <= k < init.len() && init[k] == y;
            assert(r[k] == y);
        }
    }
}

/// An insertion into an ascending run ascends.
pub proof fn lemma_insert_ordered_ascending<A>(s: Seq<A>, x: A, before: spec_fn(A, A) -> bool)
    requires
        strict_total(before),
        ascending(s, before),
    ensures
        ascending(insert_ordered(s, x, before), before),
    decreases s.len(),
{
    let r = insert_ordered(s, x, before);
    if s.len() == 0 {
    } else if before(s.last(), x) {
        assert forall|i: int, j: int| 0 <= i < j < r.len() implies before(
            #[trigger] r[i],
            #[trigger] r[j],
        ) by {
            if j == s.len() {
                if i < s.len() - 1 {
                    assert(before(s[i], s[s.len() - 1]));
                }
            } else {
                assert(before(s[i], s[j]));
            }
        }
    } else if s.last() == x {
    } else {
        let init = insert_ordered(s.drop_last(), x, before);
        assert(ascending(s.drop_last(), before)) by {
            assert forall|i: int, j: int| 0 <= i < j < s.drop_last().len() implies before(
                #[trigger] s.drop_last()[i],
                #[trigger] s.drop_last()[j],
            ) by {
                assert(before(s[i], s[j]));
            }
        }
        lemma_insert_ordered_ascending(s.drop_last(), x, before);
        assert forall|i: int, j: int| 0 <= i < j < r.len() implies before(
            #[trigger] r[i],
            #[trigger] r[j],
        ) by {
            if j == r.len() - 1 {
                assert(init.contains(init[i]));
                lemma_insert_ordered_contains(s.drop_last(), x, before, init[i]);
                if init[i] == x {
                    assert(before(x, s.last()));
                } else {
                    let k = choose|k: int|
                        0 <= k < s.drop_last().len() && s.drop_last()[k] == init[i];
                    assert(before(s[k], s[s.len() - 1]));
                }
            } else {
                assert(before(init[i], init[j]));
            }
        }
    }
}

/// What a run of insertions holds: the items of `s` and of `xs`.
pub proof fn lemma_insert_all_contains<A>(
    s: Seq<A>,
    xs: Seq<A>,
    before: spec_fn(A, A) -> bool,
    y: A,
)
    ensures
        insert_all(s, xs, before).contains(y) <==> s.contains(y) || xs.contains(y),
    decreases xs.len(),
{
    if xs.len() > 0 {
        lemma_insert_all_contains(s, xs.drop_last(), before, y);
        lemma_insert_ordered_contains(
            insert_all(s, xs.drop_last(), before),
            xs.last(),
            before,
            y,
        );
        if xs.contains(y) {
            let i = choose|i: int| 0 <= i < xs.len() && xs[i] == y;
            if i < xs.len() - 1 {
                assert(xs.drop_last()[i] == y);
            }
        }
        if xs.drop_last().contains(y) {
            let i = choose|i: int| 0 <= i < xs.drop_last().len() && xs.drop_last()[i] == y;
            assert(xs[i] == y);
        }
        if y == xs.last() {
            assert(xs[xs.len() - 1] == y);
        }
    }
}

/// A run of insertions into an ascending run ascends.
pub proof fn lemma_insert_all_ascending<A>(s: Seq<A>, xs: Seq<A>, before: spec_fn(A, A) -> bool)
    requires
        strict_total(before),
        ascending(s, before),
    ensures
        ascending(insert_all(s, xs, before), before),
    decreases xs.len(),
{
    if xs.len() > 0 {
        lemma_insert_all_ascending(s, xs.drop_last(), before);
        lemma_insert_ordered_ascending(insert_all(s, xs.drop_last(), before), xs.last(), before);
    }
}

/// The items of `s` that meet `keep`, in order.
pub open spec fn select<A>(s: Seq<A>, keep: spec_fn(A) -> bool) -> Seq<A>
    decreases s.len(),
{
    if s.len() == 0 {
        s
    } else if keep(s.last()) {
        select(s.drop_last(), keep).push(s.last())
    } else {
        select(s.drop_last(), keep)
    }
}

/// What a selection holds: the items of `s` that meet `keep`.
pub proof fn lemma_select_contains<A>(s: Seq<A>, keep: spec_fn(A) -> bool, x: A)
    ensures
        select(s, keep).contains(x) <==> s.contains(x) && keep(x),
    decreases s.len(),
{
    if s.len() > 0 {
        let init = select(s.drop_last(), keep);
        lemma_select_contains(s.drop_last(), keep, x);
        if s.contains(x) {
            let i = choose|i: int| 0 <= i < s.len() && s[i] == x;
            if i < s.len() - 1 {
                assert(s.drop_last()[i] == x);
            }
        }
        if s.drop_last().contains(x) {
            let i = choose|i: int| 0 <= i < s.drop_last().len() && s.drop_last()[i] == x;
            assert(s[i] == x);
        }
        if keep(s.last()) {
            let r = init.push(s.last());
            assert(r[r.len() - 1] == s.last());
            assert(s[s.len() - 1] == s.last());
            if r.contains(x) {
                let i = choose|i: int| 0 <= i < r.len() && r[i] == x;
                if i < init.len() {
                    assert(init[i] == x);
                }
            }
            if init.contains(x) {
                let i = choose|i: int| 0 <= i < init.len() && init[i] == x;
                assert(r[i] == x);
            }
        }
    }
}

/// Selecting from two runs one after the other is selecting from their
/// concatenation.
pub proof fn lemma_select_concat<A>(a: Seq<A>, b: Seq<A>, keep: spec_fn(A) -> bool)
    ensures
        select(a + b, keep) == select(a, keep) + select(b, keep),
    decreases b.len(),
{
    if b.len() == 0 {
        assert(a + b =~= a);
        assert(select(a, keep) + select(b, keep) =~= select(a, keep));
    } else {
        assert((a + b).drop_last() =~= a + b.drop_last());
        assert((a + b).last() == b.last());
        lemma_select_concat(a, b.drop_last(), keep);
        if keep(b.last()) {
            assert(select(a + b, keep) =~= select(a, keep) + select(b, keep));
        }
    }
}

/// Where no item meets `keep`, nothing is selected.
pub proof fn lemma_select_none<A>(s: Seq<A>, keep: spec_fn(A) -> bool)
    requires
        forall|k: int| 0 <= k < s.len() ==> !keep(#[trigger] s[k]),
    ensures
        select(s, keep) == Seq::<A>::empty(),
    decreases s.len(),
{
    if s.len() > 0 {
        assert(!keep(s[s.len() - 1]));
        lemma_select_none(s.drop_last(), keep);
    }
}

} // verus!
