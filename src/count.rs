//! Counting the occupied slots of a colony, and listing their indices in order.
use vstd::multiset::Multiset;
use vstd::prelude::*;

verus! {

/// The number of present values in `s`.
pub open spec fn count_some<T>(s: Seq<Option<T>>) -> nat
    decreases s.len(),
{
    if s.len() == 0 {
        0
    } else {
        (if s[0] is Some {
            1nat
        } else {
            0nat
        }) + count_some(s.drop_first())
    }
}

/// Replacing one value changes the count by what left and what came.
pub proof fn lemma_count_some_update<T>(s: Seq<Option<T>>, i: int, x: Option<T>)
    requires
        0 <= i < s.len(),
    ensures
        count_some(s.update(i, x)) + (if s[i] is Some {
            1int
        } else {
            0int
        }) == count_some(s) + (if x is Some {
            1int
        } else {
            0int
        }),
    decreases s.len(),
{
    let t = s.update(i, x);
    if i == 0 {
        assert(t.drop_first() =~= s.drop_first());
    } else {
        assert(t.drop_first() =~= s.drop_first().update(i - 1, x));
        lemma_count_some_update(s.drop_first(), i - 1, x);
    }
}

/// Appending a value adds one to the count if it is present.
pub proof fn lemma_count_some_push<T>(s: Seq<Option<T>>, x: Option<T>)
    ensures
        count_some(s.push(x)) == count_some(s) + (if x is Some {
            1nat
        } else {
            0nat
        }),
    decreases s.len(),
{
    if s.len() > 0 {
        assert(s.push(x).drop_first() =~= s.drop_first().push(x));
        lemma_count_some_push(s.drop_first(), x);
    } else {
        assert(s.push(x).drop_first() =~= s);
    }
}

/// Counting from `a` steps over the slot at `a`.
pub proof fn lemma_count_from<T>(s: Seq<Option<T>>, a: int)
    requires
        0 <= a < s.len(),
    ensures
        count_some(s.subrange(a, s.len() as int)) == (if s[a] is Some {
            1nat
        } else {
            0nat
        }) + count_some(s.subrange(a + 1, s.len() as int)),
{
    assert(s.subrange(a, s.len() as int).drop_first() =~= s.subrange(a + 1, s.len() as int));
}

/// The count is at most the length.
pub proof fn lemma_count_some_bound<T>(s: Seq<Option<T>>)
    ensures
        count_some(s) <= s.len(),
    decreases s.len(),
{
    if s.len() > 0 {
        lemma_count_some_bound(s.drop_first());
    }
}

/// A run of empty slots adds nothing to the count from its start.
pub proof fn lemma_count_skip_nones<T>(s: Seq<Option<T>>, a: int, b: int)
    requires
        0 <= a <= b <= s.len(),
        forall|m: int| a <= m < b ==> #[trigger] s[m] is None,
    ensures
        count_some(s.subrange(a, s.len() as int)) == count_some(s.subrange(b, s.len() as int)),
    decreases b - a,
{
    if a < b {
        lemma_count_from(s, a);
        lemma_count_skip_nones(s, a + 1, b);
    }
}

/// The occupied indices at or after `a`, in ascending order.
pub open spec fn occupied_from<T>(s: Seq<Option<T>>, a: int) -> Seq<int>
    decreases s.len() - a,
{
    if a < 0 || a >= s.len() {
        Seq::empty()
    } else if s[a] is Some {
        seq![a].add(occupied_from(s, a + 1))
    } else {
        occupied_from(s, a + 1)
    }
}

/// The occupied indices at or after `a` are, in ascending order, those and only those,
/// each once, and there are as many as there are elements from `a` on.
pub proof fn lemma_occupied_from<T>(s: Seq<Option<T>>, a: int)
    requires
        0 <= a <= s.len(),
    ensures
        occupied_from(s, a).len() == count_some(s.subrange(a, s.len() as int)),
        forall|i: int| occupied_from(s, a).contains(i) <==> a <= i < s.len() && s[i] is Some,
        forall|j: int, k: int|
            0 <= j < k < occupied_from(s, a).len() ==> occupied_from(s, a)[j] < occupied_from(s, a)[k],
    decreases s.len() - a,
{
    let o = occupied_from(s, a);
    if a == s.len() {
        assert(s.subrange(a, s.len() as int) =~= Seq::<Option<T>>::empty());
    } else {
        lemma_occupied_from(s, a + 1);
        lemma_count_from(s, a);
        let rest = occupied_from(s, a + 1);
        if s[a] is Some {
            assert forall|i: int| o.contains(i) <==> a <= i < s.len() && s[i] is Some by {
                if o.contains(i) && i != a {
                    let j = choose|j: int| 0 <= j < o.len() && o[j] == i;
                    assert(rest[j - 1] == i);
                    assert(rest.contains(i));
                }
                if a < i < s.len() && s[i] is Some {
                    assert(rest.contains(i));
                    let j = choose|j: int| 0 <= j < rest.len() && rest[j] == i;
                    assert(o[j + 1] == i);
                }
                if i == a {
                    assert(o[0] == a);
                }
            }
            assert forall|j: int, k: int| 0 <= j < k < o.len() implies o[j] < o[k] by {
                if j == 0 {
                    assert(rest.contains(o[k]));
                } else {
                    assert(o[j] == rest[j - 1] && o[k] == rest[k - 1]);
                }
            }
        }
    }
}

/// The first occupied index at or after `a` heads the occupied indices from `a`, which
/// is what one step of iteration yields.
pub proof fn lemma_occupied_step<T>(s: Seq<Option<T>>, a: int, i: int)
    requires
        0 <= a <= i < s.len(),
        s[i] is Some,
        forall|m: int| a <= m < i ==> #[trigger] s[m] is None,
    ensures
        occupied_from(s, a) == seq![i].add(occupied_from(s, i + 1)),
    decreases i - a,
{
    if a < i {
        lemma_occupied_step(s, a + 1, i);
    }
}

/// The present values of `s`, as a multiset.
pub open spec fn live_values<T>(s: Seq<Option<T>>) -> Multiset<T>
    decreases s.len(),
{
    if s.len() == 0 {
        Multiset::empty()
    } else {
        (if s[0] is Some {
            Multiset::singleton(s[0]->0)
        } else {
            Multiset::empty()
        }).add(live_values(s.drop_first()))
    }
}

/// Storing a value in an empty place adds it to the present values.
pub proof fn lemma_live_values_fill<T>(s: Seq<Option<T>>, i: int, v: T)
    requires
        0 <= i < s.len(),
        s[i] is None,
    ensures
        live_values(s.update(i, Some(v))) =~= live_values(s).insert(v),
    decreases s.len(),
{
    let t = s.update(i, Some(v));
    if i == 0 {
        assert(t.drop_first() =~= s.drop_first());
    } else {
        assert(t.drop_first() =~= s.drop_first().update(i - 1, Some(v)));
        lemma_live_values_fill(s.drop_first(), i - 1, v);
    }
}

/// Appending a value adds it to the present values.
pub proof fn lemma_live_values_push<T>(s: Seq<Option<T>>, v: T)
    ensures
        live_values(s.push(Some(v))) =~= live_values(s).insert(v),
    decreases s.len(),
{
    if s.len() > 0 {
        assert(s.push(Some(v)).drop_first() =~= s.drop_first().push(Some(v)));
        lemma_live_values_push(s.drop_first(), v);
    } else {
        assert(s.push(Some(v)).drop_first() =~= s);
    }
}

} // verus!
