//! The free list of a colony: a doubly linked list through the first slots of the free
//! skipblocks, and what taking a node out, adding one or replacing one does to it.
use vstd::prelude::*;

use crate::guard::Guard;
use crate::{Slot, MAX_CAPACITY};

verus! {

/// The node before position `k` of a list of free blocks.
pub open spec fn prev_in(free: Seq<usize>, k: int) -> Option<usize> {
    if k == 0 {
        None
    } else {
        Some(free[k - 1])
    }
}

/// The node after position `k` of a list of free blocks.
pub open spec fn next_in(free: Seq<usize>, k: int) -> Option<usize> {
    if k + 1 == free.len() {
        None
    } else {
        Some(free[k + 1])
    }
}

/// The slots hold a doubly linked list whose nodes are `free`, in order, starting at `head`.
pub open spec fn links_ok<T, G>(e: Seq<Slot<T, G>>, free: Seq<usize>, head: Option<usize>) -> bool {
    &&& free.no_duplicates()
    &&& head == (if free.len() == 0 {
        None::<usize>
    } else {
        Some(free[0])
    })
    &&& forall|k: int|
        0 <= k < free.len() ==> #[trigger] free[k] < e.len() && e[free[k] as int].links() == Some(
            (prev_in(free, k), next_in(free, k)),
        )
}

/// Two slot sequences differ at most in the links of unoccupied slots.
pub open spec fn same_shape<T, G>(e1: Seq<Slot<T, G>>, e2: Seq<Slot<T, G>>) -> bool {
    &&& e1.len() == e2.len()
    &&& forall|i: int|
        0 <= i < e1.len() ==> (#[trigger] e1[i]).guard_spec() == e2[i].guard_spec() && e1[i].value()
            == e2[i].value()
}

/// Unlinking the node at position `k` leaves a list of the other nodes.
#[verifier::rlimit(50)]
pub proof fn lemma_unlink_links<T, G>(e0: Seq<Slot<T, G>>, e: Seq<Slot<T, G>>, free: Seq<usize>, k: int, head: Option<usize>)
    requires
        links_ok(e0, free, if free.len() == 0 { None } else { Some(free[0]) }),
        0 <= k < free.len(),
        e.len() == e0.len(),
        forall|i: int|
            0 <= i < e.len() && (k == 0 || i != free[k - 1]) && (k + 1 == free.len() || i != free[k + 1]) ==> e[i]
                == e0[i],
        k > 0 ==> e[free[k - 1] as int].links() == Some((prev_in(free, k - 1), next_in(free, k))),
        k + 1 < free.len() ==> e[free[k + 1] as int].links() == Some((prev_in(free, k), next_in(free, k + 1))),
        head == (if k == 0 { next_in(free, 0) } else { Some(free[0]) }),
    ensures
        links_ok(e, free.remove(k), head),
{
    let free2 = free.remove(k);
    assert forall|j: int| 0 <= j < free2.len() implies #[trigger] free2[j] < e.len() && e[free2[j] as int].links()
        == Some((prev_in(free2, j), next_in(free2, j))) by {
        if j < k - 1 {
            assert(free2[j] == free[j]);
            assert(free[j] < e0.len() && e0[free[j] as int].links() == Some((prev_in(free, j), next_in(free, j))));
            assert(free[j] != free[k - 1]);
            assert(k + 1 == free.len() || free[j] != free[k + 1]);
            assert(free2[j + 1] == free[j + 1]);
            assert(j == 0 || free2[j - 1] == free[j - 1]);
        } else if j == k - 1 {
            assert(free2[j] == free[j]);
            assert(free[j] < e0.len());
            assert(j == 0 || free2[j - 1] == free[j - 1]);
            assert(j + 1 == free2.len() || free2[j + 1] == free[j + 2]);
        } else if j == k {
            assert(free2[j] == free[j + 1]);
            assert(free[j + 1] < e0.len());
            assert(j == 0 || free2[j - 1] == free[j - 1]);
            assert(j + 1 == free2.len() || free2[j + 1] == free[j + 2]);
        } else {
            assert(free2[j] == free[j + 1]);
            assert(free[j + 1] < e0.len() && e0[free[j + 1] as int].links() == Some(
                (prev_in(free, j + 1), next_in(free, j + 1)),
            ));
            assert(free[j + 1] != free[k + 1]);
            assert(k == 0 || free[j + 1] != free[k - 1]);
            assert(free2[j - 1] == free[j]);
            assert(j + 1 == free2.len() || free2[j + 1] == free[j + 2]);
        }
    }
    lemma_remove_no_duplicates(free, k);
}

/// Taking an item out of a sequence without repeats leaves none.
pub proof fn lemma_remove_no_duplicates(free: Seq<usize>, k: int)
    requires
        free.no_duplicates(),
        0 <= k < free.len(),
    ensures
        free.remove(k).no_duplicates(),
{
    let free2 = free.remove(k);
    assert forall|a: int, b: int| 0 <= a < free2.len() && 0 <= b < free2.len() && a != b implies free2[a] != free2[b] by {
        let a1 = if a < k { a } else { a + 1 };
        let b1 = if b < k { b } else { b + 1 };
        assert(free2[a] == free[a1]);
        assert(free2[b] == free[b1]);
    }
}

/// Linking `h2` in place of the node at position `k` gives the list with `h2` there.
pub proof fn lemma_replace_links<T, G>(
    e0: Seq<Slot<T, G>>,
    e: Seq<Slot<T, G>>,
    free: Seq<usize>,
    k: int,
    h2: usize,
    head: Option<usize>,
)
    requires
        links_ok(e0, free, if free.len() == 0 { None } else { Some(free[0]) }),
        0 <= k < free.len(),
        !free.contains(h2),
        h2 < e.len(),
        e.len() == e0.len(),
        forall|i: int|
            0 <= i < e.len() && i != h2 && (k == 0 || i != free[k - 1]) && (k + 1 == free.len() || i != free[k
                + 1]) ==> e[i] == e0[i],
        e[h2 as int].links() == Some((prev_in(free, k), next_in(free, k))),
        k > 0 ==> e[free[k - 1] as int].links() == Some((prev_in(free, k - 1), Some(h2))),
        k + 1 < free.len() ==> e[free[k + 1] as int].links() == Some((Some(h2), next_in(free, k + 1))),
        head == (if k == 0 { Some(h2) } else { Some(free[0]) }),
    ensures
        links_ok(e, free.update(k, h2), head),
{
    let free2 = free.update(k, h2);
    assert forall|j: int| 0 <= j < free2.len() implies #[trigger] free2[j] < e.len() && e[free2[j] as int].links()
        == Some((prev_in(free2, j), next_in(free2, j))) by {
        if j != k {
            assert(free2[j] == free[j]);
            assert(free[j] < e0.len());
            assert(free[j] != h2);
            if j != k - 1 && j != k + 1 {
                assert(k == 0 || free[j] != free[k - 1]);
                assert(k + 1 == free.len() || free[j] != free[k + 1]);
            }
        }
    }
    assert forall|a: int, b: int| 0 <= a < free2.len() && 0 <= b < free2.len() && a != b implies free2[a] != free2[b] by {
        if a != k && b != k {
            assert(free[a] != free[b]);
        } else if a == k {
            assert(free2[b] == free[b]);
        } else {
            assert(free2[a] == free[a]);
        }
    }
}


/// Changing only slots outside the list keeps the list's links.
pub proof fn lemma_links_frame<T, G>(e: Seq<Slot<T, G>>, e2: Seq<Slot<T, G>>, free: Seq<usize>, head: Option<usize>)
    requires
        links_ok(e, free, head),
        e2.len() >= e.len(),
        forall|i: int| 0 <= i < e.len() && free.contains(i as usize) ==> e2[i] == e[i],
    ensures
        links_ok(e2, free, head),
{
    assert forall|k: int| 0 <= k < free.len() implies #[trigger] free[k] < e2.len() && e2[free[k] as int].links() == Some(
        (prev_in(free, k), next_in(free, k)),
    ) by {
        assert(free.contains(free[k]));
    }
}

/// `h` is the first slot of a run of empty slots, and not retired.
pub open spec fn head_at<T, G: Guard>(e: Seq<Slot<T, G>>, h: int) -> bool {
    &&& 0 <= h < e.len()
    &&& e[h].value() is None
    &&& (h == 0 || e[h - 1].value() is Some)
    &&& !e[h].guard_spec().retired()
}

/// Every guard is in range and in the state its slot asks for.
pub open spec fn guards_ok<T, G: Guard>(e: Seq<Slot<T, G>>) -> bool {
    forall|i: int|
        0 <= i < e.len() ==> (#[trigger] e[i]).guard_spec().wf() && (e[i].value() is Some ==> e[i].guard_spec().filled())
            && (e[i].value() is None ==> e[i].guard_spec().emptied())
}

/// The free list links exactly the free heads.
pub open spec fn free_ok<T, G: Guard>(e: Seq<Slot<T, G>>, free: Seq<usize>, head: Option<usize>) -> bool {
    &&& links_ok(e, free, head)
    &&& forall|k: int| 0 <= k < free.len() ==> head_at(e, #[trigger] free[k] as int)
    &&& forall|h: int| head_at(e, h) ==> free.contains(h as usize)
}

/// The list after taking out, or replacing, its first node no longer holds that node.
pub proof fn lemma_first_gone(f0: Seq<usize>, f: Seq<usize>, h2: usize, next_head: bool)
    requires
        f0.no_duplicates(),
        f0.len() > 0,
        h2 != f0[0],
        next_head ==> f == f0.update(0, h2),
        !next_head ==> f == f0.remove(0),
    ensures
        !f.contains(f0[0]),
{
    assert forall|j: int| 0 <= j < f.len() implies f[j] != f0[0] by {
        if next_head {
            if j != 0 {
                assert(f0[j] != f0[0]);
            }
        } else {
            assert(f[j] == f0[j + 1]);
            assert(f0[j + 1] != f0[0]);
        }
    }
}

/// Slots other than `free` keep their values and guards.
pub open spec fn same_but<T, G>(e0: Seq<Slot<T, G>>, e: Seq<Slot<T, G>>, free: int) -> bool {
    &&& e.len() == e0.len()
    &&& forall|j: int|
        0 <= j < e.len() && j != free ==> (#[trigger] e[j]).value() == e0[j].value() && e[j].guard_spec()
            == e0[j].guard_spec()
}

/// Filling the first free head keeps every listed node a free head.
pub proof fn lemma_fill_heads_listed<T, G: Guard>(e0: Seq<Slot<T, G>>, e: Seq<Slot<T, G>>, f0: Seq<usize>, f: Seq<usize>, next_head: bool)
    requires
        f0.no_duplicates(),
        forall|k: int| 0 <= k < f0.len() ==> head_at(e0, #[trigger] f0[k] as int),
        f0.len() > 0,
        e0.len() <= MAX_CAPACITY,
        same_but(e0, e, f0[0] as int),
        e[f0[0] as int].value() is Some,
        next_head == (f0[0] + 1 < e0.len() && e0[f0[0] + 1].value() is None && !e0[f0[0] + 1].guard_spec().retired()),
        next_head ==> f == f0.update(0, (f0[0] + 1) as usize),
        !next_head ==> f == f0.remove(0),
    ensures
        forall|k: int| 0 <= k < f.len() ==> head_at(e, #[trigger] f[k] as int),
{
    let free = f0[0] as int;
    assert forall|k: int| 0 <= k < f.len() implies head_at(e, #[trigger] f[k] as int) by {
        if next_head && k == 0 {
            assert(e[free + 1].value() == e0[free + 1].value());
            assert(e[free + 1].guard_spec() == e0[free + 1].guard_spec());
        } else {
            let k0 = if next_head {
                k
            } else {
                k + 1
            };
            assert(f[k] == f0[k0]);
            assert(head_at(e0, f0[k0] as int));
            assert(f0[k0] != f0[0]);
            let h = f0[k0] as int;
            assert(e[h].value() == e0[h].value() && e[h].guard_spec() == e0[h].guard_spec());
            assert(h != free + 1);
            if h > 0 {
                assert(e[h - 1].value() == e0[h - 1].value());
            }
        }
    }
}

/// Filling the first free head keeps every free head listed.
pub proof fn lemma_fill_heads_complete<T, G: Guard>(e0: Seq<Slot<T, G>>, e: Seq<Slot<T, G>>, f0: Seq<usize>, f: Seq<usize>, next_head: bool)
    requires
        forall|h: int| head_at(e0, h) ==> f0.contains(h as usize),
        f0.len() > 0,
        e0.len() <= MAX_CAPACITY,
        head_at(e0, f0[0] as int),
        same_but(e0, e, f0[0] as int),
        e[f0[0] as int].value() is Some,
        next_head == (f0[0] + 1 < e0.len() && e0[f0[0] + 1].value() is None && !e0[f0[0] + 1].guard_spec().retired()),
        next_head ==> f == f0.update(0, (f0[0] + 1) as usize),
        !next_head ==> f == f0.remove(0),
    ensures
        forall|h: int| head_at(e, h) ==> f.contains(h as usize),
{
    let free = f0[0] as int;
    assert forall|h: int| head_at(e, h) implies f.contains(h as usize) by {
        if h == free + 1 {
            assert(e[h].value() == e0[h].value() && e[h].guard_spec() == e0[h].guard_spec());
            assert(f[0] == h);
        } else {
            assert(h != free);
            assert(e[h].value() == e0[h].value() && e[h].guard_spec() == e0[h].guard_spec());
            if h > 0 {
                assert(e[h - 1].value() == e0[h - 1].value());
            }
            assert(head_at(e0, h));
            assert(f0.contains(h as usize));
            let k0 = choose|k0: int| 0 <= k0 < f0.len() && f0[k0] == h as usize;
            assert(k0 != 0);
            if next_head {
                assert(f[k0] == h as usize);
            } else {
                assert(f[k0 - 1] == h as usize);
            }
        }
    }
}

/// After emptying the occupied slot `index`, a free list that gained `index` exactly where
/// it became a free head, and lost `index + 1` exactly where that was one, is exact.
pub proof fn lemma_remove_heads<T, G: Guard>(e0: Seq<Slot<T, G>>, e: Seq<Slot<T, G>>, f0: Seq<usize>, f: Seq<usize>, index: int)
    requires
        forall|k: int| 0 <= k < f0.len() ==> head_at(e0, #[trigger] f0[k] as int),
        forall|h: int| head_at(e0, h) ==> f0.contains(h as usize),
        e0.len() <= MAX_CAPACITY,
        0 <= index < e0.len(),
        e0[index].value() is Some,
        e[index].value() is None,
        same_but(e0, e, index),
        forall|x: usize|
            f.contains(x) <==> ((f0.contains(x) && x != index + 1) || (x == index && head_at(e, index))),
    ensures
        forall|k: int| 0 <= k < f.len() ==> head_at(e, #[trigger] f[k] as int),
        forall|h: int| head_at(e, h) ==> f.contains(h as usize),
{
    assert forall|k: int| 0 <= k < f.len() implies head_at(e, #[trigger] f[k] as int) by {
        let x = f[k];
        assert(f.contains(x));
        if x != index {
            assert(f0.contains(x));
            let k0 = choose|k0: int| 0 <= k0 < f0.len() && f0[k0] == x;
            assert(head_at(e0, f0[k0] as int));
            assert(e[x as int].value() == e0[x as int].value());
            if x > 0 {
                assert(e[x - 1].value() == e0[x - 1].value());
            }
        }
    }
    assert forall|h: int| head_at(e, h) implies f.contains(h as usize) by {
        if h != index {
            assert(h != index + 1);
            assert(e[h].value() == e0[h].value());
            if h > 0 {
                assert(e[h - 1].value() == e0[h - 1].value());
            }
            assert(head_at(e0, h));
        }
    }
}

/// What a list holds after one of its items is replaced.
pub proof fn lemma_contains_after_update(f0: Seq<usize>, k: int, x0: usize)
    requires
        f0.no_duplicates(),
        0 <= k < f0.len(),
    ensures
        forall|x: usize| f0.update(k, x0).contains(x) <==> ((f0.contains(x) && x != f0[k]) || x == x0),
{
    let f = f0.update(k, x0);
    assert forall|x: usize| f.contains(x) <==> ((f0.contains(x) && x != f0[k]) || x == x0) by {
        if f0.contains(x) && x != f0[k] {
            let j = choose|j: int| 0 <= j < f0.len() && f0[j] == x;
            assert(f[j] == x);
        }
        if f.contains(x) && x != x0 {
            let j = choose|j: int| 0 <= j < f.len() && f[j] == x;
            assert(f0[j] == x);
        }
        if x == x0 {
            assert(f[k] == x);
        }
    }
}

/// What a list holds after one of its items is taken out.
pub proof fn lemma_contains_after_remove(f0: Seq<usize>, k: int)
    requires
        f0.no_duplicates(),
        0 <= k < f0.len(),
    ensures
        forall|x: usize| f0.remove(k).contains(x) <==> (f0.contains(x) && x != f0[k]),
{
    let f = f0.remove(k);
    assert forall|x: usize| f.contains(x) <==> (f0.contains(x) && x != f0[k]) by {
        if f0.contains(x) && x != f0[k] {
            let j = choose|j: int| 0 <= j < f0.len() && f0[j] == x;
            if j < k {
                assert(f[j] == x);
            } else {
                assert(f[j - 1] == x);
            }
        }
        if f.contains(x) {
            let j = choose|j: int| 0 <= j < f.len() && f[j] == x;
            if j < k {
                assert(f0[j] == x);
                assert(f0[j] != f0[k]);
            } else {
                assert(f0[j + 1] == x);
                assert(f0[j + 1] != f0[k]);
            }
        }
    }
}

/// What a list holds after an item is put in front.
pub proof fn lemma_contains_after_push(f0: Seq<usize>, x0: usize)
    ensures
        forall|x: usize| seq![x0].add(f0).contains(x) <==> (f0.contains(x) || x == x0),
{
    let f = seq![x0].add(f0);
    assert forall|x: usize| f.contains(x) <==> (f0.contains(x) || x == x0) by {
        if f0.contains(x) {
            let j = choose|j: int| 0 <= j < f0.len() && f0[j] == x;
            assert(f[j + 1] == x);
        }
        if f.contains(x) {
            let j = choose|j: int| 0 <= j < f.len() && f[j] == x;
            if j > 0 {
                assert(f0[j - 1] == x);
            }
        }
        if x == x0 {
            assert(f[0] == x);
        }
    }
}

} // verus!
