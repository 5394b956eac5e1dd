use std::sync::Arc;

use colony::{Colony, FlaggedColony, Handle, UnguardedColony};

const N: &[usize] = &[0, 1, 5, 10, 100, 1_000, 10_000, 100_000];

struct Model<T> {
    slots: Vec<Option<T>>,
    colony: UnguardedColony<T>,
}

impl<T> Model<T> {
    fn new() -> Self {
        Self {
            slots: Vec::new(),
            colony: Colony::default(),
        }
    }

    fn insert(&mut self, value: T) -> usize
    where
        T: Clone,
    {
        let index = self.colony.insert(value.clone());
        if index == self.slots.len() {
            self.slots.push(Some(value));
        } else if index < self.slots.len() {
            assert!(self.slots[index].is_none());
            self.slots[index] = Some(value);
        } else {
            panic!("out of bounds index");
        }
        index
    }

    fn remove(&mut self, index: usize)
    where
        T: Eq + std::fmt::Debug,
    {
        assert!(index < self.slots.len());
        let Some(expected) = self.slots[index].take() else {
            panic!("not occupied");
        };
        let actual = self.colony.remove_unchecked(index);
        assert_eq!(actual, expected);
    }

    fn check(&self)
    where
        T: Eq,
    {
        let expected: Vec<&T> = self.slots.iter().filter_map(|slot| slot.as_ref()).collect();
        let mut actual: Vec<&T> = Vec::new();
        let mut iter = self.colony.iter();
        while let Some((_, value)) = iter.next() {
            actual.push(value);
        }
        assert!(actual == expected);
        assert_eq!(self.colony.len(), expected.len());
    }
}

fn handles_and_values<T: Clone>(colony: &Colony<T>) -> Vec<(Handle, T)> {
    let mut out = Vec::new();
    let mut iter = colony.iter();
    while let Some((handle, value)) = iter.next() {
        out.push((handle, value.clone()));
    }
    out
}

#[test]
fn drops() {
    for &size in N {
        let arc = Arc::new(());
        let mut colony = Colony::new();
        for _ in 0..size {
            colony.insert(arc.clone());
        }
        assert_eq!(Arc::strong_count(&arc), size + 1);
        drop(colony);
        assert_eq!(Arc::strong_count(&arc), 1);
    }
}

#[test]
fn different_colonies_dont_alias() {
    let mut colony_1 = Colony::new();
    let handle_1 = colony_1.insert(1);

    let mut colony_2 = Colony::new();
    let handle_2 = colony_2.insert(1);

    assert_ne!(handle_1, handle_2);
    assert!(colony_1.get(handle_2).is_none());
    assert!(colony_2.get(handle_1).is_none());
}

#[test]
fn clear() {
    let mut colony = Colony::new();
    let handle = colony.insert(42);
    colony.clear();
    assert!(colony.get(handle).is_none());
}

#[test]
fn insert_after_clear_doesnt_alias() {
    let mut colony = Colony::new();

    let handle_1 = colony.insert(1);
    colony.clear();
    let handle_2 = colony.insert(2);

    assert_eq!(handle_1.index, handle_2.index);
    assert_ne!(handle_1, handle_2);
    assert!(colony.get(handle_1).is_none());
}

#[test]
fn handle_is_null_pointer_optimized() {
    assert_eq!(std::mem::size_of::<Handle>(), 16);
    assert_eq!(std::mem::size_of::<Option<Handle>>(), 16);
}

#[test]
fn get() {
    let mut colony = Colony::new();
    let handle = colony.insert(42);
    assert_eq!(colony.get(handle), Some(&42));
}

#[test]
fn get_after_remove_generation() {
    let mut colony = Colony::new();
    let handle = colony.insert(42);
    colony.remove(handle);
    assert_eq!(colony.get(handle), None);
}

#[test]
fn get_after_remove_flag() {
    let mut colony = Colony::flagged();
    let handle = colony.insert(42);
    colony.remove(handle);
    assert_eq!(colony.get(handle), None);
}

#[test]
fn get_after_readd() {
    let mut colony = Colony::new();
    let handle_1 = colony.insert(42);
    colony.remove(handle_1);
    let handle_2 = colony.insert(42);
    assert_ne!(handle_1, handle_2);
    assert_eq!(colony.get(handle_1), None);
}

fn reserve_one<T>(size: usize) {
    let mut colony = Colony::<T>::new();
    colony.reserve(size);
}

#[test]
fn reserve() {
    for &size in N {
        reserve_one::<()>(size);
        reserve_one::<u8>(size);
        reserve_one::<u32>(size);
        reserve_one::<[u32; 32]>(size);
    }
}

fn insert_all<T: Eq + Clone>(values: Vec<T>) {
    let mut model = Model::new();
    for (i, value) in values.into_iter().enumerate() {
        let index = model.insert(value);
        assert_eq!(index, i);
    }
    model.check();
}

#[test]
fn insert() {
    for &size in N {
        insert_all(vec![(); size]);
        insert_all(vec![42u8; size]);
        insert_all(vec![42u32; size]);
        insert_all(vec![[42u32; 32]; size]);
    }
}

#[test]
fn remove_all_forward() {
    for &size in N {
        let mut model = Model::new();
        for i in 0..size {
            model.insert(i);
        }
        for i in 0..size {
            model.remove(i);
        }
        model.check();
    }
}

#[test]
fn remove_all_backward() {
    for &size in N {
        let mut model = Model::new();
        for i in 0..size {
            model.insert(i);
        }
        for i in (0..size).rev() {
            model.remove(i);
        }
        model.check();
    }
}

#[test]
fn reuse_slot() {
    for &size in N {
        if size == 0 {
            continue;
        }
        let mut model = Model::new();
        for i in 0..size {
            model.insert(i);
        }
        for i in 0..size {
            model.remove(i);
            let index = model.insert(i);
            assert_eq!(index, i);
        }
        model.check();
    }
}

#[test]
fn join_skipblocks() {
    let mut model = Model::new();
    for i in 0..5 {
        model.insert(i);
    }
    model.remove(1);
    model.remove(3);
    model.remove(2);
    model.check();
}

#[test]
fn remove_and_readd_twice() {
    let mut model = Model::new();
    assert_eq!(model.insert(1), 0);
    model.remove(0);
    assert_eq!(model.insert(2), 0);
    assert_eq!(model.insert(3), 1);
    model.check();
}

#[test]
fn insert_after_skipblock_join() {
    let mut model = Model::new();
    assert_eq!(model.insert(1), 0);
    assert_eq!(model.insert(2), 1);
    assert_eq!(model.insert(3), 2);
    model.remove(0);
    model.remove(2);
    model.remove(1);
    assert_eq!(model.insert(5), 0);
    model.check();
}

#[test]
fn skipblock_join_and_reinsert_with_other_skipblock() {
    let mut model = Model::new();
    model.insert(1);
    model.insert(2);
    model.insert(3);
    model.insert(4);
    model.insert(5);
    model.remove(4);
    model.remove(0);
    model.remove(2);
    model.remove(1);
    model.insert(6);
    model.insert(7);
    model.insert(8);
    model.insert(9);
    model.insert(10);
    model.check();
}

#[test]
fn multiple_skipblocks_with_join() {
    let mut model = Model::new();
    model.insert(1);
    model.insert(1);
    model.insert(1);
    model.insert(1);
    model.insert(1);
    model.insert(1);
    model.remove(2);
    model.remove(5);
    model.remove(0);
    model.remove(1);
    model.insert(1);
    model.insert(1);
    model.remove(4);
    model.insert(1);
    model.insert(1);
    model.insert(1);
    model.check();
}

#[test]
fn scenario_remove_middle_then_iterate() {
    let mut colony = Colony::new();
    let h1 = colony.insert(1);
    let h2 = colony.insert(2);
    let h3 = colony.insert(3);
    assert_eq!(colony.remove(h2), Some(2));
    assert_eq!(handles_and_values(&colony), vec![(h1, 1), (h3, 3)]);
    assert_eq!(colony.len(), 2);
}

#[test]
fn scenario_join_into_one_skipblock() {
    let mut model = Model::new();
    for value in ['a', 'b', 'c', 'd', 'e'] {
        model.insert(value);
    }
    model.remove(1);
    model.remove(3);
    model.remove(2);
    model.check();
    // The one free block [1, 3] is reused from its head.
    assert_eq!(model.insert('x'), 1);
    assert_eq!(model.insert('y'), 2);
    assert_eq!(model.insert('z'), 3);
    assert_eq!(model.insert('w'), 5);
    model.check();
}

#[test]
fn scenario_reuse_after_removing_all() {
    let mut colony = Colony::new();
    let h1 = colony.insert(1);
    let h2 = colony.insert(2);
    let h3 = colony.insert(3);
    let capacity = colony.capacity();
    colony.remove(h2);
    colony.remove(h1);
    colony.remove(h3);
    let h5 = colony.insert(5);
    assert!(h5.index < 3);
    assert_eq!(colony.capacity(), capacity);
    assert_eq!(colony.get(h5), Some(&5));
    assert_eq!(colony.get(h1), None);
    assert_eq!(colony.get(h2), None);
    assert_eq!(colony.get(h3), None);
}

#[test]
fn scenario_reinsert_changes_generation() {
    let mut colony = Colony::new();
    let h1 = colony.insert(1);
    assert_eq!(colony.remove(h1), Some(1));
    let h2 = colony.insert(2);
    assert_eq!(h1.index, h2.index);
    assert_ne!(h1, h2);
    assert_eq!(h2.generation.generation(), h1.generation.generation() + 2);
    assert_eq!(h2.generation.colony_id(), h1.generation.colony_id());
}

#[test]
fn scenario_reinsert_same_index_flag_and_unguarded() {
    let mut flagged: FlaggedColony<i32> = Colony::flagged();
    let a = flagged.insert(1);
    assert_eq!(flagged.remove(a), Some(1));
    let b = flagged.insert(2);
    assert_eq!(a, b);
    assert_eq!(flagged.get(a), Some(&2));

    let mut unguarded: UnguardedColony<i32> = Colony::unguarded();
    let a = unguarded.insert(1);
    assert_eq!(unguarded.remove_unchecked(a), 1);
    let b = unguarded.insert(2);
    assert_eq!(a, b);
    assert_eq!(*unguarded.get_unchecked(b), 2);
}

#[test]
fn scenario_clear_then_insert() {
    let mut colony = Colony::new();
    let old = colony.insert(7);
    colony.clear();
    let new = colony.insert(8);
    assert_eq!(colony.get(old), None);
    assert_eq!(colony.get(new), Some(&8));
    assert_eq!(handles_and_values(&colony), vec![(new, 8)]);
}

#[test]
fn second_remove_is_absent() {
    let mut colony = Colony::new();
    let handle = colony.insert("foo");
    assert_eq!(colony.remove(handle), Some("foo"));
    assert_eq!(colony.remove(handle), None);
    assert_eq!(colony.len(), 0);
    assert!(colony.is_empty());
}

#[test]
fn reserve_allocates_once() {
    let mut colony = Colony::<u64>::new();
    assert_eq!(colony.capacity(), 0);
    colony.reserve(10);
    assert_eq!(colony.capacity(), 10);
    let handle = colony.insert(3);
    colony.reserve(5);
    assert_eq!(colony.capacity(), 10);
    colony.reserve(20);
    assert_eq!(colony.capacity(), 21);
    assert_eq!(colony.get(handle), Some(&3));
}

#[test]
fn minimum_capacities() {
    let mut bytes = Colony::<u8>::new();
    bytes.insert(1);
    assert_eq!(bytes.capacity(), 8);
    let mut words = Colony::<u64>::new();
    words.insert(1);
    assert_eq!(words.capacity(), 4);
    let mut big = Colony::<[u8; 2000]>::new();
    big.insert([0; 2000]);
    assert_eq!(big.capacity(), 1);
    big.insert([1; 2000]);
    assert_eq!(big.capacity(), 2);
    big.insert([2; 2000]);
    assert_eq!(big.capacity(), 4);
}

#[test]
fn handles_survive_growth() {
    let mut colony = Colony::new();
    let handles: Vec<Handle> = (0..100).map(|i| colony.insert(i)).collect();
    for (i, handle) in handles.iter().enumerate() {
        assert_eq!(colony.get(*handle), Some(&i));
    }
    assert!(colony.capacity() >= 100);
}

#[test]
fn long_removed_run_is_skipped() {
    let mut colony = Colony::new();
    let handles: Vec<Handle> = (0..1000).map(|i| colony.insert(i)).collect();
    for handle in &handles[100..900] {
        colony.remove(*handle);
    }
    let got: Vec<usize> = handles_and_values(&colony).into_iter().map(|(_, v)| v).collect();
    let want: Vec<usize> = (0..100).chain(900..1000).collect();
    assert_eq!(got, want);
    colony.remove(handles[99]);
    colony.remove(handles[900]);
    let got: Vec<usize> = handles_and_values(&colony).into_iter().map(|(_, v)| v).collect();
    let want: Vec<usize> = (0..99).chain(901..1000).collect();
    assert_eq!(got, want);
    let h = colony.insert(5000);
    assert_eq!(h.index, 99);
}

#[test]
fn size_hint_is_exact() {
    let mut colony = Colony::new();
    colony.insert(1);
    colony.insert(2);
    let mut values = colony.values();
    assert_eq!(values.size_hint(), (2, Some(2)));
    assert_eq!(values.next(), Some(&1));
    assert_eq!(values.size_hint(), (1, Some(1)));
    assert_eq!(values.next(), Some(&2));
    assert_eq!(values.next(), None);
    assert_eq!(values.next(), None);
}

#[test]
fn get_mut_changes_in_place() {
    let mut colony = Colony::new();
    let a = colony.insert(1);
    let b = colony.insert(2);
    if let Some(v) = colony.get_mut(b) {
        *v = 20;
    }
    assert_eq!(colony.get(b), Some(&20));
    assert_eq!(colony.get(a), Some(&1));
    colony.remove(a);
    assert!(colony.get_mut(a).is_none());
    *colony.get_unchecked_mut(b.index) += 1;
    assert_eq!(colony.get(b), Some(&21));
}

#[test]
fn iter_mut_and_values_mut_visit_in_order() {
    let mut colony = Colony::new();
    let handles: Vec<Handle> = (0..10).map(|i| colony.insert(i)).collect();
    colony.remove(handles[3]);
    colony.remove(handles[4]);
    let mut seen = Vec::new();
    let mut iter = colony.iter_mut();
    while let Some((handle, value)) = iter.next() {
        seen.push(handle);
        *value *= 10;
    }
    let want: Vec<Handle> = handles
        .iter()
        .enumerate()
        .filter(|(i, _)| *i != 3 && *i != 4)
        .map(|(_, h)| *h)
        .collect();
    assert_eq!(seen, want);
    let mut values = colony.values_mut();
    assert_eq!(values.size_hint(), (8, Some(8)));
    while let Some(value) = values.next() {
        *value += 1;
    }
    let got: Vec<i32> = handles_and_values(&colony).into_iter().map(|(_, v)| v).collect();
    assert_eq!(got, vec![1, 11, 21, 51, 61, 71, 81, 91]);
}

#[test]
fn extend_adds_every_value() {
    let mut colony = Colony::new();
    let a = colony.insert(1);
    colony.insert(2);
    colony.remove(a);
    colony.extend(vec![10, 11, 12]);
    assert_eq!(colony.len(), 4);
    let got: Vec<i32> = handles_and_values(&colony).into_iter().map(|(_, v)| v).collect();
    assert_eq!(got, vec![10, 2, 11, 12]);
}

#[test]
fn from_iter_keeps_order() {
    let colony: Colony<u8> = Colony::from_iter(vec![5, 6, 7]);
    assert_eq!(colony.len(), 3);
    let got: Vec<u8> = handles_and_values(&colony).into_iter().map(|(_, v)| v).collect();
    assert_eq!(got, vec![5, 6, 7]);
}

#[test]
fn clone_has_equal_values() {
    let mut colony = Colony::new();
    let handles: Vec<Handle> = (0..6).map(|i| colony.insert(i.to_string())).collect();
    colony.remove(handles[1]);
    colony.remove(handles[4]);
    let copy = colony.clone();
    let left: Vec<String> = handles_and_values(&colony).into_iter().map(|(_, v)| v).collect();
    let right: Vec<String> = handles_and_values(&copy).into_iter().map(|(_, v)| v).collect();
    assert_eq!(left, right);
    assert_eq!(copy.len(), 4);
}

#[test]
fn colonies_draw_distinct_nonzero_ids() {
    let mut a = Colony::new();
    let mut b = Colony::new();
    let ha = a.insert(0);
    let hb = b.insert(0);
    assert_ne!(ha.generation.colony_id(), 0);
    assert_ne!(hb.generation.colony_id(), 0);
    assert_ne!(ha.generation.colony_id(), hb.generation.colony_id());
    let before = ha.generation.colony_id();
    a.clear();
    let hc = a.insert(1);
    assert_ne!(hc.generation.colony_id(), before);
}

#[test]
fn exhausted_slot_is_retired() {
    let mut colony = Colony::new();
    let mut handle = colony.insert(0u32);
    for round in 1..32768u32 {
        assert_eq!(colony.remove(handle), Some(round - 1));
        handle = colony.insert(round);
        assert_eq!(handle.index, 0);
    }
    assert_eq!(handle.generation.generation(), 65534);
    assert_eq!(colony.remove(handle), Some(32767));
    // The slot's generation is used up: it is never handed out again.
    let next = colony.insert(1);
    assert_eq!(next.index, 1);
    assert_eq!(colony.get(handle), None);
    assert_eq!(colony.remove(next), Some(1));
    let after = colony.insert(2);
    assert_eq!(after.index, 2);
    assert_eq!(colony.len(), 1);
    assert_eq!(handles_and_values(&colony), vec![(after, 2)]);
}

#[test]
fn cloned_iterator_restarts_from_same_place() {
    let mut colony = Colony::new();
    colony.insert(1);
    colony.insert(2);
    colony.insert(3);
    let mut iter = colony.iter();
    iter.next();
    let mut copy = iter.clone();
    let a: Vec<i32> = std::iter::from_fn(|| iter.next().map(|(_, v)| *v)).collect();
    let b: Vec<i32> = std::iter::from_fn(|| copy.next().map(|(_, v)| *v)).collect();
    assert_eq!(a, vec![2, 3]);
    assert_eq!(a, b);
}

#[test]
fn extend_keeps_existing_handles() {
    let mut colony = Colony::new();
    let a = colony.insert(1);
    let b = colony.insert(2);
    colony.extend((10..20).collect());
    assert_eq!(colony.get(a), Some(&1));
    assert_eq!(colony.get(b), Some(&2));
    assert_eq!(colony.len(), 12);
    let mut got: Vec<i32> = handles_and_values(&colony).into_iter().map(|(_, v)| v).collect();
    got.sort();
    let mut want: Vec<i32> = vec![1, 2];
    want.extend(10..20);
    assert_eq!(got, want);
}
