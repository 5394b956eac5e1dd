use colony::skipfield::{Direction, SkipfieldPtr};

struct Model {
    field: SkipfieldPtr,
    skipped: Vec<bool>,
}

impl Model {
    fn new(size: usize) -> Self {
        Self {
            field: SkipfieldPtr::new(size),
            skipped: vec![false; size],
        }
    }

    fn len(&self) -> usize {
        self.skipped.len()
    }

    fn skip(&mut self, index: usize) {
        assert!(index < self.len());
        assert!(!self.skipped[index]);
        self.skipped[index] = true;
        self.field.skip(index);
    }

    fn unskip_leftmost(&mut self, index: usize) {
        assert!(index < self.len());
        assert!(self.skipped[index]);
        assert!(index == 0 || !self.skipped[index - 1]);
        self.skipped[index] = false;
        self.field.unskip_leftmost(index);
    }

    fn check(&self) {
        let mut index = 0;
        loop {
            let skipped = self.field.read(index as isize, Direction::Right);
            if skipped > 0 {
                let from_right = self
                    .field
                    .read((index + skipped - 1) as isize, Direction::Left);
                assert_eq!(skipped, from_right);
            }
            for _ in 0..skipped {
                assert!(self.skipped[index]);
                index += 1;
            }
            if index >= self.len() {
                return;
            }
            assert!(!self.skipped[index]);
            index += 1;
        }
    }
}

const N: &[usize] = &[0, 1, 5, 10, 100, 1_000, 10_000, 100_000];

#[test]
fn full() {
    for &size in N {
        let model = Model::new(size);
        model.check();
    }
}

#[test]
fn skip_one() {
    let mut model = Model::new(10);
    model.skip(5);
    model.check();
}

#[test]
fn skip_all() {
    for &size in N {
        let mut model = Model::new(size);
        for i in 0..size {
            model.skip(i);
        }
        model.check();
    }
}

#[test]
fn join_blocks() {
    let mut model = Model::new(5);
    model.skip(0);
    model.skip(1);
    model.skip(3);
    model.skip(4);
    model.skip(2);
    model.check();
}

#[test]
fn unskip_all() {
    for &size in N {
        let mut model = Model::new(size);
        for i in 0..size {
            model.skip(i);
        }
        for i in 0..size {
            model.unskip_leftmost(i);
        }
        model.check();
    }
}

#[test]
fn skip_returns_merged_block_ends() {
    let mut field = SkipfieldPtr::new(10);
    assert_eq!(field.skip(3), (3, 3));
    assert_eq!(field.skip(5), (5, 5));
    assert_eq!(field.skip(4), (3, 5));
    assert_eq!(field.read(3, Direction::Right), 3);
    assert_eq!(field.read(5, Direction::Left), 3);
    assert_eq!(field.read(2, Direction::Right), 0);
    assert_eq!(field.read(-1, Direction::Left), 0);
    assert_eq!(field.read(10, Direction::Right), 0);
}

#[test]
fn spilled_lengths_round_trip() {
    let size = 700;
    let mut model = Model::new(size);
    for i in 10..400 {
        model.skip(i);
    }
    for i in 600..300 + 300 + 90 {
        model.skip(i);
    }
    assert_eq!(model.field.read(10, Direction::Right), 390);
    assert_eq!(model.field.read(399, Direction::Left), 390);
    model.check();
    for i in 400..600 {
        model.skip(i);
    }
    assert_eq!(model.field.read(10, Direction::Right), 680);
    assert_eq!(model.field.read(689, Direction::Left), 680);
    model.check();
    for i in 10..440 {
        model.unskip_leftmost(i);
    }
    assert_eq!(model.field.read(440, Direction::Right), 250);
    assert_eq!(model.field.read(689, Direction::Left), 250);
    model.check();
}

#[test]
fn grow_keeps_blocks() {
    let mut field = SkipfieldPtr::new(4);
    field.skip(2);
    field.skip(3);
    field.grow(8);
    assert_eq!(field.len(), 8);
    assert_eq!(field.read(2, Direction::Right), 2);
    assert_eq!(field.read(3, Direction::Left), 2);
    assert_eq!(field.read(4, Direction::Right), 0);
    assert_eq!(field.skip(4), (2, 4));
    field.clear_prefix(5);
    for i in 0..8 {
        assert_eq!(field.read(i, Direction::Right), 0);
    }
}
