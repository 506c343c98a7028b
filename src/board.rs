//! The settled board: cells that belong to pieces which have landed.
use vstd::prelude::*;
use crate::piece::{BlockState, Pivot};

verus! {

/// The position of a settled cell as a pair of mathematical integers.
pub open spec fn cell_key(b: BlockState) -> (int, int) {
    (b.position.x as int, b.position.y as int)
}

/// Settled cells, each position held at most once.
pub struct SettledBoard {
    cells: Vec<BlockState>,
}

impl View for SettledBoard {
    type V = Map<(int, int), u8>;

    closed spec fn view(&self) -> Map<(int, int), u8> {
        Map::new(
            |k: (int, int)| exists|i: int| 0 <= i < self.cells@.len() && #[trigger] cell_key(self.cells@[i]) == k,
            |k: (int, int)|
                self.cells@[choose|i: int| 0 <= i < self.cells@.len() && #[trigger] cell_key(self.cells@[i]) == k].original_shape,
        )
    }
}

impl SettledBoard {
    /// No position is listed twice.
    spec fn distinct(&self) -> bool {
        forall|i: int, j: int|
            0 <= i < j < self.cells@.len() ==> cell_key(#[trigger] self.cells@[i]) != cell_key(#[trigger] self.cells@[j])
    }

    pub closed spec fn wf(&self) -> bool {
        &&& self.distinct()
        &&& self@.dom().finite()
    }

    /// A well-formed board holds finitely many cells.
    pub proof fn lemma_finite(&self)
        requires
            self.wf(),
        ensures
            self@.dom().finite(),
    {
    }

    proof fn lemma_lookup(&self, i: int)
        requires
            self.distinct(),
            0 <= i < self.cells@.len(),
        ensures
            self@.contains_key(cell_key(self.cells@[i])),
            self@[cell_key(self.cells@[i])] == self.cells@[i].original_shape,
    {
        let k = cell_key(self.cells@[i]);
        let j = choose|j: int| 0 <= j < self.cells@.len() && #[trigger] cell_key(self.cells@[j]) == k;
        assert(cell_key(self.cells@[j]) == k);
        if j < i {
            assert(cell_key(self.cells@[j]) != cell_key(self.cells@[i]));
        } else if i < j {
            assert(cell_key(self.cells@[i]) != cell_key(self.cells@[j]));
        }
    }

    /// An empty board.
    pub fn new() -> (r: SettledBoard)
        ensures
            r.wf(),
            r@ == Map::<(int, int), u8>::empty(),
    {
        let r = SettledBoard { cells: Vec::new() };
        assert(r@ =~= Map::<(int, int), u8>::empty());
        r
    }

    fn find(&self, x: i64, y: i64) -> (r: Option<usize>)
        requires
            self.wf(),
        ensures
            match r {
                Some(i) => i < self.cells@.len() && cell_key(self.cells@[i as int]) == (x as int, y as int),
                None => !self@.contains_key((x as int, y as int)),
            },
    {
        let mut i: usize = 0;
        while i < self.cells.len()
            invariant
                i <= self.cells@.len(),
                forall|j: int| 0 <= j < i ==> cell_key(#[trigger] self.cells@[j]) != (x as int, y as int),
            decreases self.cells@.len() - i,
        {
            let b = self.cells[i];
            if b.position.x as i64 == x && b.position.y as i64 == y {
                return Some(i);
            }
            i = i + 1;
        }
        None
    }

    /// Whether the cell `(x, y)` is settled.
    pub fn contains(&self, x: i64, y: i64) -> (r: bool)
        requires
            self.wf(),
        ensures
            r == self@.contains_key((x as int, y as int)),
    {
        match self.find(x, y) {
            Some(i) => {
                proof {
                    self.lemma_lookup(i as int);
                }
                true
            },
            None => false,
        }
    }

    /// The shape settled at `(x, y)`, if any.
    pub fn get(&self, x: i64, y: i64) -> (r: Option<u8>)
        requires
            self.wf(),
        ensures
            r == (if self@.contains_key((x as int, y as int)) {
                Some(self@[(x as int, y as int)])
            } else {
                None::<u8>
            }),
    {
        match self.find(x, y) {
            Some(i) => {
                proof {
                    self.lemma_lookup(i as int);
                }
                Some(self.cells[i].original_shape)
            },
            None => None,
        }
    }

    /// Settles `shape` at a free `position`; a settled cell is never changed.
    pub fn insert(&mut self, position: Pivot, shape: u8)
        requires
            old(self).wf(),
            !old(self)@.contains_key((position.x as int, position.y as int)),
        ensures
            final(self).wf(),
            final(self)@ == old(self)@.insert((position.x as int, position.y as int), shape),
    {
        let ghost k = (position.x as int, position.y as int);
        let ghost pre = self.cells@;
        let block = BlockState { position, original_shape: shape };
        self.cells.push(block);
        proof {
            let n = pre.len() as int;
            assert(self.cells@[n] == block);
            assert forall|a: int, b: int|
                0 <= a < b < self.cells@.len() implies cell_key(#[trigger] self.cells@[a])
                != cell_key(#[trigger] self.cells@[b]) by {
                if b == n {
                    assert(cell_key(pre[a]) != k) by {
                        if cell_key(pre[a]) == k {
                            assert(old(self)@.contains_key(k));
                        }
                    }
                } else {
                    assert(cell_key(pre[a]) != cell_key(pre[b]));
                }
            }
            self.lemma_lookup(n);
            assert forall|q: (int, int)| #[trigger] self@.contains_key(q) == old(self)@.insert(k, shape).contains_key(q) by {
                if q != k {
                    if self@.contains_key(q) {
                        let j = choose|j: int| 0 <= j < self.cells@.len() && #[trigger] cell_key(self.cells@[j]) == q;
                        assert(j != n);
                        assert(cell_key(pre[j]) == q);
                    }
                    if old(self)@.contains_key(q) {
                        let j = choose|j: int| 0 <= j < pre.len() && #[trigger] cell_key(pre[j]) == q;
                        assert(cell_key(self.cells@[j]) == q);
                    }
                }
            }
            assert forall|q: (int, int)| #[trigger] self@.contains_key(q) && q != k implies self@[q] == old(self)@[q] by {
                let j = choose|j: int| 0 <= j < self.cells@.len() && #[trigger] cell_key(self.cells@[j]) == q;
                self.lemma_lookup(j);
                assert(j != n);
                assert(cell_key(pre[j]) == q);
                old(self).lemma_lookup(j);
            }
            assert(self@ =~= old(self)@.insert(k, shape));
            assert(self@.dom() =~= old(self)@.dom().insert(k));
        }
    }

    /// Every settled cell, each listed once.
    pub fn entries(&self) -> (r: Vec<BlockState>)
        requires
            self.wf(),
        ensures
            forall|i: int, j: int| 0 <= i < j < r@.len() ==> cell_key(#[trigger] r@[i]) != cell_key(#[trigger] r@[j]),
            forall|i: int| 0 <= i < r@.len() ==> #[trigger] self@.contains_key(cell_key(r@[i]))
                && self@[cell_key(r@[i])] == r@[i].original_shape,
            forall|k: (int, int)| #[trigger] self@.contains_key(k) ==> exists|i: int| 0 <= i < r@.len() && cell_key(#[trigger] r@[i]) == k,
    {
        proof {
            assert forall|i: int| 0 <= i < self.cells@.len() implies #[trigger] self@.contains_key(cell_key(self.cells@[i]))
                && self@[cell_key(self.cells@[i])] == self.cells@[i].original_shape by {
                self.lemma_lookup(i);
            }
        }
        self.cells.clone()
    }
}

} // verus!
