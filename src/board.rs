//! The 9x9 grid, its candidate bookkeeping and the propagation solver.
use crate::cell::{digit_text, is_digit, Cell};
use std::collections::HashSet;
use vstd::prelude::*;
use vstd::set_lib::{lemma_int_range, lemma_len_subset, set_int_range};
use vstd::string::StringExecFns;

verus! {

broadcast use vstd::std_specs::hash::group_hash_axioms;

pub open spec fn in_grid(r: int, c: int) -> bool {
    0 <= r < 9 && 0 <= c < 9
}

pub open spec fn same_box(r1: int, c1: int, r2: int, c2: int) -> bool {
    r1 / 3 == r2 / 3 && c1 / 3 == c2 / 3
}

/// Two different cells that share a row, a column or a box.
pub open spec fn peer(r1: int, c1: int, r2: int, c2: int) -> bool {
    (r1 != r2 || c1 != c2) && (r1 == r2 || c1 == c2 || same_box(r1, c1, r2, c2))
}

/// The `m`-th cell of group `g`: groups 0 to 8 are the rows, 9 to 17 the
/// columns and 18 to 26 the boxes in reading order.
pub open spec fn group_cell(g: int, m: int) -> (int, int) {
    if g < 9 {
        (g, m)
    } else if g < 18 {
        (m, g - 9)
    } else {
        (3 * ((g - 18) / 3) + m / 3, 3 * ((g - 18) % 3) + m % 3)
    }
}

/// Seventeen dashes and a newline.
pub open spec fn dash_line() -> Seq<char> {
    seq!['-', '-', '-', '-', '-', '-', '-', '-', '-', '-', '-', '-', '-', '-', '-', '-', '-', '\n']
}

/// The flat index of a (row, column) pair.
pub open spec fn flat(rc: (int, int)) -> int {
    9 * rc.0 + rc.1
}

/// Peers, by flat index.
pub open spec fn flat_peer(k1: int, k2: int) -> bool {
    peer(k1 / 9, k1 % 9, k2 / 9, k2 % 9)
}

/// A grid seen as its 81 cells in reading order: each the digit held and the
/// candidate digits.
pub type Grid = Seq<(u32, Set<u32>)>;

/// The grid after a commit of `num` at flat index `t`.
pub open spec fn commit_grid(g: Grid, t: int, num: u32) -> Grid {
    Seq::new(
        81,
        |k: int|
            if k == t {
                (num, Set::<u32>::empty())
            } else if flat_peer(t, k) {
                (g[k].0, g[k].1.remove(num))
            } else {
                g[k]
            },
    )
}

/// The grid after the naked-single pass has looked at its first `n` cells.
pub open spec fn naked_grid(g: Grid, n: int) -> Grid
    decreases n,
{
    if n <= 0 {
        g
    } else {
        let h = naked_grid(g, n - 1);
        if exists|v: u32| #[trigger] singleton(v) == h[n - 1].1 {
            commit_grid(h, n - 1, choose|v: u32| #[trigger] singleton(v) == h[n - 1].1)
        } else {
            h
        }
    }
}

/// The candidates of the `m`-th cell of group `gi`.
pub open spec fn grid_group_cands(h: Grid, gi: int, m: int) -> Set<u32> {
    h[flat(group_cell(gi, m))].1
}

/// In group `gi`, only the `m`-th cell has `v` among its candidates.
pub open spec fn grid_sole_holder(h: Grid, gi: int, v: u32, m: int) -> bool {
    &&& 0 <= m < 9
    &&& grid_group_cands(h, gi, m).contains(v)
    &&& forall|m2: int|
        0 <= m2 < 9 && m2 != m ==> !#[trigger] grid_group_cands(h, gi, m2).contains(v)
}

/// The grid after the hidden-single rule for digit `num` in group `gi`.
pub open spec fn hidden_digit_grid(h: Grid, gi: int, num: u32) -> Grid {
    if exists|m: int| grid_sole_holder(h, gi, num, m) {
        let m = choose|m: int| grid_sole_holder(h, gi, num, m);
        let t = flat(group_cell(gi, m));
        if h[t].0 == 0 {
            commit_grid(h, t, num)
        } else {
            h
        }
    } else {
        h
    }
}

/// The grid after the hidden-single rule for the digits 1 to `n` in group `gi`.
pub open spec fn hidden_group_grid(h: Grid, gi: int, n: int) -> Grid
    decreases n,
{
    if n <= 0 {
        h
    } else {
        hidden_digit_grid(hidden_group_grid(h, gi, n - 1), gi, n as u32)
    }
}

/// The grid after the hidden-single pass over the first `n` groups.
pub open spec fn hidden_grid(h: Grid, n: int) -> Grid
    decreases n,
{
    if n <= 0 {
        h
    } else {
        hidden_group_grid(hidden_grid(h, n - 1), n - 1, 9)
    }
}

/// One round of the solver: a naked-single pass, then a hidden-single pass.
pub open spec fn round_grid(g: Grid) -> Grid {
    hidden_grid(naked_grid(g, 81), 27)
}

/// The grid after `n` rounds.
pub open spec fn rounds_grid(g: Grid, n: nat) -> Grid
    decreases n,
{
    if n == 0 {
        g
    } else {
        round_grid(rounds_grid(g, (n - 1) as nat))
    }
}

/// Once a round changes nothing, no later round does.
pub proof fn lemma_rounds_stay(g: Grid, n: nat, d: nat)
    requires
        round_grid(rounds_grid(g, n)) == rounds_grid(g, n),
    ensures
        rounds_grid(g, n + d) == rounds_grid(g, n),
    decreases d,
{
    if d > 0 {
        lemma_rounds_stay(g, n, (d - 1) as nat);
        assert(rounds_grid(g, n + d) == round_grid(rounds_grid(g, (n + d - 1) as nat)));
    }
}

proof fn lemma_naked_len(g: Grid, n: int)
    requires
        g.len() == 81,
    ensures
        naked_grid(g, n).len() == 81,
    decreases n,
{
    if n > 0 {
        lemma_naked_len(g, n - 1);
    }
}

/// Before the naked-single pass reaches cell `k`, its candidates stay `{v}`
/// and no cell not yet reached gains a candidate.
proof fn lemma_naked_before(g: Grid, k: int, v: u32, n: int)
    requires
        g.len() == 81,
        0 <= k < 81,
        0 <= n <= k,
        g[k].1 == singleton(v),
        forall|t: int| 0 <= t < k && flat_peer(t, k) ==> !(#[trigger] g[t]).1.contains(v),
    ensures
        naked_grid(g, n)[k].1 == singleton(v),
        forall|t: int| n <= t < 81 ==> (#[trigger] naked_grid(g, n)[t]).1.subset_of(g[t].1),
    decreases n,
{
    lemma_naked_len(g, n);
    if n > 0 {
        lemma_naked_before(g, k, v, n - 1);
        lemma_naked_len(g, n - 1);
        let h = naked_grid(g, n - 1);
        if exists|w: u32| #[trigger] singleton(w) == h[n - 1].1 {
            let w = choose|w: u32| #[trigger] singleton(w) == h[n - 1].1;
            assert(h[n - 1].1.contains(w)) by {
                assert(singleton(w).contains(w));
            }
            if flat_peer(n - 1, k) {
                assert(w != v);
                assert(h[k].1.remove(w) =~= h[k].1);
            }
            assert forall|t: int| n <= t < 81 implies (#[trigger] naked_grid(g, n)[t]).1.subset_of(
                g[t].1,
            ) by {
                assert(h[t].1.subset_of(g[t].1));
            }
        }
    }
}

/// Once the naked-single pass is past cell `k`, the digit of that cell stays.
proof fn lemma_naked_after(g: Grid, k: int, n: int)
    requires
        g.len() == 81,
        0 <= k < n <= 81,
    ensures
        naked_grid(g, n)[k].0 == naked_grid(g, k + 1)[k].0,
    decreases n,
{
    if n > k + 1 {
        lemma_naked_after(g, k, n - 1);
        lemma_naked_len(g, n - 1);
    }
}

/// A cell whose candidates are exactly `{v}` holds `v` after a naked-single
/// pass, provided no peer before it in reading order has `v` among its
/// candidates (such a peer could take `v` first).
pub proof fn lemma_naked_single_placed(g: Grid, k: int, v: u32)
    requires
        g.len() == 81,
        0 <= k < 81,
        g[k].1 == singleton(v),
        forall|t: int| 0 <= t < k && flat_peer(t, k) ==> !(#[trigger] g[t]).1.contains(v),
    ensures
        naked_grid(g, 81)[k].0 == v,
{
    lemma_naked_before(g, k, v, k);
    lemma_naked_len(g, k);
    let h = naked_grid(g, k);
    assert(singleton(v) == h[k].1);
    let w = choose|w: u32| #[trigger] singleton(w) == h[k].1;
    assert(singleton(w).contains(w));
    lemma_naked_after(g, k, 81);
}

/// When, in group `gi`, only the empty `m`-th cell has `v` among its
/// candidates, the hidden-single rule for `v` in that group gives that cell `v`.
pub proof fn lemma_hidden_single_placed(h: Grid, gi: int, v: u32, m: int)
    requires
        h.len() == 81,
        0 <= gi < 27,
        grid_sole_holder(h, gi, v, m),
        h[flat(group_cell(gi, m))].0 == 0,
    ensures
        hidden_digit_grid(h, gi, v)[flat(group_cell(gi, m))].0 == v,
{
    let m2 = choose|m2: int| grid_sole_holder(h, gi, v, m2);
    if m2 != m {
        assert(!grid_group_cands(h, gi, m).contains(v));
    }
}

pub open spec fn singleton(v: u32) -> Set<u32> {
    set![v]
}

/// The grid, its cells kept in reading order (row by row).
pub struct Board {
    board: Vec<Cell>,
}

impl View for Board {
    type V = Grid;

    closed spec fn view(&self) -> Grid {
        self.board@.map_values(|c: Cell| (c.value(), c.cands()))
    }
}

impl Board {
    /// The cell at row `r`, column `c`.
    pub closed spec fn cell(&self, r: int, c: int) -> Cell {
        self.board@[9 * r + c]
    }

    pub open spec fn value(&self, r: int, c: int) -> u32 {
        self.cell(r, c).value()
    }

    pub open spec fn cands(&self, r: int, c: int) -> Set<u32> {
        self.cell(r, c).cands()
    }

    /// Eighty-one cells, each holding 0 or a digit; a filled cell has no
    /// candidates.
    pub closed spec fn wf(&self) -> bool {
        &&& self.board@.len() == 81
        &&& forall|k: int|
            0 <= k < 81 ==> (#[trigger] self.board@[k]).value() <= 9 && (self.board@[k].value()
                != 0 ==> self.board@[k].cands() == Set::<u32>::empty())
    }

    /// No two peers hold the same digit.
    pub open spec fn consistent(&self) -> bool {
        forall|r1: int, c1: int, r2: int, c2: int|
            in_grid(r1, c1) && in_grid(r2, c2) && peer(r1, c1, r2, c2) && self.value(r1, c1) != 0
                ==> #[trigger] self.value(r1, c1) != #[trigger] self.value(r2, c2)
    }

    pub open spec fn used_by_peers(&self, r: int, c: int, v: u32) -> bool {
        exists|r2: int, c2: int|
            in_grid(r2, c2) && peer(r, c, r2, c2) && #[trigger] self.value(r2, c2) == v
    }

    /// The digits that no peer of (r, c) holds.
    pub open spec fn allowed(&self, r: int, c: int) -> Set<u32> {
        Set::new(|v: u32| is_digit(v) && !self.used_by_peers(r, c, v))
    }

    /// Every empty cell's candidates are exactly the digits its peers leave.
    pub open spec fn annotated(&self) -> bool {
        forall|r: int, c: int|
            in_grid(r, c) && self.value(r, c) == 0 ==> #[trigger] self.cands(r, c) == self.allowed(
                r,
                c,
            )
    }

    /// The flat indices (9 * row + column) of the empty cells.
    pub closed spec fn unfilled(&self) -> Set<int> {
        Set::new(|k: int| 0 <= k < 81 && self.board@[k].value() == 0)
    }

    proof fn lemma_index(k: int)
        requires
            0 <= k < 81,
        ensures
            in_grid(k / 9, k % 9),
            9 * (k / 9) + k % 9 == k,
    {
    }

    proof fn lemma_coords(r: int, c: int)
        requires
            in_grid(r, c),
        ensures
            (9 * r + c) / 9 == r,
            (9 * r + c) % 9 == c,
            0 <= 9 * r + c < 81,
    {
    }

    pub fn new_from_vec(numbers: Vec<Vec<u32>>) -> (r: Self)
        requires
            numbers@.len() == 9,
            forall|i: int| 0 <= i < 9 ==> (#[trigger] numbers@[i])@.len() == 9,
            forall|i: int, j: int| in_grid(i, j) ==> #[trigger] numbers@[i]@[j] <= 9,
        ensures
            r.wf(),
            forall|i: int, j: int|
                in_grid(i, j) ==> #[trigger] r.value(i, j) == numbers@[i]@[j] && r.cands(i, j)
                    == Set::<u32>::empty(),
    {
        let mut grid: Vec<Cell> = Vec::new();
        let mut i: usize = 0;
        while i < 9
            invariant
                0 <= i <= 9,
                grid@.len() == 9 * i,
                numbers@.len() == 9,
                forall|a: int| 0 <= a < 9 ==> (#[trigger] numbers@[a])@.len() == 9,
                forall|a: int, b: int| in_grid(a, b) ==> #[trigger] numbers@[a]@[b] <= 9,
                forall|a: int, b: int|
                    0 <= a < i && 0 <= b < 9 ==> #[trigger] grid@[9 * a + b].value()
                        == numbers@[a]@[b] && grid@[9 * a + b].cands() == Set::<u32>::empty(),
            decreases 9 - i,
        {
            let mut j: usize = 0;
            while j < 9
                invariant
                    0 <= i < 9,
                    0 <= j <= 9,
                    grid@.len() == 9 * i + j,
                    numbers@.len() == 9,
                    forall|a: int| 0 <= a < 9 ==> (#[trigger] numbers@[a])@.len() == 9,
                    forall|a: int, b: int| in_grid(a, b) ==> #[trigger] numbers@[a]@[b] <= 9,
                    forall|a: int, b: int|
                        (0 <= a < i && 0 <= b < 9) || (a == i && 0 <= b < j)
                            ==> #[trigger] grid@[9 * a + b].value() == numbers@[a]@[b]
                            && grid@[9 * a + b].cands() == Set::<u32>::empty(),
                decreases 9 - j,
            {
                let cell = Cell::new_from_number(numbers[i][j]);
                grid.push(cell);
                j = j + 1;
            }
            i = i + 1;
        }
        let r = Self { board: grid };
        proof {
            assert forall|k: int| 0 <= k < 81 implies (#[trigger] r.board@[k]).value() <= 9 && (
            r.board@[k].value() != 0 ==> r.board@[k].cands() == Set::<u32>::empty()) by {
                Self::lemma_index(k);
                assert(grid@[9 * (k / 9) + k % 9].value() == numbers@[k / 9]@[k % 9]);
            }
        }
        r
    }

    /// A copy of the candidates of the cell at row `i`, column `j`.
    pub fn get_annotations_for_cell(&mut self, i: usize, j: usize) -> (r: HashSet<u32>)
        requires
            old(self).wf(),
            in_grid(i as int, j as int),
        ensures
            *final(self) == *old(self),
            r@ == old(self).cands(i as int, j as int),
    {
        let mut cell = self.board[9 * i + j];
        cell.get_annotations()
    }

    /// What one commit of `num` at (i, j) does: the cell takes `num` and
    /// loses its candidates, every peer loses `num` as a candidate, and no
    /// other cell changes.
    pub open spec fn committed(&self, prev: Board, i: int, j: int, num: u32) -> bool {
        &&& self.value(i, j) == num
        &&& self.cands(i, j) == Set::<u32>::empty()
        &&& forall|r: int, c: int|
            in_grid(r, c) && (r != i || c != j) ==> #[trigger] self.value(r, c) == prev.value(r, c)
                && self.cands(r, c) == (if peer(i, j, r, c) {
                prev.cands(r, c).remove(num)
            } else {
                prev.cands(r, c)
            })
    }

    proof fn lemma_commit_keeps_invariants(prev: Board, next: Board, i: int, j: int, num: u32)
        requires
            prev.wf(),
            next.wf(),
            in_grid(i, j),
            prev.consistent(),
            prev.annotated(),
            prev.value(i, j) == 0,
            prev.cands(i, j).contains(num),
            next.committed(prev, i, j, num),
        ensures
            next.consistent(),
            next.annotated(),
            next.unfilled() == prev.unfilled().remove(9 * i + j),
    {
        assert(is_digit(num));
        assert forall|r1: int, c1: int, r2: int, c2: int|
            in_grid(r1, c1) && in_grid(r2, c2) && peer(r1, c1, r2, c2) && next.value(r1, c1)
                != 0 implies #[trigger] next.value(r1, c1) != #[trigger] next.value(r2, c2) by {
            if r1 == i && c1 == j {
                if next.value(r2, c2) == num {
                    assert(prev.used_by_peers(i, j, num));
                }
            } else if r2 == i && c2 == j {
                if next.value(r1, c1) == num {
                    assert(prev.value(r1, c1) == num);
                    assert(prev.used_by_peers(i, j, num));
                }
            }
        }
        assert forall|r: int, c: int| in_grid(r, c) && next.value(r, c) == 0 implies #[trigger] next.cands(
            r,
            c,
        ) == next.allowed(r, c) by {
            assert(r != i || c != j);
            assert(prev.cands(r, c) == prev.allowed(r, c));
            assert forall|v: u32| is_digit(v) implies (next.used_by_peers(r, c, v) <==> (
            prev.used_by_peers(r, c, v) || (peer(i, j, r, c) && v == num))) by {
                if next.used_by_peers(r, c, v) {
                    let (r2, c2) = choose|r2: int, c2: int|
                        in_grid(r2, c2) && peer(r, c, r2, c2) && #[trigger] next.value(r2, c2) == v;
                    if r2 != i || c2 != j {
                        assert(prev.value(r2, c2) == v);
                    }
                }
                if prev.used_by_peers(r, c, v) {
                    let (r2, c2) = choose|r2: int, c2: int|
                        in_grid(r2, c2) && peer(r, c, r2, c2) && #[trigger] prev.value(r2, c2) == v;
                    assert(r2 != i || c2 != j);
                    assert(next.value(r2, c2) == v);
                }
                if peer(i, j, r, c) && v == num {
                    assert(next.value(i, j) == num);
                }
            }
            assert(next.cands(r, c) =~= next.allowed(r, c));
        }
        assert forall|k: int| #[trigger] next.unfilled().contains(k) <==> prev.unfilled().remove(
            9 * i + j,
        ).contains(k) by {
            if 0 <= k < 81 {
                Self::lemma_index(k);
                Self::lemma_coords(i, j);
                if k != 9 * i + j {
                    assert(next.value(k / 9, k % 9) == prev.value(k / 9, k % 9));
                }
            }
        }
        assert(next.unfilled() =~= prev.unfilled().remove(9 * i + j));
    }

    /// Commits `num` at row `i`, column `j` and removes it from the
    /// candidates of the cell's peers.
    pub fn update_and_propegate_cell(&mut self, i: usize, j: usize, num: u32)
        requires
            old(self).wf(),
            in_grid(i as int, j as int),
            is_digit(num),
        ensures
            final(self).wf(),
            final(self).committed(*old(self), i as int, j as int, num),
            final(self)@ == commit_grid(old(self)@, 9 * i + j, num),
            forall|r: int, c: int|
                in_grid(r, c) && peer(i as int, j as int, r, c) ==> !#[trigger] final(self).cands(
                    r,
                    c,
                ).contains(num),
            old(self).consistent() && old(self).annotated() && old(self).value(i as int, j as int)
                == 0 && old(self).cands(i as int, j as int).contains(num) ==> {
                &&& final(self).consistent()
                &&& final(self).annotated()
                &&& final(self).unfilled() == old(self).unfilled().remove(9 * i + j)
            },
    {
        let ghost prev = *self;
        let t: usize = 9 * i + j;
        proof {
            Self::lemma_coords(i as int, j as int);
        }
        let mut cell = self.board[t];
        cell.set(num);
        cell.clear_annotations();
        self.board.set(t, cell);
        let mut k: usize = 0;
        while k < 81
            invariant
                0 <= k <= 81,
                t == 9 * i + j,
                t < 81,
                in_grid(i as int, j as int),
                prev.wf(),
                self.board@.len() == 81,
                self.board@[t as int].value() == num,
                self.board@[t as int].cands() == Set::<u32>::empty(),
                forall|k2: int|
                    0 <= k2 < 81 && k2 != t ==> (#[trigger] self.board@[k2]).value()
                        == prev.board@[k2].value() && self.board@[k2].cands() == (if k2 < k && peer(
                        i as int,
                        j as int,
                        k2 / 9,
                        k2 % 9,
                    ) {
                        prev.board@[k2].cands().remove(num)
                    } else {
                        prev.board@[k2].cands()
                    }),
            decreases 81 - k,
        {
            let r = k / 9;
            let c = k % 9;
            if k != t && (r == i || c == j || (r / 3 == i / 3 && c / 3 == j / 3)) {
                let mut p = self.board[k];
                p.remove_annotation(num);
                self.board.set(k, p);
            }
            k = k + 1;
        }
        proof {
            assert forall|k2: int| 0 <= k2 < 81 implies (#[trigger] self.board@[k2]).value() <= 9 && (
            self.board@[k2].value() != 0 ==> self.board@[k2].cands() == Set::<u32>::empty()) by {
                if k2 != t {
                    assert(prev.board@[k2] == prev.board@[k2]);
                    if self.board@[k2].value() != 0 {
                        assert(prev.board@[k2].cands() =~= prev.board@[k2].cands().remove(num));
                    }
                }
            }
            assert forall|r: int, c: int| in_grid(r, c) && (r != i || c != j) implies #[trigger] self.value(
                r,
                c,
            ) == prev.value(r, c) && self.cands(r, c) == (if peer(i as int, j as int, r, c) {
                prev.cands(r, c).remove(num)
            } else {
                prev.cands(r, c)
            }) by {
                Self::lemma_coords(r, c);
            }
            assert forall|k2: int| 0 <= k2 < 81 implies #[trigger] self@[k2] == commit_grid(
                prev@,
                t as int,
                num,
            )[k2] by {
                Self::lemma_index(k2);
            }
            assert(self@ =~= commit_grid(prev@, t as int, num));
            if prev.consistent() && prev.annotated() && prev.value(i as int, j as int) == 0
                && prev.cands(i as int, j as int).contains(num) {
                Self::lemma_commit_keeps_invariants(prev, *self, i as int, j as int, num);
            }
        }
    }
    /// Boards whose cells hold the same digits leave the same candidates.
    proof fn lemma_same_values(a: Board, b: Board)
        requires
            a.wf(),
            b.wf(),
            forall|k: int| 0 <= k < 81 ==> (#[trigger] a.board@[k]).value() == b.board@[k].value(),
        ensures
            forall|r: int, c: int, v: u32|
                in_grid(r, c) ==> (#[trigger] a.used_by_peers(r, c, v) <==> b.used_by_peers(r, c, v)),
            forall|r: int, c: int| in_grid(r, c) ==> #[trigger] a.allowed(r, c) == b.allowed(r, c),
            forall|r: int, c: int| in_grid(r, c) ==> #[trigger] a.value(r, c) == b.value(r, c),
    {
        assert forall|r: int, c: int| in_grid(r, c) implies #[trigger] a.value(r, c) == b.value(r, c) by {
            Self::lemma_coords(r, c);
        }
        assert forall|r: int, c: int, v: u32| in_grid(r, c) implies (#[trigger] a.used_by_peers(
            r,
            c,
            v,
        ) <==> b.used_by_peers(r, c, v)) by {
            if a.used_by_peers(r, c, v) {
                let (r2, c2) = choose|r2: int, c2: int|
                    in_grid(r2, c2) && peer(r, c, r2, c2) && #[trigger] a.value(r2, c2) == v;
                assert(b.value(r2, c2) == v);
            }
            if b.used_by_peers(r, c, v) {
                let (r2, c2) = choose|r2: int, c2: int|
                    in_grid(r2, c2) && peer(r, c, r2, c2) && #[trigger] b.value(r2, c2) == v;
                assert(a.value(r2, c2) == v);
            }
        }
        assert forall|r: int, c: int| in_grid(r, c) implies #[trigger] a.allowed(r, c) == b.allowed(
            r,
            c,
        ) by {
            assert(a.allowed(r, c) =~= b.allowed(r, c));
        }
    }

    /// The digits in column `j` outside row `i` (0 for an empty cell).
    fn get_used_numbers_in_col(&self, i: usize, j: usize) -> (r: HashSet<u32>)
        requires
            self.wf(),
            in_grid(i as int, j as int),
        ensures
            r@ == Set::new(
                |v: u32|
                    exists|r2: int| 0 <= r2 < 9 && r2 != i && #[trigger] self.value(r2, j as int) == v,
            ),
    {
        let mut numbers: HashSet<u32> = HashSet::new();
        let mut row_idx: usize = 0;
        while row_idx < 9
            invariant
                self.wf(),
                in_grid(i as int, j as int),
                0 <= row_idx <= 9,
                numbers@ == Set::new(
                    |v: u32|
                        exists|r2: int|
                            0 <= r2 < row_idx && r2 != i && #[trigger] self.value(r2, j as int) == v,
                ),
            decreases 9 - row_idx,
        {
            if row_idx != i {
                proof {
                    Self::lemma_coords(row_idx as int, j as int);
                }
                let v = self.board[9 * row_idx + j].get();
                numbers.insert(v);
                assert(numbers@ =~= Set::new(
                    |w: u32|
                        exists|r2: int|
                            0 <= r2 < row_idx + 1 && r2 != i && #[trigger] self.value(r2, j as int)
                                == w,
                )) by {
                    assert(self.value(row_idx as int, j as int) == v);
                }
            } else {
                assert(numbers@ =~= Set::new(
                    |w: u32|
                        exists|r2: int|
                            0 <= r2 < row_idx + 1 && r2 != i && #[trigger] self.value(r2, j as int)
                                == w,
                ));
            }
            row_idx = row_idx + 1;
        }
        numbers
    }

    /// The digits in row `i` outside column `j` (0 for an empty cell).
    fn get_used_numbers_in_row(&self, i: usize, j: usize) -> (r: HashSet<u32>)
        requires
            self.wf(),
            in_grid(i as int, j as int),
        ensures
            r@ == Set::new(
                |v: u32|
                    exists|c2: int| 0 <= c2 < 9 && c2 != j && #[trigger] self.value(i as int, c2) == v,
            ),
    {
        let mut numbers: HashSet<u32> = HashSet::new();
        let mut col_idx: usize = 0;
        while col_idx < 9
            invariant
                self.wf(),
                in_grid(i as int, j as int),
                0 <= col_idx <= 9,
                numbers@ == Set::new(
                    |v: u32|
                        exists|c2: int|
                            0 <= c2 < col_idx && c2 != j && #[trigger] self.value(i as int, c2) == v,
                ),
            decreases 9 - col_idx,
        {
            if col_idx != j {
                proof {
                    Self::lemma_coords(i as int, col_idx as int);
                }
                let v = self.board[9 * i + col_idx].get();
                numbers.insert(v);
                assert(numbers@ =~= Set::new(
                    |w: u32|
                        exists|c2: int|
                            0 <= c2 < col_idx + 1 && c2 != j && #[trigger] self.value(i as int, c2)
                                == w,
                )) by {
                    assert(self.value(i as int, col_idx as int) == v);
                }
            } else {
                assert(numbers@ =~= Set::new(
                    |w: u32|
                        exists|c2: int|
                            0 <= c2 < col_idx + 1 && c2 != j && #[trigger] self.value(i as int, c2)
                                == w,
                ));
            }
            col_idx = col_idx + 1;
        }
        numbers
    }

    /// The digit of the `m`-th cell, in reading order, of the box of (i, j).
    pub open spec fn box_value(&self, i: int, j: int, m: int) -> u32 {
        self.value(3 * (i / 3) + m / 3, 3 * (j / 3) + m % 3)
    }

    /// Whether the `m`-th cell of the box of (i, j) is another cell than (i, j).
    pub open spec fn box_other(i: int, j: int, m: int) -> bool {
        3 * (i / 3) + m / 3 != i || 3 * (j / 3) + m % 3 != j
    }

    proof fn lemma_box_member(i: int, j: int, m: int)
        requires
            in_grid(i, j),
            0 <= m < 9,
        ensures
            in_grid(3 * (i / 3) + m / 3, 3 * (j / 3) + m % 3),
            same_box(i, j, 3 * (i / 3) + m / 3, 3 * (j / 3) + m % 3),
    {
    }

    proof fn lemma_box_index(i: int, j: int, r2: int, c2: int)
        requires
            in_grid(i, j),
            in_grid(r2, c2),
            same_box(i, j, r2, c2),
        ensures
            ({
                let m = 3 * (r2 - 3 * (i / 3)) + (c2 - 3 * (j / 3));
                &&& 0 <= m < 9
                &&& 3 * (i / 3) + m / 3 == r2
                &&& 3 * (j / 3) + m % 3 == c2
            }),
    {
    }

    /// The digits in the box of (i, j) outside that cell (0 for an empty cell).
    fn get_used_numbers_in_box(&self, i: usize, j: usize) -> (r: HashSet<u32>)
        requires
            self.wf(),
            in_grid(i as int, j as int),
        ensures
            r@ == Set::new(
                |v: u32|
                    exists|m: int|
                        0 <= m < 9 && Self::box_other(i as int, j as int, m) && #[trigger] self.box_value(
                            i as int,
                            j as int,
                            m,
                        ) == v,
            ),
    {
        let mut numbers: HashSet<u32> = HashSet::new();
        let base_row_idx: usize = i / 3 * 3;
        let base_col_idx: usize = j / 3 * 3;
        let mut n: usize = 0;
        while n < 9
            invariant
                self.wf(),
                in_grid(i as int, j as int),
                base_row_idx == 3 * (i / 3),
                base_col_idx == 3 * (j / 3),
                0 <= n <= 9,
                numbers@ == Set::new(
                    |v: u32|
                        exists|m: int|
                            0 <= m < n && Self::box_other(i as int, j as int, m)
                                && #[trigger] self.box_value(i as int, j as int, m) == v,
                ),
            decreases 9 - n,
        {
            let final_row_idx = base_row_idx + n / 3;
            let final_col_idx = base_col_idx + n % 3;
            proof {
                Self::lemma_box_member(i as int, j as int, n as int);
            }
            if final_row_idx != i || final_col_idx != j {
                proof {
                    Self::lemma_coords(final_row_idx as int, final_col_idx as int);
                }
                let v = self.board[9 * final_row_idx + final_col_idx].get();
                numbers.insert(v);
                assert(numbers@ =~= Set::new(
                    |w: u32|
                        exists|m: int|
                            0 <= m < n + 1 && Self::box_other(i as int, j as int, m)
                                && #[trigger] self.box_value(i as int, j as int, m) == w,
                )) by {
                    assert(self.box_value(i as int, j as int, n as int) == v);
                }
            } else {
                assert(numbers@ =~= Set::new(
                    |w: u32|
                        exists|m: int|
                            0 <= m < n + 1 && Self::box_other(i as int, j as int, m)
                                && #[trigger] self.box_value(i as int, j as int, m) == w,
                ));
            }
            n = n + 1;
        }
        numbers
    }

    /// The digits held by the peers of (i, j), with 0 when one is empty.
    fn get_used_numbers(&self, i: usize, j: usize) -> (r: HashSet<u32>)
        requires
            self.wf(),
            in_grid(i as int, j as int),
        ensures
            r@ == Set::new(|v: u32| self.used_by_peers(i as int, j as int, v)),
    {
        let col = self.get_used_numbers_in_col(i, j);
        let row = self.get_used_numbers_in_row(i, j);
        let bx = self.get_used_numbers_in_box(i, j);
        let ghost used = Set::new(|v: u32| self.used_by_peers(i as int, j as int, v));
        proof {
            assert forall|v: u32| used.contains(v) <==> (col@.contains(v) || row@.contains(v)
                || bx@.contains(v)) by {
                if self.used_by_peers(i as int, j as int, v) {
                    let (r2, c2) = choose|r2: int, c2: int|
                        in_grid(r2, c2) && peer(i as int, j as int, r2, c2) && #[trigger] self.value(
                            r2,
                            c2,
                        ) == v;
                    if c2 == j {
                        assert(col@.contains(v));
                    } else if r2 == i {
                        assert(row@.contains(v));
                    } else {
                        Self::lemma_box_index(i as int, j as int, r2, c2);
                        let m = 3 * (r2 - 3 * (i / 3)) + (c2 - 3 * (j / 3));
                        assert(self.box_value(i as int, j as int, m) == v);
                        assert(bx@.contains(v));
                    }
                }
                if col@.contains(v) {
                    let r2 = choose|r2: int|
                        0 <= r2 < 9 && r2 != i && #[trigger] self.value(r2, j as int) == v;
                    assert(peer(i as int, j as int, r2, j as int));
                }
                if row@.contains(v) {
                    let c2 = choose|c2: int|
                        0 <= c2 < 9 && c2 != j && #[trigger] self.value(i as int, c2) == v;
                    assert(peer(i as int, j as int, i as int, c2));
                }
                if bx@.contains(v) {
                    let m = choose|m: int|
                        0 <= m < 9 && Self::box_other(i as int, j as int, m) && #[trigger] self.box_value(
                            i as int,
                            j as int,
                            m,
                        ) == v;
                    Self::lemma_box_member(i as int, j as int, m);
                    assert(peer(i as int, j as int, 3 * (i / 3) + m / 3, 3 * (j / 3) + m % 3));
                }
            }
            assert forall|v: u32| used.contains(v) implies v <= 9 by {
                let (r2, c2) = choose|r2: int, c2: int|
                    in_grid(r2, c2) && peer(i as int, j as int, r2, c2) && #[trigger] self.value(
                        r2,
                        c2,
                    ) == v;
                Self::lemma_coords(r2, c2);
            }
        }
        let mut total: HashSet<u32> = HashSet::new();
        let mut d: u32 = 0;
        while d <= 9
            invariant
                0 <= d <= 10,
                forall|v: u32| used.contains(v) <==> (col@.contains(v) || row@.contains(v) || bx@.contains(v)),
                forall|v: u32| used.contains(v) ==> v <= 9,
                forall|v: u32| #[trigger] total@.contains(v) <==> (v < d && used.contains(v)),
            decreases 10 - d,
        {
            if col.contains(&d) || row.contains(&d) || bx.contains(&d) {
                total.insert(d);
            }
            d = d + 1;
        }
        assert(total@ =~= used);
        total
    }

    /// Gives every empty cell the digits that its peers leave as candidates.
    /// Filled cells are left as they are.
    pub fn annotate_board(&mut self)
        requires
            old(self).wf(),
        ensures
            final(self).wf(),
            final(self).annotated(),
            forall|r: int, c: int| in_grid(r, c) ==> #[trigger] final(self).value(r, c) == old(self).value(r, c),
            forall|r: int, c: int|
                in_grid(r, c) && old(self).value(r, c) != 0 ==> #[trigger] final(self).cands(r, c)
                    == old(self).cands(r, c),
            final(self).unfilled() == old(self).unfilled(),
    {
        let ghost prev = *self;
        let mut k: usize = 0;
        while k < 81
            invariant
                0 <= k <= 81,
                prev.wf(),
                self.wf(),
                forall|k2: int| 0 <= k2 < 81 ==> (#[trigger] self.board@[k2]).value() == prev.board@[k2].value(),
                forall|k2: int|
                    0 <= k2 < 81 ==> (#[trigger] self.board@[k2]).cands() == (if k2 < k
                        && prev.board@[k2].value() == 0 {
                        prev.allowed(k2 / 9, k2 % 9)
                    } else {
                        prev.board@[k2].cands()
                    }),
            decreases 81 - k,
        {
            let i = k / 9;
            let j = k % 9;
            proof {
                Self::lemma_index(k as int);
                Self::lemma_same_values(*self, prev);
            }
            if self.board[k].get() == 0 {
                let used = self.get_used_numbers(i, j);
                let mut available: HashSet<u32> = HashSet::new();
                let mut d: u32 = 1;
                while d <= 9
                    invariant
                        1 <= d <= 10,
                        forall|v: u32|
                            #[trigger] available@.contains(v) <==> (1 <= v < d && !used@.contains(v)),
                    decreases 10 - d,
                {
                    if !used.contains(&d) {
                        available.insert(d);
                    }
                    d = d + 1;
                }
                assert(available@ =~= prev.allowed(i as int, j as int));
                let mut cell = self.board[k];
                cell.set_annotations(available);
                self.board.set(k, cell);
            }
            k = k + 1;
        }
        proof {
            Self::lemma_same_values(*self, prev);
            assert forall|r: int, c: int| in_grid(r, c) && self.value(r, c) == 0 implies #[trigger] self.cands(
                r,
                c,
            ) == self.allowed(r, c) by {
                Self::lemma_coords(r, c);
            }
            assert forall|r: int, c: int| in_grid(r, c) && prev.value(r, c) != 0 implies #[trigger] self.cands(
                r,
                c,
            ) == prev.cands(r, c) by {
                Self::lemma_coords(r, c);
            }
            assert(self.unfilled() =~= prev.unfilled());
        }
    }
    proof fn lemma_unfilled_finite(&self)
        ensures
            self.unfilled().finite(),
    {
        lemma_int_range(0, 81);
        assert(self.unfilled().subset_of(set_int_range(0, 81)));
        lemma_len_subset(self.unfilled(), set_int_range(0, 81));
    }

    pub open spec fn group_cands(&self, g: int, m: int) -> Set<u32> {
        grid_group_cands(self@, g, m)
    }

    /// Within group `g`, the `m`-th cell is the only one with `v` among its
    /// candidates.
    pub open spec fn sole_holder(&self, g: int, v: u32, m: int) -> bool {
        &&& 0 <= m < 9
        &&& self.group_cands(g, m).contains(v)
        &&& forall|m2: int| 0 <= m2 < 9 && m2 != m ==> !#[trigger] self.group_cands(g, m2).contains(v)
    }

    pub open spec fn has_hidden_single(&self, g: int) -> bool {
        exists|v: u32, m: int| is_digit(v) && #[trigger] self.sole_holder(g, v, m)
    }

    pub open spec fn has_naked_single(&self) -> bool {
        exists|r: int, c: int, v: u32|
            in_grid(r, c) && #[trigger] self.cands(r, c) == #[trigger] singleton(v)
    }

    /// Neither rule can place another digit.
    pub open spec fn stalled(&self) -> bool {
        &&& !self.has_naked_single()
        &&& forall|g: int| 0 <= g < 27 ==> !#[trigger] self.has_hidden_single(g)
    }

    /// What holds between the board before and after a solving step: the
    /// invariants stay, digits already placed stay, and empty cells may be
    /// filled.
    pub open spec fn progressed_from(&self, prev: Board) -> bool {
        &&& self.wf()
        &&& self.consistent()
        &&& self.annotated()
        &&& self.unfilled().subset_of(prev.unfilled())
        &&& forall|r: int, c: int|
            in_grid(r, c) && prev.value(r, c) != 0 ==> #[trigger] self.value(r, c) == prev.value(r, c)
    }

    proof fn lemma_group_cell(g: int, m: int)
        requires
            0 <= g < 27,
            0 <= m < 9,
        ensures
            in_grid(group_cell(g, m).0, group_cell(g, m).1),
    {
    }

    /// `self` is what `annotate_board` makes of `prev`.
    pub open spec fn annotation_of(&self, prev: Board) -> bool {
        &&& self.wf()
        &&& self.annotated()
        &&& forall|r: int, c: int| in_grid(r, c) ==> #[trigger] self.value(r, c) == prev.value(r, c)
        &&& forall|r: int, c: int|
            in_grid(r, c) && prev.value(r, c) != 0 ==> #[trigger] self.cands(r, c) == prev.cands(r, c)
    }

    /// `self` is what `initial_solve` makes of `prev`: the candidates are
    /// computed, then rounds run until one changes nothing.
    pub open spec fn solved_from(&self, prev: Board) -> bool {
        exists|a: Board, n: nat|
            a.annotation_of(prev) && self@ == #[trigger] rounds_grid(a@, n) && round_grid(self@)
                == self@
    }

    proof fn lemma_view_value(&self, r: int, c: int)
        requires
            self.wf(),
            in_grid(r, c),
        ensures
            self@[9 * r + c].0 == self.value(r, c),
            self@[9 * r + c].1 == self.cands(r, c),
    {
        Self::lemma_coords(r, c);
    }

    /// Boards that look the same have the same candidates computed for them.
    proof fn lemma_annotation_unique(b1: Board, b2: Board, a1: Board, a2: Board)
        requires
            b1.wf(),
            b2.wf(),
            b1@ == b2@,
            a1.annotation_of(b1),
            a2.annotation_of(b2),
        ensures
            a1@ == a2@,
    {
        assert forall|r: int, c: int| in_grid(r, c) implies #[trigger] b1.value(r, c) == b2.value(r, c)
            && b1.cands(r, c) == b2.cands(r, c) by {
            b1.lemma_view_value(r, c);
            b2.lemma_view_value(r, c);
        }
        assert forall|k: int| 0 <= k < 81 implies (#[trigger] a1.board@[k]).value()
            == a2.board@[k].value() by {
            Self::lemma_index(k);
            assert(a1.value(k / 9, k % 9) == a2.value(k / 9, k % 9));
        }
        Self::lemma_same_values(a1, a2);
        assert forall|k: int| 0 <= k < 81 implies #[trigger] a1@[k] == a2@[k] by {
            Self::lemma_index(k);
            let (r, c) = (k / 9, k % 9);
            a1.lemma_view_value(r, c);
            a2.lemma_view_value(r, c);
            if b1.value(r, c) == 0 {
                assert(a1.cands(r, c) == a1.allowed(r, c));
            }
        }
        assert(a1@ =~= a2@);
    }

    /// Solving is deterministic: two boards that look the same before
    /// `initial_solve` look the same after it.
    pub proof fn lemma_solve_deterministic(b1: Board, b2: Board, f1: Board, f2: Board)
        requires
            b1.wf(),
            b2.wf(),
            b1@ == b2@,
            f1.solved_from(b1),
            f2.solved_from(b2),
        ensures
            f1@ == f2@,
    {
        let (a1, n1) = choose|a: Board, n: nat|
            a.annotation_of(b1) && f1@ == #[trigger] rounds_grid(a@, n) && round_grid(f1@) == f1@;
        let (a2, n2) = choose|a: Board, n: nat|
            a.annotation_of(b2) && f2@ == #[trigger] rounds_grid(a@, n) && round_grid(f2@) == f2@;
        Self::lemma_annotation_unique(b1, b2, a1, a2);
        if n1 <= n2 {
            lemma_rounds_stay(a1@, n1, (n2 - n1) as nat);
            assert(n1 + (n2 - n1) as nat == n2);
        } else {
            lemma_rounds_stay(a2@, n2, (n1 - n2) as nat);
            assert(n2 + (n1 - n2) as nat == n1);
        }
    }

    /// The 27 groups: rows, then columns, then boxes, each as (row, column)
    /// pairs.
    fn generate_all_groups(&self) -> (r: Vec<Vec<(usize, usize)>>)
        ensures
            r@.len() == 27,
            forall|g: int| 0 <= g < 27 ==> (#[trigger] r@[g])@.len() == 9,
            forall|g: int, m: int|
                0 <= g < 27 && 0 <= m < 9 ==> (#[trigger] r@[g]@[m]).0 as int == group_cell(g, m).0
                    && r@[g]@[m].1 as int == group_cell(g, m).1,
    {
        let mut groups: Vec<Vec<(usize, usize)>> = Vec::new();
        let mut g: usize = 0;
        while g < 27
            invariant
                0 <= g <= 27,
                groups@.len() == g,
                forall|g2: int| 0 <= g2 < g ==> (#[trigger] groups@[g2])@.len() == 9,
                forall|g2: int, m: int|
                    0 <= g2 < g && 0 <= m < 9 ==> (#[trigger] groups@[g2]@[m]).0 as int == group_cell(
                        g2,
                        m,
                    ).0 && groups@[g2]@[m].1 as int == group_cell(g2, m).1,
            decreases 27 - g,
        {
            let mut set: Vec<(usize, usize)> = Vec::new();
            let mut m: usize = 0;
            while m < 9
                invariant
                    0 <= g < 27,
                    0 <= m <= 9,
                    set@.len() == m,
                    forall|m2: int|
                        0 <= m2 < m ==> (#[trigger] set@[m2]).0 as int == group_cell(g as int, m2).0
                            && set@[m2].1 as int == group_cell(g as int, m2).1,
                decreases 9 - m,
            {
                if g < 9 {
                    set.push((g, m));
                } else if g < 18 {
                    set.push((m, g - 9));
                } else {
                    set.push(((g - 18) / 3 * 3 + m / 3, (g - 18) % 3 * 3 + m % 3));
                }
                m = m + 1;
            }
            groups.push(set);
            g = g + 1;
        }
        groups
    }

    /// Looks in the group whose cells `set_of_coordinates` lists for digits
    /// that only one cell may take, and places each one found. Tells whether
    /// a cell was filled.
    fn resolve_unique_possibilities_for_a_set_of_9(
        &mut self,
        set_of_coordinates: &Vec<(usize, usize)>,
        Ghost(g): Ghost<int>,
    ) -> (r: bool)
        requires
            old(self).wf(),
            old(self).consistent(),
            old(self).annotated(),
            0 <= g < 27,
            set_of_coordinates@.len() == 9,
            forall|m: int|
                0 <= m < 9 ==> (#[trigger] set_of_coordinates@[m]).0 as int == group_cell(g, m).0
                    && set_of_coordinates@[m].1 as int == group_cell(g, m).1,
        ensures
            final(self).progressed_from(*old(self)),
            !r ==> *final(self) == *old(self) && !old(self).has_hidden_single(g),
            r ==> final(self).unfilled().len() < old(self).unfilled().len(),
            final(self)@ == hidden_group_grid(old(self)@, g, 9),
    {
        let ghost start = *self;
        proof {
            start.lemma_unfilled_finite();
        }
        let mut updated_cell = false;
        let mut num: u32 = 1;
        while num <= 9
            invariant
                1 <= num <= 10,
                0 <= g < 27,
                start.unfilled().finite(),
                set_of_coordinates@.len() == 9,
                forall|m: int|
                    0 <= m < 9 ==> (#[trigger] set_of_coordinates@[m]).0 as int == group_cell(g, m).0
                        && set_of_coordinates@[m].1 as int == group_cell(g, m).1,
                self.progressed_from(start),
                !updated_cell ==> *self == start && forall|v: u32, m: int|
                    1 <= v < num ==> !#[trigger] self.sole_holder(g, v, m),
                updated_cell ==> self.unfilled().len() < start.unfilled().len(),
                self@ == hidden_group_grid(start@, g, num - 1),
            decreases 10 - num,
        {
            let mut first: Option<usize> = None;
            let mut several = false;
            let mut m: usize = 0;
            while m < 9
                invariant
                    0 <= m <= 9,
                    0 <= g < 27,
                    1 <= num <= 9,
                    self.wf(),
                    set_of_coordinates@.len() == 9,
                    forall|m2: int|
                        0 <= m2 < 9 ==> (#[trigger] set_of_coordinates@[m2]).0 as int == group_cell(
                            g,
                            m2,
                        ).0 && set_of_coordinates@[m2].1 as int == group_cell(g, m2).1,
                    several ==> exists|a: int, b: int|
                        0 <= a < b < m && #[trigger] self.group_cands(g, a).contains(num)
                            && #[trigger] self.group_cands(g, b).contains(num),
                    !several && first is None ==> forall|m2: int|
                        0 <= m2 < m ==> !#[trigger] self.group_cands(g, m2).contains(num),
                    !several && first is Some ==> {
                        let h = first->Some_0 as int;
                        &&& 0 <= h < m
                        &&& self.group_cands(g, h).contains(num)
                        &&& forall|m2: int|
                            0 <= m2 < m && m2 != h ==> !#[trigger] self.group_cands(g, m2).contains(
                                num,
                            )
                    },
                decreases 9 - m,
            {
                let (i, j) = set_of_coordinates[m];
                proof {
                    Self::lemma_group_cell(g, m as int);
                    Self::lemma_coords(i as int, j as int);
                    assert(self.group_cands(g, m as int) == self.board@[9 * i + j].cands());
                }
                if self.board[9 * i + j].has_annotation(num) {
                    if first.is_none() {
                        first = Some(m);
                    } else if !several {
                        proof {
                            let h = first->Some_0 as int;
                            assert(self.group_cands(g, h).contains(num));
                            assert(self.group_cands(g, m as int).contains(num));
                        }
                        several = true;
                    }
                }
                m = m + 1;
            }
            let ghost current = *self;
            proof {
                if several || first is None {
                    assert forall|m: int| !grid_sole_holder(current@, g, num, m) by {
                        if grid_sole_holder(current@, g, num, m) {
                            if several {
                                let (a, b) = choose|a: int, b: int|
                                    0 <= a < b < 9 && #[trigger] self.group_cands(g, a).contains(num)
                                        && #[trigger] self.group_cands(g, b).contains(num);
                                assert(a == m || b == m);
                            } else {
                                assert(self.group_cands(g, m).contains(num));
                            }
                        }
                    }
                }
            }
            if !several {
                match first {
                    None => {},
                    Some(h) => {
                        let (i, j) = set_of_coordinates[h];
                        proof {
                            Self::lemma_coords(i as int, j as int);
                            assert forall|m2: int| 0 <= m2 < 9 && m2 != h as int implies !#[trigger] grid_group_cands(
                                current@,
                                g,
                                m2,
                            ).contains(num) by {
                                assert(!self.group_cands(g, m2).contains(num));
                            }
                            assert(self.group_cands(g, h as int).contains(num));
                            assert(grid_sole_holder(current@, g, num, h as int));
                            let m2 = choose|m2: int| grid_sole_holder(current@, g, num, m2);
                            if m2 != h as int {
                                assert(!grid_group_cands(current@, g, h as int).contains(num));
                            }
                            assert(flat(group_cell(g, h as int)) == 9 * i + j);
                            assert(current@[9 * i + j].0 == current.board@[9 * i + j].value());
                        }
                        if self.board[9 * i + j].get() == 0 {
                            let ghost before = *self;
                            proof {
                                before.lemma_unfilled_finite();
                                lemma_len_subset(before.unfilled(), start.unfilled());
                            }
                            self.update_and_propegate_cell(i, j, num);
                            updated_cell = true;
                        }
                    },
                }
            }
            proof {
                if !updated_cell {
                    assert forall|v: u32, m: int| 1 <= v < num + 1 implies !#[trigger] self.sole_holder(
                        g,
                        v,
                        m,
                    ) by {
                        if v == num && self.sole_holder(g, v, m) {
                            if several {
                                let (a, b) = choose|a: int, b: int|
                                    0 <= a < b < 9 && #[trigger] self.group_cands(g, a).contains(num)
                                        && #[trigger] self.group_cands(g, b).contains(num);
                                assert(a == m || b == m);
                            } else if first is None {
                                assert(self.group_cands(g, m).contains(num));
                            } else {
                                let h = first->Some_0 as int;
                                assert(h == m);
                                Self::lemma_coords(group_cell(g, h).0, group_cell(g, h).1);
                                assert(self.board@[9 * group_cell(g, h).0 + group_cell(g, h).1].cands().contains(num));
                            }
                        }
                    }
                }
            }
            assert(self@ == hidden_group_grid(start@, g, num as int));
            num = num + 1;
        }
        proof {
            if !updated_cell {
                assert forall|v: u32, m: int| is_digit(v) implies !#[trigger] self.sole_holder(g, v, m) by {
                }
            }
        }
        updated_cell
    }
    proof fn lemma_progress_trans(a: Board, b: Board, c: Board)
        requires
            b.progressed_from(a),
            c.progressed_from(b),
        ensures
            c.progressed_from(a),
    {
    }

    /// Places the digit of every cell left with exactly one candidate, in
    /// reading order. Tells whether a cell was filled.
    fn resolve_single_candidates(&mut self) -> (r: bool)
        requires
            old(self).wf(),
            old(self).consistent(),
            old(self).annotated(),
        ensures
            final(self).progressed_from(*old(self)),
            !r ==> *final(self) == *old(self) && !old(self).has_naked_single(),
            r ==> final(self).unfilled().len() < old(self).unfilled().len(),
            final(self)@ == naked_grid(old(self)@, 81),
    {
        let ghost start = *self;
        proof {
            start.lemma_unfilled_finite();
        }
        let mut updated_cell = false;
        let mut k: usize = 0;
        while k < 81
            invariant
                0 <= k <= 81,
                start.unfilled().finite(),
                self.progressed_from(start),
                !updated_cell ==> *self == start && forall|r: int, c: int, v: u32|
                    in_grid(r, c) && 9 * r + c < k ==> #[trigger] self.cands(r, c) != #[trigger] singleton(v),
                updated_cell ==> self.unfilled().len() < start.unfilled().len(),
                self@ == naked_grid(start@, k as int),
            decreases 81 - k,
        {
            let i = k / 9;
            let j = k % 9;
            proof {
                Self::lemma_index(k as int);
            }
            let cell = self.board[k];
            assert(self@[k as int].1 == cell.cands());
            match cell.single_annotation() {
                Some(v) => {
                    let ghost before = *self;
                    proof {
                        let h = before@;
                        assert(singleton(v) == h[k as int].1);
                        let w = choose|w: u32| #[trigger] singleton(w) == h[k as int].1;
                        assert(singleton(w).contains(w));
                        assert(w == v);
                        before.lemma_unfilled_finite();
                        lemma_len_subset(before.unfilled(), start.unfilled());
                        assert(before.cands(i as int, j as int).contains(v));
                        assert(is_digit(v)) by {
                            assert(before.allowed(i as int, j as int).contains(v));
                        }
                    }
                    self.update_and_propegate_cell(i, j, v);
                    updated_cell = true;
                },
                None => {
                    proof {
                        assert forall|w: u32| #[trigger] singleton(w) != self@[k as int].1 by {
                            assert(cell.cands() != set![w]);
                        }
                        if !updated_cell {
                            assert forall|r: int, c: int, v: u32|
                                in_grid(r, c) && 9 * r + c < k + 1 implies #[trigger] self.cands(r, c)
                                != #[trigger] singleton(v) by {
                                if 9 * r + c == k {
                                    Self::lemma_coords(r, c);
                                }
                            }
                        }
                    }
                },
            }
            k = k + 1;
        }
        proof {
            if !updated_cell {
                assert forall|r: int, c: int, v: u32| in_grid(r, c) implies !(#[trigger] self.cands(r, c)
                    == #[trigger] singleton(v)) by {
                    Self::lemma_coords(r, c);
                }
            }
        }
        updated_cell
    }

    /// Runs the hidden-single search over every group in turn. Tells whether
    /// a cell was filled.
    fn resolve_hidden_singles(&mut self) -> (r: bool)
        requires
            old(self).wf(),
            old(self).consistent(),
            old(self).annotated(),
        ensures
            final(self).progressed_from(*old(self)),
            !r ==> *final(self) == *old(self) && forall|g: int|
                0 <= g < 27 ==> !#[trigger] old(self).has_hidden_single(g),
            r ==> final(self).unfilled().len() < old(self).unfilled().len(),
            final(self)@ == hidden_grid(old(self)@, 27),
    {
        let ghost start = *self;
        proof {
            start.lemma_unfilled_finite();
        }
        let groups = self.generate_all_groups();
        let mut updated_cell = false;
        let mut g: usize = 0;
        while g < 27
            invariant
                0 <= g <= 27,
                start.unfilled().finite(),
                groups@.len() == 27,
                forall|g2: int| 0 <= g2 < 27 ==> (#[trigger] groups@[g2])@.len() == 9,
                forall|g2: int, m: int|
                    0 <= g2 < 27 && 0 <= m < 9 ==> (#[trigger] groups@[g2]@[m]).0 as int
                        == group_cell(g2, m).0 && groups@[g2]@[m].1 as int == group_cell(g2, m).1,
                self.progressed_from(start),
                !updated_cell ==> *self == start && forall|g2: int|
                    0 <= g2 < g ==> !#[trigger] self.has_hidden_single(g2),
                updated_cell ==> self.unfilled().len() < start.unfilled().len(),
                self@ == hidden_grid(start@, g as int),
            decreases 27 - g,
        {
            let ghost before = *self;
            proof {
                before.lemma_unfilled_finite();
                lemma_len_subset(before.unfilled(), start.unfilled());
            }
            let found = self.resolve_unique_possibilities_for_a_set_of_9(&groups[g], Ghost(g as int));
            proof {
                Self::lemma_progress_trans(start, before, *self);
                if found {
                    lemma_len_subset(before.unfilled(), start.unfilled());
                }
            }
            updated_cell = updated_cell || found;
            g = g + 1;
        }
        updated_cell
    }

    /// Fills in what the two rules can decide: computes the candidates, then
    /// repeats a pass of naked singles and a pass of hidden singles until a
    /// round places nothing. The grid may be left partly empty.
    pub fn initial_solve(&mut self)
        requires
            old(self).wf(),
            old(self).consistent(),
        ensures
            final(self).progressed_from(*old(self)),
            final(self).stalled(),
            final(self).solved_from(*old(self)),
    {
        let ghost start = *self;
        self.annotate_board();
        proof {
            assert forall|k: int| 0 <= k < 81 implies (#[trigger] self.board@[k]).value()
                == start.board@[k].value() by {
                Self::lemma_index(k);
                assert(self.value(k / 9, k % 9) == start.value(k / 9, k % 9));
            }
            Self::lemma_same_values(*self, start);
            assert forall|r1: int, c1: int, r2: int, c2: int|
                in_grid(r1, c1) && in_grid(r2, c2) && peer(r1, c1, r2, c2) && self.value(r1, c1)
                    != 0 implies #[trigger] self.value(r1, c1) != #[trigger] self.value(r2, c2) by {
                assert(start.value(r1, c1) != start.value(r2, c2));
            }
            assert(self.unfilled() == start.unfilled());
        }
        let ghost annotated = *self;
        let ghost mut rounds: nat = 0;
        loop
            invariant
                self.progressed_from(start),
                annotated.annotation_of(start),
                self@ == rounds_grid(annotated@, rounds),
            ensures
                self.progressed_from(start),
                self.stalled(),
                annotated.annotation_of(start),
                self@ == rounds_grid(annotated@, rounds),
                round_grid(self@) == self@,
            decreases self.unfilled().len(),
        {
            let ghost before = *self;
            let naked = self.resolve_single_candidates();
            let ghost middle = *self;
            let hidden = self.resolve_hidden_singles();
            proof {
                Self::lemma_progress_trans(start, before, middle);
                Self::lemma_progress_trans(start, middle, *self);
                before.lemma_unfilled_finite();
                middle.lemma_unfilled_finite();
                lemma_len_subset(self.unfilled(), middle.unfilled());
                lemma_len_subset(middle.unfilled(), before.unfilled());
            }
            proof {
                rounds = rounds + 1;
            }
            if !naked && !hidden {
                break;
            }
        }
    }
    /// The text of the first `n` cells of row `r`: digits apart by a space,
    /// with a pipe between the thirds of the row.
    pub open spec fn row_text(&self, r: int, n: int) -> Seq<char>
        decreases n,
    {
        if n <= 0 {
            Seq::empty()
        } else {
            self.row_text(r, n - 1) + (if n - 1 == 0 {
                Seq::empty()
            } else if (n - 1) % 3 == 0 {
                seq!['|']
            } else {
                seq![' ']
            }) + digit_text(self.value(r, n - 1))
        }
    }

    /// The text of the first `n` rows, each ending in a newline, with a line
    /// of dashes between the thirds of the grid.
    pub open spec fn rows_text(&self, n: int) -> Seq<char>
        decreases n,
    {
        if n <= 0 {
            Seq::empty()
        } else {
            self.rows_text(n - 1) + (if n - 1 != 0 && (n - 1) % 3 == 0 {
                dash_line()
            } else {
                Seq::empty()
            }) + self.row_text(n - 1, 9) + seq!['\n']
        }
    }

    /// The whole grid as text.
    pub fn to_str_unannotated(&self) -> (r: String)
        requires
            self.wf(),
        ensures
            r@ == self.rows_text(9),
    {
        let mut output = String::new();
        proof {
            reveal_strlit("-----------------\n");
            reveal_strlit("|");
            reveal_strlit(" ");
            reveal_strlit("\n");
            assert("-----------------\n"@ =~= dash_line());
        }
        let mut i: usize = 0;
        while i < 9
            invariant
                0 <= i <= 9,
                self.wf(),
                output@ == self.rows_text(i as int),
                "-----------------\n"@ == dash_line(),
                "|"@ == seq!['|'],
                " "@ == seq![' '],
                "\n"@ == seq!['\n'],
            decreases 9 - i,
        {
            if i != 0 && i % 3 == 0 {
                output.append("-----------------\n");
            }
            let ghost head = output@;
            let mut j: usize = 0;
            while j < 9
                invariant
                    0 <= i < 9,
                    0 <= j <= 9,
                    self.wf(),
                    output@ == head + self.row_text(i as int, j as int),
                    "|"@ == seq!['|'],
                    " "@ == seq![' '],
                decreases 9 - j,
            {
                if j != 0 {
                    if j % 3 == 0 {
                        output.append("|");
                    } else {
                        output.append(" ");
                    }
                }
                proof {
                    Self::lemma_coords(i as int, j as int);
                }
                let text = self.board[9 * i + j].to_str_unannotated();
                output.append(text.as_str());
                proof {
                    assert(output@ =~= head + self.row_text(i as int, j + 1));
                }
                j = j + 1;
            }
            output.append("\n");
            proof {
                assert(output@ =~= self.rows_text(i + 1));
            }
            i = i + 1;
        }
        output
    }

    /// Whether two peers hold the same digit.
    pub fn has_conflict(&self) -> (r: bool)
        requires
            self.wf(),
        ensures
            r == !self.consistent(),
    {
        let mut k: usize = 0;
        while k < 81
            invariant
                0 <= k <= 81,
                self.wf(),
                forall|r: int, c: int|
                    in_grid(r, c) && 9 * r + c < k && #[trigger] self.value(r, c) != 0
                        ==> !self.used_by_peers(r, c, self.value(r, c)),
            decreases 81 - k,
        {
            let i = k / 9;
            let j = k % 9;
            proof {
                Self::lemma_index(k as int);
            }
            let v = self.board[k].get();
            if v != 0 {
                let used = self.get_used_numbers(i, j);
                if used.contains(&v) {
                    proof {
                        let (r2, c2) = choose|r2: int, c2: int|
                            in_grid(r2, c2) && peer(i as int, j as int, r2, c2)
                                && #[trigger] self.value(r2, c2) == v;
                        assert(self.value(i as int, j as int) == v);
                    }
                    return true;
                }
            }
            proof {
                assert forall|r: int, c: int|
                    in_grid(r, c) && 9 * r + c < k + 1 && #[trigger] self.value(r, c) != 0
                        implies !self.used_by_peers(r, c, self.value(r, c)) by {
                    Self::lemma_coords(r, c);
                }
            }
            k = k + 1;
        }
        proof {
            assert forall|r1: int, c1: int, r2: int, c2: int|
                in_grid(r1, c1) && in_grid(r2, c2) && peer(r1, c1, r2, c2) && self.value(r1, c1)
                    != 0 implies #[trigger] self.value(r1, c1) != #[trigger] self.value(r2, c2) by {
                Self::lemma_coords(r1, c1);
                if self.value(r1, c1) == self.value(r2, c2) {
                    assert(self.used_by_peers(r1, c1, self.value(r1, c1)));
                }
            }
        }
        false
    }
}

} // verus!
