//! The 9x9 board: per-cell state, rule checking, and candidate propagation.

use vstd::prelude::*;

verus! {

/// State of one grid position.
///
/// `Good` and `Bad` are user-entered values; `Bad` marks a value that
/// currently violates a row/column/box uniqueness rule.  `Maybe` holds a
/// bitmask (bits 1..=9) of values not yet ruled out while a solve is in
/// progress, and `Collapsed` is a value the solver chose.
#[derive(Clone, Copy, PartialEq, Eq, Structural, Debug)]
pub enum Cell {
    Empty,
    Good(u8),
    Bad(u8),
    Maybe(u16),
    Collapsed(u8),
}

/// True when value `v` is one of the candidates recorded in mask `m`.
/// Only values 1..=9 ever count as candidates.
pub open spec fn mask_has(m: u16, v: u8) -> bool {
    1 <= v <= 9 && m & (1u16 << (v as u16)) != 0
}

/// The mask `m` with value `v` removed.
pub open spec fn mask_clear(m: u16, v: u8) -> u16 {
    m & !(1u16 << (v as u16))
}

/// A candidate mask uses only the bits for values 1..=9.
pub open spec fn mask_wf(m: u16) -> bool {
    m & 0xFC01u16 == 0
}

/// Number of candidates among values 1..=k recorded in `m`.
pub open spec fn mask_count_upto(m: u16, k: int) -> nat
    decreases k,
{
    if k <= 0 {
        0
    } else {
        mask_count_upto(m, k - 1) + (if mask_has(m, k as u8) {
            1nat
        } else {
            0nat
        })
    }
}

/// Number of candidates recorded in mask `m`.
pub open spec fn mask_count(m: u16) -> nat {
    mask_count_upto(m, 9)
}

/// Removing one value from a mask never affects the other values.
pub proof fn lemma_mask_clear_has(m: u16, v: u8, w: u8)
    requires
        1 <= v <= 9,
    ensures
        mask_has(mask_clear(m, v), w) <==> (mask_has(m, w) && w != v),
{
    if 1 <= w <= 9 {
        let v16 = v as u16;
        let w16 = w as u16;
        assert((v16 < 16 && w16 < 16) ==> (((m & !(1u16 << v16)) & (1u16 << w16) != 0) <==> ((m & (
        1u16 << w16)) != 0 && v16 != w16))) by (bit_vector);
    }
}

/// Removing a value keeps a mask well formed.
pub proof fn lemma_mask_clear_wf(m: u16, v: u8)
    requires
        mask_wf(m),
    ensures
        mask_wf(mask_clear(m, v)),
{
    let v16 = v as u16;
    assert(m & 0xFC01u16 == 0 ==> (m & !(1u16 << v16)) & 0xFC01u16 == 0) by (bit_vector);
}

/// The full mask holds exactly the values 1..=9.
pub proof fn lemma_full_mask(w: u8)
    ensures
        mask_has(0x3FEu16, w) <==> 1 <= w <= 9,
        mask_wf(0x3FEu16),
{
    if 1 <= w <= 9 {
        let w16 = w as u16;
        assert((1 <= w16 <= 9) ==> 0x3FEu16 & (1u16 << w16) != 0) by (bit_vector);
    }
    assert(0x3FEu16 & 0xFC01u16 == 0) by (bit_vector);
}

impl Cell {
    /// The concrete value of the cell, counting user-entered and
    /// solver-chosen values alike.
    pub open spec fn value_spec(self) -> Option<u8> {
        match self {
            Cell::Good(v) => Some(v),
            Cell::Bad(v) => Some(v),
            Cell::Collapsed(v) => Some(v),
            _ => None,
        }
    }

    /// True when the cell holds a concrete value.
    pub open spec fn is_concrete(self) -> bool {
        self.value_spec() is Some
    }

    /// The candidate mask; 0 for cells not in the `Maybe` state.
    pub open spec fn mask_spec(self) -> u16 {
        match self {
            Cell::Maybe(m) => m,
            _ => 0,
        }
    }

    /// True when the cell is unresolved and still offers value `v`.
    pub open spec fn has_candidate(self, v: u8) -> bool {
        self is Maybe && mask_has(self.mask_spec(), v)
    }

    pub fn is_maybe(&self) -> (r: bool)
        ensures
            r == (self is Maybe),
    {
        matches!(self, Cell::Maybe(_))
    }

    pub fn is_empty(&self) -> (r: bool)
        ensures
            r == (self is Empty),
    {
        matches!(self, Cell::Empty)
    }

    /// True when this is a `Maybe` cell whose mask still offers `num`.
    pub fn maybe_get_num(&self, num: u8) -> (r: bool)
        requires
            1 <= num <= 9,
        ensures
            r == self.has_candidate(num),
    {
        if let Cell::Maybe(m) = self {
            (*m & (1u16 << (num as u16))) != 0
        } else {
            false
        }
    }

    /// Number of candidates still open for a `Maybe` cell.
    pub fn entropy(&self) -> (r: u8)
        requires
            self is Maybe,
        ensures
            r as nat == mask_count(self.mask_spec()),
            r <= 9,
    {
        let mut count: u8 = 0;
        let mut v: u8 = 1;
        while v <= 9
            invariant
                self is Maybe,
                1 <= v <= 10,
                count < v,
                count as nat == mask_count_upto(self.mask_spec(), v as int - 1),
            decreases 10 - v as int,
        {
            if self.maybe_get_num(v) {
                count = count + 1;
            }
            v = v + 1;
        }
        count
    }

    /// The candidate values of a `Maybe` cell, in increasing order.
    pub fn maybe_values(&self) -> (r: Vec<u8>)
        requires
            self is Maybe,
        ensures
            forall|k: int| 0 <= k < r@.len() ==> mask_has(self.mask_spec(), r@[k]),
            forall|v: u8| mask_has(self.mask_spec(), v) ==> r@.contains(v),
            forall|k1: int, k2: int| 0 <= k1 < k2 < r@.len() ==> r@[k1] < r@[k2],
    {
        let mut r: Vec<u8> = Vec::new();
        let mut v: u8 = 1;
        while v <= 9
            invariant
                self is Maybe,
                1 <= v <= 10,
                forall|k: int| 0 <= k < r@.len() ==> mask_has(self.mask_spec(), r@[k]) && r@[k]
                    < v,
                forall|w: u8| 1 <= w < v && mask_has(self.mask_spec(), w) ==> r@.contains(w),
                forall|k1: int, k2: int| 0 <= k1 < k2 < r@.len() ==> r@[k1] < r@[k2],
            decreases 10 - v as int,
        {
            if self.maybe_get_num(v) {
                let ghost r0 = r@;
                r.push(v);
                proof {
                    assert forall|w: u8|
                        1 <= w < v + 1 && mask_has(self.mask_spec(), w) implies r@.contains(
                        w) by {
                        if w == v {
                            assert(r@[r0.len() as int] == v);
                        } else {
                            assert(r0.contains(w));
                            let k = choose|k: int| 0 <= k < r0.len() && r0[k] == w;
                            assert(r@[k] == w);
                        }
                    }
                }
            }
            v = v + 1;
        }
        r
    }

    /// Remove `value` from the candidate mask; no effect on other cells.
    pub fn maybe_unset(&mut self, value: u8)
        requires
            1 <= value <= 9,
        ensures
            *final(self) == old(self).unset_spec(value),
    {
        if let Cell::Maybe(m) = *self {
            *self = Cell::Maybe(m & !(1u16 << (value as u16)));
        }
    }

    /// The cell after removing `v` from its candidates.
    pub open spec fn unset_spec(self, v: u8) -> Cell {
        match self {
            Cell::Maybe(m) => Cell::Maybe(mask_clear(m, v)),
            c => c,
        }
    }

    /// The concrete value, if any.
    pub fn value(&self) -> (r: Option<u8>)
        ensures
            r == self.value_spec(),
    {
        match self {
            Cell::Good(v) => Some(*v),
            Cell::Bad(v) => Some(*v),
            Cell::Collapsed(v) => Some(*v),
            _ => None,
        }
    }

    fn make_bad(&mut self)
        ensures
            *final(self) == old(self).make_bad_spec(),
    {
        if let Cell::Good(v) = *self {
            *self = Cell::Bad(v);
        }
    }

    fn make_good(&mut self)
        ensures
            *final(self) == old(self).make_good_spec(),
    {
        if let Cell::Bad(v) = *self {
            *self = Cell::Good(v);
        }
    }

    /// A user-entered value flagged as conflicting; other states unchanged.
    pub open spec fn make_bad_spec(self) -> Cell {
        match self {
            Cell::Good(v) => Cell::Bad(v),
            c => c,
        }
    }

    /// A user-entered value restored to consistent; other states unchanged.
    pub open spec fn make_good_spec(self) -> Cell {
        match self {
            Cell::Bad(v) => Cell::Good(v),
            c => c,
        }
    }
}

impl Default for Cell {
    fn default() -> (r: Self)
        ensures
            r == Cell::Empty,
    {
        Cell::Empty
    }
}

/// True for a linear index into the 81-cell grid.
pub open spec fn in_grid(i: int) -> bool {
    0 <= i < 81
}

/// Row of a linear cell index.
pub open spec fn row_of(i: int) -> int {
    i / 9
}

/// Column of a linear cell index.
pub open spec fn col_of(i: int) -> int {
    i % 9
}

/// Index (0..=8) of the 3x3 box a cell lies in, row-major over boxes.
pub open spec fn box_of(i: int) -> int {
    (row_of(i) / 3) * 3 + col_of(i) / 3
}

/// Two cells share a uniqueness constraint: same row, column, or box.
pub open spec fn same_group(i: int, j: int) -> bool {
    row_of(i) == row_of(j) || col_of(i) == col_of(j) || box_of(i) == box_of(j)
}

/// Position (0..=8) of a cell within its 3x3 box, row-major within the box.
pub open spec fn box_pos(i: int) -> int {
    (row_of(i) % 3) * 3 + col_of(i) % 3
}

/// Geometry of the linear indexing: `r*9 + c` lands in row `r`, column `c`.
pub proof fn lemma_rc(r: int, c: int)
    requires
        0 <= r < 9,
        0 <= c < 9,
    ensures
        in_grid(r * 9 + c),
        row_of(r * 9 + c) == r,
        col_of(r * 9 + c) == c,
        box_of(r * 9 + c) == (r / 3) * 3 + c / 3,
{
    assert((r * 9 + c) / 9 == r && (r * 9 + c) % 9 == c && 0 <= r * 9 + c < 81)
        by (nonlinear_arith)
        requires
            0 <= r < 9 && 0 <= c < 9,
    ;
}

/// Every grid index decomposes as `row*9 + col`.
pub proof fn lemma_grid_decompose(i: int)
    requires
        in_grid(i),
    ensures
        i == row_of(i) * 9 + col_of(i),
        0 <= row_of(i) < 9,
        0 <= col_of(i) < 9,
        0 <= box_of(i) < 9,
{
    assert(i == (i / 9) * 9 + i % 9 && 0 <= i / 9 < 9 && 0 <= i % 9 < 9) by (nonlinear_arith)
        requires
            0 <= i < 81,
    ;
}

/// The cell of box `g` at in-box position `k`, as a linear index.
pub open spec fn box_cell(g: int, k: int) -> int {
    ((g / 3) * 3 + k / 3) * 9 + (g % 3) * 3 + k % 3
}

/// Geometry of the boxes: `box_cell` enumerates box `g`.
pub proof fn lemma_box_cell(g: int, k: int)
    requires
        0 <= g < 9,
        0 <= k < 9,
    ensures
        in_grid(box_cell(g, k)),
        box_of(box_cell(g, k)) == g,
        box_pos(box_cell(g, k)) == k,
{
    let r = (g / 3) * 3 + k / 3;
    let c = (g % 3) * 3 + k % 3;
    assert(0 <= r < 9 && 0 <= c < 9) by (nonlinear_arith)
        requires
            0 <= g < 9 && 0 <= k < 9 && r == (g / 3) * 3 + k / 3 && c == (g % 3) * 3 + k % 3,
    ;
    lemma_rc(r, c);
    assert(r / 3 == g / 3 && r % 3 == k / 3 && c / 3 == g % 3 && c % 3 == k % 3)
        by (nonlinear_arith)
        requires
            0 <= g < 9 && 0 <= k < 9 && r == (g / 3) * 3 + k / 3 && c == (g % 3) * 3 + k % 3,
    ;
    assert((g / 3) * 3 + g % 3 == g && (k / 3) * 3 + k % 3 == k) by (nonlinear_arith)
        requires
            0 <= g < 9 && 0 <= k < 9,
    ;
}

/// Every grid index is the `box_pos`-th cell of its box.
pub proof fn lemma_box_decompose(j: int)
    requires
        in_grid(j),
    ensures
        0 <= box_of(j) < 9,
        0 <= box_pos(j) < 9,
        box_cell(box_of(j), box_pos(j)) == j,
{
    lemma_grid_decompose(j);
    let r = row_of(j);
    let c = col_of(j);
    let g = box_of(j);
    let k = box_pos(j);
    assert(0 <= g < 9 && 0 <= k < 9 && g / 3 == r / 3 && g % 3 == c / 3 && k / 3 == r % 3 && k % 3
        == c % 3) by (nonlinear_arith)
        requires
            0 <= r < 9 && 0 <= c < 9 && g == (r / 3) * 3 + c / 3 && k == (r % 3) * 3 + c % 3,
    ;
    assert((r / 3) * 3 + r % 3 == r && (c / 3) * 3 + c % 3 == c) by (nonlinear_arith)
        requires
            0 <= r < 9 && 0 <= c < 9,
    ;
    assert(box_cell(g, k) == r * 9 + c);
}

/// A group (row, column, or box) of the board holds a duplicated concrete
/// value when two distinct positions of it carry the same value.
pub open spec fn dup_in_row(s: Seq<Cell>, r: int) -> bool {
    exists|i: int, j: int|
        in_grid(i) && in_grid(j) && i != j && row_of(i) == r && row_of(j) == r
            && s[i].is_concrete() && s[i].value_spec() == s[j].value_spec()
}

/// See [`dup_in_row`].
pub open spec fn dup_in_col(s: Seq<Cell>, c: int) -> bool {
    exists|i: int, j: int|
        in_grid(i) && in_grid(j) && i != j && col_of(i) == c && col_of(j) == c
            && s[i].is_concrete() && s[i].value_spec() == s[j].value_spec()
}

/// See [`dup_in_row`].
pub open spec fn dup_in_box(s: Seq<Cell>, b: int) -> bool {
    exists|i: int, j: int|
        in_grid(i) && in_grid(j) && i != j && box_of(i) == b && box_of(j) == b
            && s[i].is_concrete() && s[i].value_spec() == s[j].value_spec()
}

/// A cell is flagged when any of the three groups it belongs to holds a
/// duplicate; the whole group is flagged, not only the duplicated pair.
pub open spec fn marked_bad(s: Seq<Cell>, i: int) -> bool {
    dup_in_row(s, row_of(i)) || dup_in_col(s, col_of(i)) || dup_in_box(s, box_of(i))
}

/// One cell after the consistency pass: user-entered values are re-marked
/// `Good` or `Bad` from scratch; all other states are left alone.
pub open spec fn recheck_cell(s: Seq<Cell>, i: int) -> Cell {
    match s[i] {
        Cell::Good(v) => if marked_bad(s, i) {
            Cell::Bad(v)
        } else {
            Cell::Good(v)
        },
        Cell::Bad(v) => if marked_bad(s, i) {
            Cell::Bad(v)
        } else {
            Cell::Good(v)
        },
        c => c,
    }
}

/// The whole board after the consistency pass.
pub open spec fn recheck(s: Seq<Cell>) -> Seq<Cell> {
    Seq::new(81, |i: int| recheck_cell(s, i))
}

/// One cell after a collapse at `idx` with value `v`: the collapsed cell
/// itself becomes `Collapsed(v)`, every unresolved cell sharing a row,
/// column, or box loses `v` from its candidates, and all others are
/// untouched.
pub open spec fn collapsed_cell(s: Seq<Cell>, idx: int, v: u8, j: int) -> Cell {
    if j == idx {
        Cell::Collapsed(v)
    } else if same_group(j, idx) && s[j] is Maybe {
        s[j].unset_spec(v)
    } else {
        s[j]
    }
}

/// The whole board after a collapse at `idx` with value `v`.
pub open spec fn collapse_spec(s: Seq<Cell>, idx: int, v: u8) -> Seq<Cell> {
    Seq::new(81, |j: int| collapsed_cell(s, idx, v, j))
}

/// Value `v` is still allowed at position `i`: it is not the concrete value
/// of any other cell sharing `i`'s row, column, or box.
pub open spec fn candidate_ok(s: Seq<Cell>, i: int, v: u8) -> bool {
    1 <= v <= 9 && (forall|j: int|
        in_grid(j) && j != i && same_group(j, i) ==> #[trigger] s[j].value_spec() != Some(v))
}

/// A freshly seeded cell: unresolved, with exactly the allowed values of its
/// position as candidates.
pub open spec fn seeded_cell_ok(s: Seq<Cell>, c: Cell, i: int) -> bool {
    c is Maybe && mask_wf(c.mask_spec()) && (forall|v: u8|
        #[trigger] mask_has(c.mask_spec(), v) <==> candidate_ok(s, i, v))
}

/// The relation between a board and its seeded copy: every `Empty` cell got
/// exactly the allowed values of its position as candidates, and every other
/// cell is unchanged.
pub open spec fn seeded_board(s: Seq<Cell>, t: Seq<Cell>) -> bool {
    t.len() == 81 && (forall|i: int|
        #![trigger t[i]]
        in_grid(i) ==> (if s[i] is Empty {
            seeded_cell_ok(s, t[i], i)
        } else {
            t[i] == s[i]
        }))
}

/// One cell after the solver-owned cells are cleared.
pub open spec fn cleared_cell(s: Seq<Cell>, i: int) -> Cell {
    if s[i] is Maybe || s[i] is Collapsed {
        Cell::Empty
    } else {
        s[i]
    }
}

/// The board after every solver-owned cell (`Maybe` or `Collapsed`) is reset
/// to `Empty`.
pub open spec fn clear_solver_spec(s: Seq<Cell>) -> Seq<Cell> {
    Seq::new(81, |i: int| cleared_cell(s, i))
}

/// Clearing the same value twice is the same as clearing it once.
pub proof fn lemma_mask_clear_idem(m: u16, v: u8)
    ensures
        mask_clear(mask_clear(m, v), v) == mask_clear(m, v),
{
    let v16 = v as u16;
    assert((m & !(1u16 << v16)) & !(1u16 << v16) == m & !(1u16 << v16)) by (bit_vector);
}

/// The cells already visited by the three-group sweep around `idx` after `i`
/// of its 9 iterations.
spec fn swept(idx: int, i: int, j: int) -> bool {
    (row_of(j) == row_of(idx) && col_of(j) < i) || (col_of(j) == col_of(idx) && row_of(j) < i) || (
    box_of(j) == box_of(idx) && box_pos(j) < i)
}

/// The concrete value of a cell as an integer; 0 for unresolved or empty
/// cells.
pub open spec fn cell_value_int(c: Cell) -> int {
    match c.value_spec() {
        Some(u) => u as int,
        None => 0,
    }
}

/// Every concrete value on the board lies in 1..=9.
pub open spec fn values_in_range(s: Seq<Cell>) -> bool {
    forall|i: int| in_grid(i) && (#[trigger] s[i]).is_concrete() ==> 1 <= cell_value_int(s[i]) <= 9
}

/// No two distinct cells sharing a row, column, or box hold the same
/// concrete value.
pub open spec fn no_dup(s: Seq<Cell>) -> bool {
    forall|i: int, j: int|
        #![trigger s[i], s[j]]
        in_grid(i) && in_grid(j) && i != j && same_group(i, j) && s[i].is_concrete()
            ==> s[i].value_spec() != s[j].value_spec()
}

/// No two distinct solver-chosen cells sharing a group hold the same value.
/// Boards that never held solver cells satisfy this trivially.
pub open spec fn no_collapsed_dup(s: Seq<Cell>) -> bool {
    forall|i: int, j: int|
        #![trigger s[i], s[j]]
        in_grid(i) && in_grid(j) && i != j && same_group(i, j) && s[i] is Collapsed
            && s[j] is Collapsed ==> s[i].value_spec() != s[j].value_spec()
}

/// Every duplicated concrete value has been caught: of any two offending
/// cells, at least one carries the `Bad` flag.  The one exception is a pair
/// of solver-chosen cells, which the consistency pass never re-marks; such
/// pairs cannot arise from a correct solve (see [`no_collapsed_dup`]).
pub open spec fn dups_flagged(s: Seq<Cell>) -> bool {
    forall|i: int, j: int|
        #![trigger s[i], s[j]]
        in_grid(i) && in_grid(j) && i != j && same_group(i, j) && s[i].is_concrete()
            && s[i].value_spec() == s[j].value_spec() ==> s[i] is Bad || s[j] is Bad || (
        s[i] is Collapsed && s[j] is Collapsed)
}

/// A board as the editing mode holds it: no unresolved cells, every
/// duplicate flagged, no duplicate among solver-chosen values, and all
/// values in 1..=9.
pub open spec fn edit_ok(s: Seq<Cell>) -> bool {
    s.len() == 81 && (forall|i: int| in_grid(i) ==> !(#[trigger] s[i] is Maybe)) && dups_flagged(s)
        && no_collapsed_dup(s) && values_in_range(s)
}

/// The consistency pass catches every duplicate it can mark: afterwards, of
/// any two cells violating a uniqueness rule, at least one is flagged `Bad`
/// (unless both are solver-chosen, which the pass leaves alone).
pub proof fn lemma_recheck_flags_dups(s: Seq<Cell>)
    requires
        s.len() == 81,
    ensures
        dups_flagged(recheck(s)),
{
    let t = recheck(s);
    assert forall|i: int, j: int|
        #![trigger t[i], t[j]]
        in_grid(i) && in_grid(j) && i != j && same_group(i, j) && t[i].is_concrete()
            && t[i].value_spec() == t[j].value_spec() implies t[i] is Bad || t[j] is Bad || (
    t[i] is Collapsed && t[j] is Collapsed) by {
        assert(t[i] == recheck_cell(s, i));
        assert(t[j] == recheck_cell(s, j));
        assert(t[i].value_spec() == s[i].value_spec());
        assert(t[j].value_spec() == s[j].value_spec());
        if row_of(i) == row_of(j) {
            assert(dup_in_row(s, row_of(i)));
        } else if col_of(i) == col_of(j) {
            assert(dup_in_col(s, col_of(i)));
        } else {
            assert(dup_in_box(s, box_of(i)));
        }
        assert(marked_bad(s, i) && marked_bad(s, j));
    }
}

/// On a board whose duplicates are all flagged, a clean bill from the
/// consistency flags (no `Bad` cell anywhere) means there is no duplicate at
/// all.  This is what makes an accepted solve request a sound start.
pub proof fn lemma_flagged_no_dup(s: Seq<Cell>)
    requires
        s.len() == 81,
        dups_flagged(s),
        no_collapsed_dup(s),
        forall|i: int| in_grid(i) ==> !(#[trigger] s[i] is Bad),
    ensures
        no_dup(s),
{
}

/// Overwriting one cell with a user value (or clearing it) and re-running
/// the consistency pass keeps a board fit for editing.
pub proof fn lemma_set_cell_keeps_edit_ok(s: Seq<Cell>, pos: int, c: Cell)
    requires
        edit_ok(s),
        in_grid(pos),
        c is Empty || (c matches Cell::Good(v) && 1 <= v <= 9),
    ensures
        edit_ok(recheck(s.update(pos, c))),
{
    let u = s.update(pos, c);
    let t = recheck(u);
    lemma_recheck_flags_dups(u);
    assert forall|i: int| in_grid(i) implies !(#[trigger] t[i] is Maybe) && (t[i] is Collapsed
        ==> i != pos && t[i] == s[i]) && t[i].value_spec() == u[i].value_spec() by {
        assert(t[i] == recheck_cell(u, i));
    }
    assert forall|i: int|
        in_grid(i) && (#[trigger] t[i]).is_concrete() implies 1 <= cell_value_int(t[i]) <= 9 by {
        assert(t[i].value_spec() == u[i].value_spec());
        if i != pos {
            assert(u[i] == s[i]);
        }
    }
}

/// Clearing the solver-owned cells of a board whose duplicates are all
/// flagged leaves a board fit for editing: the surviving cells keep their
/// states, so every surviving duplicate keeps its flag.
pub proof fn lemma_clear_solver_keeps_edit_ok(s: Seq<Cell>)
    requires
        s.len() == 81,
        dups_flagged(s),
        values_in_range(s),
    ensures
        edit_ok(clear_solver_spec(s)),
{
    let t = clear_solver_spec(s);
    assert forall|i: int| in_grid(i) implies !(#[trigger] t[i] is Maybe) && !(t[i] is Collapsed)
        && (t[i] == s[i] || t[i] == Cell::Empty) by {
        assert(t[i] == cleared_cell(s, i));
    }
    assert forall|i: int, j: int|
        #![trigger t[i], t[j]]
        in_grid(i) && in_grid(j) && i != j && same_group(i, j) && t[i].is_concrete()
            && t[i].value_spec() == t[j].value_spec() implies t[i] is Bad || t[j] is Bad by {
        assert(t[i] == s[i] && t[j] == s[j]);
    }
    assert forall|i: int|
        in_grid(i) && (#[trigger] t[i]).is_concrete() implies 1 <= cell_value_int(t[i]) <= 9 by {
        assert(t[i] == s[i]);
    }
}

/// A concrete value appearing at two distinct positions of one group flags
/// every user-entered value of that whole group as conflicting after the
/// consistency pass, not only the duplicated pair.
pub proof fn lemma_dirty_group(s: Seq<Cell>, i: int, j: int, k: int)
    requires
        s.len() == 81,
        in_grid(i),
        in_grid(j),
        in_grid(k),
        i != j,
        s[i].is_concrete(),
        s[i].value_spec() == s[j].value_spec(),
        (row_of(i) == row_of(j) && row_of(j) == row_of(k)) || (col_of(i) == col_of(j) && col_of(j)
            == col_of(k)) || (box_of(i) == box_of(j) && box_of(j) == box_of(k)),
    ensures
        marked_bad(s, k),
        forall|v: u8| s[k] == Cell::Good(v) ==> recheck(s)[k] == Cell::Bad(v),
        forall|v: u8| s[k] == Cell::Bad(v) ==> recheck(s)[k] == Cell::Bad(v),
{
    if row_of(i) == row_of(j) && row_of(j) == row_of(k) {
        assert(dup_in_row(s, row_of(k)));
    } else if col_of(i) == col_of(j) && col_of(j) == col_of(k) {
        assert(dup_in_col(s, col_of(k)));
    } else {
        assert(dup_in_box(s, box_of(k)));
    }
    assert(recheck(s)[k] == recheck_cell(s, k));
}

/// A cell of a group without any duplicate is re-marked consistent by the
/// pass, and a cell holding no user-entered value is never changed by it.
pub proof fn lemma_recheck_clean(s: Seq<Cell>, k: int)
    requires
        s.len() == 81,
        in_grid(k),
    ensures
        forall|v: u8| s[k] == Cell::Good(v) && !marked_bad(s, k) ==> recheck(s)[k] == Cell::Good(v),
        forall|v: u8| s[k] == Cell::Bad(v) && !marked_bad(s, k) ==> recheck(s)[k] == Cell::Good(v),
        !(s[k] is Good || s[k] is Bad) ==> recheck(s)[k] == s[k],
{
    assert(recheck(s)[k] == recheck_cell(s, k));
}

/// After a collapse, every other cell sharing a row, column, or box with the
/// collapsed position has lost the chosen value from its candidates while
/// keeping all its other candidates, and every cell outside those three
/// groups is untouched.
pub proof fn lemma_collapse_removes_candidate(s: Seq<Cell>, idx: int, v: u8, j: int)
    requires
        s.len() == 81,
        in_grid(idx),
        in_grid(j),
        j != idx,
        1 <= v <= 9,
    ensures
        same_group(j, idx) ==> !collapse_spec(s, idx, v)[j].has_candidate(v),
        same_group(j, idx) && s[j] is Maybe ==> forall|w: u8|
            w != v ==> (#[trigger] collapse_spec(s, idx, v)[j].has_candidate(w)
                == s[j].has_candidate(w)),
        !same_group(j, idx) ==> collapse_spec(s, idx, v)[j] == s[j],
{
    assert(collapse_spec(s, idx, v)[j] == collapsed_cell(s, idx, v, j));
    if same_group(j, idx) && s[j] is Maybe {
        lemma_mask_clear_has(s[j].mask_spec(), v, v);
        assert forall|w: u8|
            w != v implies (#[trigger] collapse_spec(s, idx, v)[j].has_candidate(w)
                == s[j].has_candidate(w)) by {
            lemma_mask_clear_has(s[j].mask_spec(), v, w);
        }
    }
}

/// Why a textual board cannot be loaded.
#[derive(Clone, Copy, PartialEq, Eq, Structural, Debug)]
pub enum ParseError {
    /// A value appears outside the first 9 lines or the first 9 characters
    /// of a line.
    OutOfRange,
    /// A character that is neither a digit 1..=9 nor a space.
    UnexpectedChar(char),
}

/// A digit 1..=9.
pub open spec fn is_digit_char(c: char) -> bool {
    49 <= c as u32 <= 57
}

/// The value of a digit character.
pub open spec fn digit_val(c: char) -> u8 {
    (c as u32 - 48) as u8
}

/// A character allowed at line `i`, column `j` of a board file: a space
/// anywhere (an empty cell inside the grid, padding outside it), or a digit
/// within the 9x9 grid.
pub open spec fn cell_char_ok(c: char, i: int, j: int) -> bool {
    c as u32 == 32 || (is_digit_char(c) && i < 9 && j < 9)
}

/// The error reported for a character that is not allowed at its position.
pub open spec fn parse_err_of(c: char) -> ParseError {
    if is_digit_char(c) {
        ParseError::OutOfRange
    } else {
        ParseError::UnexpectedChar(c)
    }
}

/// The lines of a board file as a sequence of character sequences.
pub open spec fn rows_view(rows: Seq<Vec<char>>) -> Seq<Seq<char>> {
    Seq::new(rows.len(), |i: int| rows[i]@)
}

/// Every character of the file is allowed at its position.
pub open spec fn rows_ok(rv: Seq<Seq<char>>) -> bool {
    forall|i: int, j: int|
        0 <= i < rv.len() && 0 <= j < rv[i].len() ==> #[trigger] cell_char_ok(rv[i][j], i, j)
}

/// The cell at linear index `k` read off the file, before the consistency
/// pass: a digit at line `row_of(k)`, column `col_of(k)` gives a value,
/// anything else leaves the cell empty.
pub open spec fn raw_cell(rv: Seq<Seq<char>>, k: int) -> Cell {
    let i = row_of(k);
    let j = col_of(k);
    if i < rv.len() && j < rv[i].len() && is_digit_char(rv[i][j]) {
        Cell::Good(digit_val(rv[i][j]))
    } else {
        Cell::Empty
    }
}

/// The whole board read off the file, before the consistency pass.
pub open spec fn raw_board(rv: Seq<Seq<char>>) -> Seq<Cell> {
    Seq::new(81, |k: int| raw_cell(rv, k))
}

/// The cell at linear index `k` after the reader has consumed the first `i`
/// lines and `j` characters of line `i`.
spec fn parsed_upto(rv: Seq<Seq<char>>, i: int, j: int, k: int) -> Cell {
    let ri = row_of(k);
    let ci = col_of(k);
    if (ri < i || (ri == i && ci < j)) && ri < rv.len() && ci < rv[ri].len() && is_digit_char(
        rv[ri][ci],
    ) {
        Cell::Good(digit_val(rv[ri][ci]))
    } else {
        Cell::Empty
    }
}

/// A fixed 9x9 grid of cells, addressed row-major.
#[derive(Clone, Copy)]
pub struct Board {
    pub cells: [Cell; 81],
}

impl View for Board {
    type V = Seq<Cell>;

    open spec fn view(&self) -> Seq<Cell> {
        self.cells@
    }
}

impl Default for Board {
    fn default() -> (r: Self)
        ensures
            r@.len() == 81,
            forall|i: int| in_grid(i) ==> r@[i] == Cell::Empty,
    {
        Board { cells: [Cell::Empty;81] }
    }
}

impl Board {
    /// The cell at linear index `i`.
    pub fn cell_at(&self, i: usize) -> (r: Cell)
        requires
            i < 81,
        ensures
            r == self@[i as int],
    {
        self.cells[i]
    }

    /// The cell at `(row, col)`.
    pub fn at(&self, idx: (usize, usize)) -> (r: Cell)
        requires
            idx.0 < 9,
            idx.1 < 9,
        ensures
            r == self@[idx.0 * 9 + idx.1],
    {
        self.cells[idx.0 * 9 + idx.1]
    }

    /// True iff no cell currently violates a uniqueness rule.
    pub fn can_solve(&self) -> (r: bool)
        ensures
            r == (forall|i: int| in_grid(i) ==> !(#[trigger] self@[i] is Bad)),
    {
        let mut i: usize = 0;
        while i < 81
            invariant
                i <= 81,
                forall|j: int| 0 <= j < i ==> !(self@[j] is Bad),
            decreases 81 - i,
        {
            if matches!(self.cells[i], Cell::Bad(_)) {
                proof {
                    assert(in_grid(i as int) && self@[i as int] is Bad);
                }
                return false;
            }
            i = i + 1;
        }
        true
    }

    /// Reset every solver-owned cell (`Maybe` or `Collapsed`) to `Empty`,
    /// leaving user-entered cells untouched.
    pub fn clear_maybe(&mut self)
        ensures
            final(self)@ == clear_solver_spec(old(self)@),
    {
        let mut i: usize = 0;
        while i < 81
            invariant
                i <= 81,
                self@.len() == 81,
                forall|j: int|
                    0 <= j < i ==> self@[j] == (if old(self)@[j] is Maybe || old(
                    self)@[j] is Collapsed {
                        Cell::Empty
                    } else {
                        old(self)@[j]
                    }),
                forall|j: int| i <= j < 81 ==> self@[j] == old(self)@[j],
            decreases 81 - i,
        {
            if matches!(self.cells[i], Cell::Maybe(_) | Cell::Collapsed(_)) {
                self.cells[i] = Cell::Empty;
            }
            i = i + 1;
        }
        proof {
            assert forall|j: int| 0 <= j < 81 implies self@[j] == clear_solver_spec(old(self)@)[j]
                by {
                assert(clear_solver_spec(old(self)@)[j] == cleared_cell(old(self)@, j));
            }
            assert(self@ =~= clear_solver_spec(old(self)@));
        }
    }

    /// Reset every cell to `Empty`.
    pub fn clear_all(&mut self)
        ensures
            final(self)@.len() == 81,
            forall|i: int| in_grid(i) ==> final(self)@[i] == Cell::Empty,
    {
        let mut i: usize = 0;
        while i < 81
            invariant
                i <= 81,
                self@.len() == 81,
                forall|j: int| 0 <= j < i ==> self@[j] == Cell::Empty,
            decreases 81 - i,
        {
            self.cells[i] = Cell::Empty;
            i = i + 1;
        }
    }

    /// Remove `value` from the candidate mask of the cell at `i`; cells that
    /// are not in the `Maybe` state are unaffected.
    pub fn unset_candidate(&mut self, i: usize, value: u8)
        requires
            i < 81,
            1 <= value <= 9,
        ensures
            final(self)@ == old(self)@.update(i as int, old(self)@[i as int].unset_spec(value)),
    {
        let mut c = self.cells[i];
        c.maybe_unset(value);
        self.cells[i] = c;
        proof {
            assert(final(self)@ =~= old(self)@.update(
                i as int,
                old(self)@[i as int].unset_spec(value),
            ));
        }
    }

    /// All cells still holding candidates, paired with their linear index,
    /// in increasing index order.
    pub fn get_uncollapsed(&self) -> (r: Vec<(usize, Cell)>)
        ensures
            forall|k: int|
                0 <= k < r@.len() ==> in_grid(#[trigger] r@[k].0 as int) && r@[k].1 == self@[r@[k].0
                    as int] && self@[r@[k].0 as int] is Maybe,
            forall|i: int|
                in_grid(i) && self@[i] is Maybe ==> exists|k: int|
                    0 <= k < r@.len() && #[trigger] r@[k].0 == i,
            forall|k1: int, k2: int| 0 <= k1 < k2 < r@.len() ==> r@[k1].0 < r@[k2].0,
    {
        let mut r: Vec<(usize, Cell)> = Vec::new();
        let mut i: usize = 0;
        while i < 81
            invariant
                i <= 81,
                forall|k: int|
                    0 <= k < r@.len() ==> in_grid(#[trigger] r@[k].0 as int) && r@[k].1
                        == self@[r@[k].0 as int] && self@[r@[k].0 as int] is Maybe && r@[k].0 < i,
                forall|j: int|
                    0 <= j < i && self@[j] is Maybe ==> exists|k: int|
                        0 <= k < r@.len() && #[trigger] r@[k].0 == j,
                forall|k1: int, k2: int| 0 <= k1 < k2 < r@.len() ==> r@[k1].0 < r@[k2].0,
            decreases 81 - i,
        {
            if self.cells[i].is_maybe() {
                let ghost r0 = r@;
                r.push((i, self.cells[i]));
                proof {
                    assert forall|j: int|
                        0 <= j < i + 1 && self@[j] is Maybe implies exists|k: int|
                        0 <= k < r@.len() && #[trigger] r@[k].0 == j by {
                        if j == i {
                            assert(r@[r0.len() as int].0 == j);
                        } else {
                            let k = choose|k: int| 0 <= k < r0.len() && #[trigger] r0[k].0 == j;
                            assert(r@[k].0 == j);
                        }
                    }
                }
            }
            i = i + 1;
        }
        r
    }
}

/// The duplicate predicates depend only on the concrete values, so any pass
/// that re-marks cells without touching values leaves them unchanged.
proof fn lemma_dups_same(s1: Seq<Cell>, s2: Seq<Cell>)
    requires
        s1.len() == 81,
        s2.len() == 81,
        forall|i: int| in_grid(i) ==> #[trigger] s2[i].value_spec() == s1[i].value_spec(),
    ensures
        forall|g: int| #[trigger] dup_in_row(s2, g) == dup_in_row(s1, g),
        forall|g: int| #[trigger] dup_in_col(s2, g) == dup_in_col(s1, g),
        forall|g: int| #[trigger] dup_in_box(s2, g) == dup_in_box(s1, g),
{
    assert forall|g: int| #[trigger] dup_in_row(s2, g) == dup_in_row(s1, g) by {
        if dup_in_row(s1, g) {
            let (i, j) = choose|i: int, j: int|
                in_grid(i) && in_grid(j) && i != j && row_of(i) == g && row_of(j) == g
                    && s1[i].is_concrete() && s1[i].value_spec() == s1[j].value_spec();
            assert(s2[i].value_spec() == s1[i].value_spec());
            assert(dup_in_row(s2, g));
        }
        if dup_in_row(s2, g) {
            let (i, j) = choose|i: int, j: int|
                in_grid(i) && in_grid(j) && i != j && row_of(i) == g && row_of(j) == g
                    && s2[i].is_concrete() && s2[i].value_spec() == s2[j].value_spec();
            assert(s1[i].value_spec() == s2[i].value_spec());
            assert(dup_in_row(s1, g));
        }
    }
    assert forall|g: int| #[trigger] dup_in_col(s2, g) == dup_in_col(s1, g) by {
        if dup_in_col(s1, g) {
            let (i, j) = choose|i: int, j: int|
                in_grid(i) && in_grid(j) && i != j && col_of(i) == g && col_of(j) == g
                    && s1[i].is_concrete() && s1[i].value_spec() == s1[j].value_spec();
            assert(s2[i].value_spec() == s1[i].value_spec());
            assert(dup_in_col(s2, g));
        }
        if dup_in_col(s2, g) {
            let (i, j) = choose|i: int, j: int|
                in_grid(i) && in_grid(j) && i != j && col_of(i) == g && col_of(j) == g
                    && s2[i].is_concrete() && s2[i].value_spec() == s2[j].value_spec();
            assert(s1[i].value_spec() == s2[i].value_spec());
            assert(dup_in_col(s1, g));
        }
    }
    assert forall|g: int| #[trigger] dup_in_box(s2, g) == dup_in_box(s1, g) by {
        if dup_in_box(s1, g) {
            let (i, j) = choose|i: int, j: int|
                in_grid(i) && in_grid(j) && i != j && box_of(i) == g && box_of(j) == g
                    && s1[i].is_concrete() && s1[i].value_spec() == s1[j].value_spec();
            assert(s2[i].value_spec() == s1[i].value_spec());
            assert(dup_in_box(s2, g));
        }
        if dup_in_box(s2, g) {
            let (i, j) = choose|i: int, j: int|
                in_grid(i) && in_grid(j) && i != j && box_of(i) == g && box_of(j) == g
                    && s2[i].is_concrete() && s2[i].value_spec() == s2[j].value_spec();
            assert(s1[i].value_spec() == s2[i].value_spec());
            assert(dup_in_box(s1, g));
        }
    }
}

/// Which cells are already re-marked after the first `g` iterations of the
/// consistency pass (each iteration handles row `g`, column `g`, box `g`).
spec fn marked_upto(s: Seq<Cell>, g: int, j: int) -> bool {
    (row_of(j) < g && dup_in_row(s, row_of(j))) || (col_of(j) < g && dup_in_col(s, col_of(j))) || (
    box_of(j) < g && dup_in_box(s, box_of(j)))
}

/// State of one cell midway through the consistency pass.
spec fn mid_cell(s: Seq<Cell>, g: int, j: int) -> Cell {
    match s[j] {
        Cell::Good(v) => if marked_upto(s, g, j) {
            Cell::Bad(v)
        } else {
            Cell::Good(v)
        },
        Cell::Bad(v) => if marked_upto(s, g, j) {
            Cell::Bad(v)
        } else {
            Cell::Good(v)
        },
        c => c,
    }
}

impl Board {
    /// Linear indices of row `r`, left to right.
    fn row(r: usize) -> (idxs: Vec<usize>)
        requires
            r < 9,
        ensures
            idxs@.len() == 9,
            forall|k: int| 0 <= k < 9 ==> #[trigger] idxs@[k] as int == r * 9 + k,
    {
        let mut idxs: Vec<usize> = Vec::new();
        let mut k: usize = 0;
        while k < 9
            invariant
                r < 9,
                k <= 9,
                idxs@.len() == k,
                forall|x: int| 0 <= x < k ==> #[trigger] idxs@[x] as int == r * 9 + x,
            decreases 9 - k,
        {
            idxs.push(r * 9 + k);
            k = k + 1;
        }
        idxs
    }

    /// Linear indices of column `c`, top to bottom.
    fn col(c: usize) -> (idxs: Vec<usize>)
        requires
            c < 9,
        ensures
            idxs@.len() == 9,
            forall|k: int| 0 <= k < 9 ==> #[trigger] idxs@[k] as int == k * 9 + c,
    {
        let mut idxs: Vec<usize> = Vec::new();
        let mut k: usize = 0;
        while k < 9
            invariant
                c < 9,
                k <= 9,
                idxs@.len() == k,
                forall|x: int| 0 <= x < k ==> #[trigger] idxs@[x] as int == x * 9 + c,
            decreases 9 - k,
        {
            idxs.push(k * 9 + c);
            k = k + 1;
        }
        idxs
    }

    /// Linear indices of box `g`, row-major within the box.
    fn square(g: usize) -> (idxs: Vec<usize>)
        requires
            g < 9,
        ensures
            idxs@.len() == 9,
            forall|k: int| 0 <= k < 9 ==> #[trigger] idxs@[k] as int == box_cell(g as int, k),
    {
        let mut idxs: Vec<usize> = Vec::new();
        let mut k: usize = 0;
        while k < 9
            invariant
                g < 9,
                k <= 9,
                idxs@.len() == k,
                forall|x: int| 0 <= x < k ==> #[trigger] idxs@[x] as int == box_cell(g as int, x),
            decreases 9 - k,
        {
            let idx = ((g / 3) * 3 + k / 3) * 9 + (g % 3) * 3 + k % 3;
            proof {
                lemma_box_cell(g as int, k as int);
            }
            idxs.push(idx);
            k = k + 1;
        }
        idxs
    }

    /// True iff no two distinct positions among `idxs` carry the same
    /// concrete value.
    fn check_idxes(&self, idxs: &Vec<usize>) -> (ok: bool)
        requires
            forall|k: int| 0 <= k < idxs@.len() ==> #[trigger] idxs@[k] < 81,
        ensures
            ok == !(exists|a: int, b: int|
                0 <= a < idxs@.len() && 0 <= b < idxs@.len() && a != b
                    && #[trigger] self@[idxs@[a] as int].is_concrete() && self@[idxs@[a] as int].value_spec()
                    == #[trigger] self@[idxs@[b] as int].value_spec()),
    {
        let n = idxs.len();
        let mut a: usize = 0;
        while a < n
            invariant
                n == idxs@.len(),
                forall|k: int| 0 <= k < idxs@.len() ==> #[trigger] idxs@[k] < 81,
                a <= n,
                forall|x: int, y: int|
                    0 <= x < a && 0 <= y < n && x != y ==> !(#[trigger] self@[idxs@[x] as int].is_concrete()
                        && self@[idxs@[x] as int].value_spec() == #[trigger] self@[idxs@[y] as int].value_spec()),
            decreases n - a,
        {
            let ca = self.cells[idxs[a]];
            if let Some(va) = ca.value() {
                let mut b: usize = 0;
                while b < n
                    invariant
                        n == idxs@.len(),
                        forall|k: int| 0 <= k < idxs@.len() ==> #[trigger] idxs@[k] < 81,
                        a < n,
                        b <= n,
                        ca == self@[idxs@[a as int] as int],
                        ca.value_spec() == Some(va),
                        forall|y: int|
                            0 <= y < b && y != a ==> #[trigger] self@[idxs@[y] as int].value_spec()
                                != Some(va),
                    decreases n - b,
                {
                    if b != a {
                        let cb = self.cells[idxs[b]];
                        if let Some(vb) = cb.value() {
                            if va == vb {
                                proof {
                                    assert(self@[idxs@[a as int] as int].is_concrete()
                                        && self@[idxs@[a as int] as int].value_spec()
                                        == self@[idxs@[b as int] as int].value_spec());
                                }
                                return false;
                            }
                        }
                    }
                    b = b + 1;
                }
            }
            a = a + 1;
        }
        true
    }

    /// True iff row `r` holds no duplicated concrete value.
    fn is_row_ok(&self, r: usize) -> (ok: bool)
        requires
            r < 9,
        ensures
            ok == !dup_in_row(self@, r as int),
    {
        let idxs = Self::row(r);
        let ok = self.check_idxes(&idxs);
        proof {
            let s = self@;
            let ri = r as int;
            if dup_in_row(s, ri) {
                let (i, j) = choose|i: int, j: int|
                    in_grid(i) && in_grid(j) && i != j && row_of(i) == ri && row_of(j) == ri
                        && s[i].is_concrete() && s[i].value_spec() == s[j].value_spec();
                lemma_grid_decompose(i);
                lemma_grid_decompose(j);
                assert(idxs@[col_of(i)] as int == i && idxs@[col_of(j)] as int == j);
                assert(exists|a: int, b: int|
                    0 <= a < idxs@.len() && 0 <= b < idxs@.len() && a != b
                        && #[trigger] s[idxs@[a] as int].is_concrete() && s[idxs@[a] as int].value_spec()
                        == #[trigger] s[idxs@[b] as int].value_spec()) by {
                    assert(s[idxs@[col_of(i)] as int].is_concrete() && s[idxs@[col_of(
                        i,
                    )] as int].value_spec() == s[idxs@[col_of(j)] as int].value_spec());
                }
            }
            if exists|a: int, b: int|
                0 <= a < idxs@.len() && 0 <= b < idxs@.len() && a != b
                    && #[trigger] s[idxs@[a] as int].is_concrete() && s[idxs@[a] as int].value_spec()
                    == #[trigger] s[idxs@[b] as int].value_spec() {
                let (a, b) = choose|a: int, b: int|
                    0 <= a < idxs@.len() && 0 <= b < idxs@.len() && a != b
                        && #[trigger] s[idxs@[a] as int].is_concrete()
                        && s[idxs@[a] as int].value_spec() == #[trigger] s[idxs@[b] as int].value_spec();
                lemma_rc(ri, a);
                lemma_rc(ri, b);
                assert(dup_in_row(s, ri)) by {
                    assert(in_grid(idxs@[a] as int) && in_grid(idxs@[b] as int) && idxs@[a] as int
                        != idxs@[b] as int && row_of(idxs@[a] as int) == ri && row_of(
                        idxs@[b] as int,
                    ) == ri);
                }
            }
        }
        ok
    }

    /// True iff column `c` holds no duplicated concrete value.
    fn is_col_ok(&self, c: usize) -> (ok: bool)
        requires
            c < 9,
        ensures
            ok == !dup_in_col(self@, c as int),
    {
        let idxs = Self::col(c);
        let ok = self.check_idxes(&idxs);
        proof {
            let s = self@;
            let ci = c as int;
            if dup_in_col(s, ci) {
                let (i, j) = choose|i: int, j: int|
                    in_grid(i) && in_grid(j) && i != j && col_of(i) == ci && col_of(j) == ci
                        && s[i].is_concrete() && s[i].value_spec() == s[j].value_spec();
                lemma_grid_decompose(i);
                lemma_grid_decompose(j);
                assert(idxs@[row_of(i)] as int == i && idxs@[row_of(j)] as int == j);
                assert(exists|a: int, b: int|
                    0 <= a < idxs@.len() && 0 <= b < idxs@.len() && a != b
                        && #[trigger] s[idxs@[a] as int].is_concrete() && s[idxs@[a] as int].value_spec()
                        == #[trigger] s[idxs@[b] as int].value_spec()) by {
                    assert(s[idxs@[row_of(i)] as int].is_concrete() && s[idxs@[row_of(
                        i,
                    )] as int].value_spec() == s[idxs@[row_of(j)] as int].value_spec());
                }
            }
            if exists|a: int, b: int|
                0 <= a < idxs@.len() && 0 <= b < idxs@.len() && a != b
                    && #[trigger] s[idxs@[a] as int].is_concrete() && s[idxs@[a] as int].value_spec()
                    == #[trigger] s[idxs@[b] as int].value_spec() {
                let (a, b) = choose|a: int, b: int|
                    0 <= a < idxs@.len() && 0 <= b < idxs@.len() && a != b
                        && #[trigger] s[idxs@[a] as int].is_concrete()
                        && s[idxs@[a] as int].value_spec() == #[trigger] s[idxs@[b] as int].value_spec();
                lemma_rc(a, ci);
                lemma_rc(b, ci);
                assert(dup_in_col(s, ci)) by {
                    assert(in_grid(idxs@[a] as int) && in_grid(idxs@[b] as int) && idxs@[a] as int
                        != idxs@[b] as int && col_of(idxs@[a] as int) == ci && col_of(
                        idxs@[b] as int,
                    ) == ci);
                }
            }
        }
        ok
    }

    /// True iff box `g` holds no duplicated concrete value.
    fn is_square_ok(&self, g: usize) -> (ok: bool)
        requires
            g < 9,
        ensures
            ok == !dup_in_box(self@, g as int),
    {
        let idxs = Self::square(g);
        let ok = self.check_idxes(&idxs);
        proof {
            let s = self@;
            let gi = g as int;
            if dup_in_box(s, gi) {
                let (i, j) = choose|i: int, j: int|
                    in_grid(i) && in_grid(j) && i != j && box_of(i) == gi && box_of(j) == gi
                        && s[i].is_concrete() && s[i].value_spec() == s[j].value_spec();
                lemma_box_decompose(i);
                lemma_box_decompose(j);
                assert(idxs@[box_pos(i)] as int == i && idxs@[box_pos(j)] as int == j);
                assert(exists|a: int, b: int|
                    0 <= a < idxs@.len() && 0 <= b < idxs@.len() && a != b
                        && #[trigger] s[idxs@[a] as int].is_concrete() && s[idxs@[a] as int].value_spec()
                        == #[trigger] s[idxs@[b] as int].value_spec()) by {
                    assert(s[idxs@[box_pos(i)] as int].is_concrete() && s[idxs@[box_pos(
                        i,
                    )] as int].value_spec() == s[idxs@[box_pos(j)] as int].value_spec());
                }
            }
            if exists|a: int, b: int|
                0 <= a < idxs@.len() && 0 <= b < idxs@.len() && a != b
                    && #[trigger] s[idxs@[a] as int].is_concrete() && s[idxs@[a] as int].value_spec()
                    == #[trigger] s[idxs@[b] as int].value_spec() {
                let (a, b) = choose|a: int, b: int|
                    0 <= a < idxs@.len() && 0 <= b < idxs@.len() && a != b
                        && #[trigger] s[idxs@[a] as int].is_concrete()
                        && s[idxs@[a] as int].value_spec() == #[trigger] s[idxs@[b] as int].value_spec();
                lemma_box_cell(gi, a);
                lemma_box_cell(gi, b);
                assert(dup_in_box(s, gi)) by {
                    assert(in_grid(idxs@[a] as int) && in_grid(idxs@[b] as int) && idxs@[a] as int
                        != idxs@[b] as int && box_of(idxs@[a] as int) == gi && box_of(
                        idxs@[b] as int,
                    ) == gi);
                }
            }
        }
        ok
    }

    /// Flag every user-entered value of row `r` as conflicting.
    fn mark_row_bad(&mut self, r: usize)
        requires
            r < 9,
        ensures
            final(self)@.len() == 81,
            forall|j: int|
                in_grid(j) ==> final(self)@[j] == (if row_of(j) == r {
                    old(self)@[j].make_bad_spec()
                } else {
                    old(self)@[j]
                }),
    {
        let mut k: usize = 0;
        while k < 9
            invariant
                r < 9,
                k <= 9,
                self@.len() == 81,
                forall|j: int|
                    in_grid(j) ==> self@[j] == (if row_of(j) == r && col_of(j) < k {
                        old(self)@[j].make_bad_spec()
                    } else {
                        old(self)@[j]
                    }),
            decreases 9 - k,
        {
            let idx = r * 9 + k;
            proof {
                lemma_rc(r as int, k as int);
            }
            let mut c = self.cells[idx];
            c.make_bad();
            self.cells[idx] = c;
            k = k + 1;
        }
    }

    /// Flag every user-entered value of column `c0` as conflicting.
    fn mark_col_bad(&mut self, c0: usize)
        requires
            c0 < 9,
        ensures
            final(self)@.len() == 81,
            forall|j: int|
                in_grid(j) ==> final(self)@[j] == (if col_of(j) == c0 {
                    old(self)@[j].make_bad_spec()
                } else {
                    old(self)@[j]
                }),
    {
        let mut k: usize = 0;
        while k < 9
            invariant
                c0 < 9,
                k <= 9,
                self@.len() == 81,
                forall|j: int|
                    in_grid(j) ==> self@[j] == (if col_of(j) == c0 && row_of(j) < k {
                        old(self)@[j].make_bad_spec()
                    } else {
                        old(self)@[j]
                    }),
            decreases 9 - k,
        {
            let idx = k * 9 + c0;
            proof {
                lemma_rc(k as int, c0 as int);
            }
            let mut c = self.cells[idx];
            c.make_bad();
            self.cells[idx] = c;
            k = k + 1;
        }
    }

    /// Flag every user-entered value of box `g` as conflicting.
    fn mark_square_bad(&mut self, g: usize)
        requires
            g < 9,
        ensures
            final(self)@.len() == 81,
            forall|j: int|
                in_grid(j) ==> final(self)@[j] == (if box_of(j) == g {
                    old(self)@[j].make_bad_spec()
                } else {
                    old(self)@[j]
                }),
    {
        let mut k: usize = 0;
        while k < 9
            invariant
                g < 9,
                k <= 9,
                self@.len() == 81,
                forall|j: int|
                    in_grid(j) ==> self@[j] == (if box_of(j) == g && box_pos(j) < k {
                        old(self)@[j].make_bad_spec()
                    } else {
                        old(self)@[j]
                    }),
            decreases 9 - k,
        {
            let idx = ((g / 3) * 3 + k / 3) * 9 + (g % 3) * 3 + k % 3;
            proof {
                lemma_box_cell(g as int, k as int);
                assert(idx as int == box_cell(g as int, k as int));
            }
            let mut c = self.cells[idx];
            c.make_bad();
            self.cells[idx] = c;
            proof {
                assert forall|j: int|
                    in_grid(j) implies self@[j] == (if box_of(j) == g && box_pos(j) < k + 1 {
                    old(self)@[j].make_bad_spec()
                } else {
                    old(self)@[j]
                }) by {
                    if box_of(j) == g && box_pos(j) == k {
                        lemma_box_decompose(j);
                        assert(j == idx as int);
                    }
                }
            }
            k = k + 1;
        }
    }

    /// Recompute consistency for the whole board: every user-entered value is
    /// first treated as consistent, then every row, column, and box holding a
    /// duplicated concrete value has all its user-entered values flagged.
    fn calc_cell_states(&mut self)
        ensures
            final(self)@ == recheck(old(self)@),
    {
        let ghost s0 = self@;
        let mut i: usize = 0;
        while i < 81
            invariant
                i <= 81,
                self@.len() == 81,
                s0.len() == 81,
                forall|j: int| 0 <= j < i ==> self@[j] == s0[j].make_good_spec(),
                forall|j: int| i <= j < 81 ==> self@[j] == s0[j],
            decreases 81 - i,
        {
            let mut c = self.cells[i];
            c.make_good();
            self.cells[i] = c;
            i = i + 1;
        }
        proof {
            assert forall|j: int| in_grid(j) implies self@[j] == mid_cell(s0, 0, j) by {}
        }
        let mut g: usize = 0;
        while g < 9
            invariant
                g <= 9,
                self@.len() == 81,
                s0.len() == 81,
                forall|j: int| in_grid(j) ==> self@[j] == mid_cell(s0, g as int, j),
            decreases 9 - g,
        {
            let gi: Ghost<int> = Ghost(g as int);
            proof {
                assert forall|j: int|
                    in_grid(j) implies #[trigger] self@[j].value_spec() == s0[j].value_spec() by {}
                lemma_dups_same(s0, self@);
            }
            let row_dup = !self.is_row_ok(g);
            if row_dup {
                self.mark_row_bad(g);
            }
            let ghost sa = self@;
            proof {
                assert forall|j: int|
                    in_grid(j) implies sa[j] == (if row_of(j) == gi@ && dup_in_row(s0, gi@) {
                    mid_cell(s0, gi@, j).make_bad_spec()
                } else {
                    mid_cell(s0, gi@, j)
                }) by {}
                assert forall|j: int|
                    in_grid(j) implies #[trigger] self@[j].value_spec() == s0[j].value_spec() by {}
                lemma_dups_same(s0, self@);
            }
            let col_dup = !self.is_col_ok(g);
            if col_dup {
                self.mark_col_bad(g);
            }
            let ghost sb = self@;
            proof {
                assert forall|j: int|
                    in_grid(j) implies sb[j] == (if col_of(j) == gi@ && dup_in_col(s0, gi@) {
                    sa[j].make_bad_spec()
                } else {
                    sa[j]
                }) by {}
                assert forall|j: int|
                    in_grid(j) implies #[trigger] self@[j].value_spec() == s0[j].value_spec() by {}
                lemma_dups_same(s0, self@);
            }
            let box_dup = !self.is_square_ok(g);
            if box_dup {
                self.mark_square_bad(g);
            }
            proof {
                assert forall|j: int|
                    in_grid(j) implies self@[j] == (if box_of(j) == gi@ && dup_in_box(s0, gi@) {
                    sb[j].make_bad_spec()
                } else {
                    sb[j]
                }) by {}
                assert forall|j: int|
                    in_grid(j) implies self@[j] == mid_cell(s0, gi@ + 1, j) by {
                    lemma_grid_decompose(j);
                }
            }
            g = g + 1;
        }
        proof {
            assert(g == 9);
            assert forall|j: int| 0 <= j < 81 implies self@[j] == recheck(s0)[j] by {
                lemma_grid_decompose(j);
                assert(in_grid(j));
                assert(self@[j] == mid_cell(s0, g as int, j));
                assert(self@[j] == mid_cell(s0, 9, j));
                assert(mid_cell(s0, 9, j) == recheck_cell(s0, j));
                assert(recheck(s0)[j] == recheck_cell(s0, j));
            }
            assert(self@ =~= recheck(s0));
        }
    }

    /// Overwrite one position with a user value (or clear it), then recompute
    /// consistency for the whole board.
    pub fn set_cell(&mut self, idx: (usize, usize), value: Option<u8>)
        requires
            idx.0 < 9,
            idx.1 < 9,
            value matches Some(v) ==> 1 <= v <= 9,
        ensures
            final(self)@ == recheck(
                old(self)@.update(
                    idx.0 * 9 + idx.1,
                    match value {
                        Some(v) => Cell::Good(v),
                        None => Cell::Empty,
                    },
                ),
            ),
    {
        self.cells[idx.0 * 9 + idx.1] = match value {
            Some(v) => Cell::Good(v),
            None => Cell::Empty,
        };
        proof {
            assert(self@ =~= old(self)@.update(
                idx.0 * 9 + idx.1,
                match value {
                    Some(v) => Cell::Good(v),
                    None => Cell::Empty,
                },
            ));
        }
        self.calc_cell_states();
    }

    /// Load a board from the lines of a plain-text file: a digit 1..=9 sets
    /// a cell, a space leaves one empty, and anything else — or a digit
    /// outside the 9x9 grid — is reported as an error for the first
    /// offending position in reading order.  The consistency pass runs on
    /// the loaded board before it is returned.
    pub fn from_rows(rows: &Vec<Vec<char>>) -> (r: Result<Board, ParseError>)
        ensures
            r is Ok <==> rows_ok(rows_view(rows@)),
            r matches Ok(b) ==> b@ == recheck(raw_board(rows_view(rows@))) && edit_ok(b@),
            r matches Err(e) ==> exists|i: int, j: int|
                {
                    &&& 0 <= i < rows@.len()
                    &&& 0 <= j < rows@[i]@.len()
                    &&& !cell_char_ok(#[trigger] rows_view(rows@)[i][j], i, j)
                    &&& e == parse_err_of(rows_view(rows@)[i][j])
                    &&& (forall|i2: int, j2: int|
                        0 <= i2 < rows@.len() && 0 <= j2 < rows@[i2]@.len() && (i2 < i || (i2 == i
                            && j2 < j)) ==> #[trigger] cell_char_ok(
                            rows_view(rows@)[i2][j2],
                            i2,
                            j2,
                        ))
                },
    {
        let ghost rv = rows_view(rows@);
        let mut board = Board::default();
        let mut i: usize = 0;
        while i < rows.len()
            invariant
                rv == rows_view(rows@),
                i <= rows@.len(),
                board@.len() == 81,
                forall|k: int|
                    #![trigger board@[k]]
                    in_grid(k) ==> board@[k] == parsed_upto(rv, i as int, 0, k),
                forall|i2: int, j2: int|
                    0 <= i2 < i && 0 <= j2 < rv[i2].len() ==> #[trigger] cell_char_ok(
                        rv[i2][j2],
                        i2,
                        j2,
                    ),
            decreases rows@.len() - i,
        {
            let row_len = rows[i].len();
            let mut j: usize = 0;
            while j < row_len
                invariant
                    rv == rows_view(rows@),
                    i < rows@.len(),
                    row_len == rv[i as int].len(),
                    j <= row_len,
                    board@.len() == 81,
                    forall|k: int|
                        #![trigger board@[k]]
                        in_grid(k) ==> board@[k] == parsed_upto(rv, i as int, j as int, k),
                    forall|i2: int, j2: int|
                        0 <= i2 < i && 0 <= j2 < rv[i2].len() ==> #[trigger] cell_char_ok(
                            rv[i2][j2],
                            i2,
                            j2,
                        ),
                    forall|j2: int|
                        0 <= j2 < j ==> #[trigger] cell_char_ok(rv[i as int][j2], i as int, j2),
                decreases row_len - j,
            {
                let c = rows[i][j];
                proof {
                    assert(rv[i as int][j as int] == c);
                }
                let u = c as u32;
                if 49 <= u && u <= 57 {
                    if i > 8 || j > 8 {
                        proof {
                            assert(!cell_char_ok(rv[i as int][j as int], i as int, j as int));
                        }
                        return Result::Err(ParseError::OutOfRange);
                    }
                    let d = (u - 48) as u8;
                    let ghost b0 = board@;
                    board.cells[i * 9 + j] = Cell::Good(d);
                    proof {
                        lemma_rc(i as int, j as int);
                        assert(board@ == b0.update(i as int * 9 + j as int, Cell::Good(d)));
                        assert forall|k: int|
                            in_grid(k) implies #[trigger] board@[k] == parsed_upto(
                            rv,
                            i as int,
                            j as int + 1,
                            k,
                        ) by {
                            lemma_grid_decompose(k);
                        }
                    }
                } else if u == 32 {
                    proof {
                        assert forall|k: int|
                            in_grid(k) implies #[trigger] board@[k] == parsed_upto(
                            rv,
                            i as int,
                            j as int + 1,
                            k,
                        ) by {
                            lemma_grid_decompose(k);
                        }
                    }
                } else {
                    proof {
                        assert(!cell_char_ok(rv[i as int][j as int], i as int, j as int));
                    }
                    return Result::Err(ParseError::UnexpectedChar(c));
                }
                j = j + 1;
            }
            proof {
                assert forall|k: int|
                    in_grid(k) implies #[trigger] board@[k] == parsed_upto(
                    rv,
                    i as int + 1,
                    0,
                    k,
                ) by {
                    lemma_grid_decompose(k);
                    assert(board@[k] == parsed_upto(rv, i as int, j as int, k));
                }
            }
            i = i + 1;
        }
        proof {
            assert forall|k: int| 0 <= k < 81 implies board@[k] == raw_board(rv)[k] by {
                lemma_grid_decompose(k);
                assert(board@[k] == parsed_upto(rv, i as int, 0, k));
                assert(raw_board(rv)[k] == raw_cell(rv, k));
            }
            assert(board@ =~= raw_board(rv));
        }
        board.calc_cell_states();
        proof {
            let u = raw_board(rv);
            lemma_recheck_flags_dups(u);
            assert forall|k: int|
                in_grid(k) implies !(#[trigger] board@[k] is Maybe) && !(board@[k] is Collapsed)
                && (board@[k].is_concrete() ==> 1 <= cell_value_int(board@[k]) <= 9) by {
                assert(board@[k] == recheck_cell(u, k));
                assert(u[k] == raw_cell(rv, k));
            }
            assert(edit_ok(board@));
        }
        Result::Ok(board)
    }

    /// Fix the cell at `index` to `value` and remove `value` from the
    /// candidates of every other cell sharing its row, column, or box.
    #[verifier::rlimit(100)]
    pub fn collapse(&mut self, index: usize, value: u8)
        requires
            index < 81,
            1 <= value <= 9,
        ensures
            final(self)@ == collapse_spec(old(self)@, index as int, value),
    {
        let ghost s0 = self@;
        self.cells[index] = Cell::Collapsed(value);
        let r = index / 9;
        let c = index % 9;
        let br = (r / 3) * 3;
        let bc = (c / 3) * 3;
        proof {
            lemma_grid_decompose(index as int);
            assert(box_of(index as int) / 3 == r / 3 && box_of(index as int) % 3 == c / 3)
                by (nonlinear_arith)
                requires
                    0 <= r < 9 && 0 <= c < 9 && box_of(index as int) == (r / 3) * 3 + c / 3,
            ;
        }
        let mut i: usize = 0;
        while i < 9
            invariant
                index < 81,
                1 <= value <= 9,
                i <= 9,
                self@.len() == 81,
                s0.len() == 81,
                r == index / 9,
                c == index % 9,
                br == (r / 3) * 3,
                bc == (c / 3) * 3,
                r as int == row_of(index as int),
                c as int == col_of(index as int),
                box_of(index as int) / 3 == r / 3,
                box_of(index as int) % 3 == c / 3,
                forall|j: int|
                    #![trigger self@[j]]
                    in_grid(j) ==> self@[j] == (if j == index {
                        Cell::Collapsed(value)
                    } else if s0[j] is Maybe && swept(index as int, i as int, j) {
                        s0[j].unset_spec(value)
                    } else {
                        s0[j]
                    }),
            decreases 9 - i,
        {
            let ghost t0 = self@;
            let i1 = r * 9 + i;
            let i2 = i * 9 + c;
            let i3 = (br + i / 3) * 9 + bc + i % 3;
            proof {
                lemma_rc(r as int, i as int);
                lemma_rc(i as int, c as int);
                lemma_box_cell(box_of(index as int), i as int);
                assert(i3 as int == box_cell(box_of(index as int), i as int));
            }
            self.unset_candidate(i1, value);
            let ghost t1 = self@;
            self.unset_candidate(i2, value);
            let ghost t2 = self@;
            self.unset_candidate(i3, value);
            proof {
                let idx = index as int;
                assert forall|j: int|
                    #![trigger self@[j]]
                    in_grid(j) implies self@[j] == (if j == idx {
                    Cell::Collapsed(value)
                } else if s0[j] is Maybe && swept(idx, i as int + 1, j) {
                    s0[j].unset_spec(value)
                } else {
                    s0[j]
                }) by {
                    lemma_grid_decompose(j);
                    assert(row_of(j) == row_of(idx) && col_of(j) == i ==> j == i1 as int);
                    assert(col_of(j) == col_of(idx) && row_of(j) == i ==> j == i2 as int);
                    if box_of(j) == box_of(idx) && box_pos(j) == i {
                        lemma_box_decompose(j);
                        assert(j == i3 as int);
                    }
                    if j != i1 as int && j != i2 as int && j != i3 as int {
                        assert(self@[j] == t0[j]);
                        assert(swept(idx, i as int + 1, j) == swept(idx, i as int, j));
                    } else {
                        if s0[j] is Maybe {
                            lemma_mask_clear_idem(s0[j].mask_spec(), value);
                            assert(s0[j].unset_spec(value).unset_spec(value) == s0[j].unset_spec(
                                value,
                            ));
                        }
                        assert(t1[j] == (if j == i1 as int {
                            t0[j].unset_spec(value)
                        } else {
                            t0[j]
                        }));
                        assert(t2[j] == (if j == i2 as int {
                            t1[j].unset_spec(value)
                        } else {
                            t1[j]
                        }));
                        assert(self@[j] == (if j == i3 as int {
                            t2[j].unset_spec(value)
                        } else {
                            t2[j]
                        }));
                    }
                }
            }
            i = i + 1;
        }
        proof {
            assert(i == 9);
            assert forall|j: int| 0 <= j < 81 implies self@[j] == collapse_spec(
                s0,
                index as int,
                value,
            )[j] by {
                lemma_grid_decompose(j);
                assert(self@[j] == (if j == index {
                    Cell::Collapsed(value)
                } else if s0[j] is Maybe && swept(index as int, i as int, j) {
                    s0[j].unset_spec(value)
                } else {
                    s0[j]
                }));
                assert(self@[j] == (if j == index {
                    Cell::Collapsed(value)
                } else if s0[j] is Maybe && swept(index as int, 9, j) {
                    s0[j].unset_spec(value)
                } else {
                    s0[j]
                }));
                assert(swept(index as int, 9, j) == same_group(j, index as int));
                assert(collapse_spec(s0, index as int, value)[j] == collapsed_cell(
                    s0,
                    index as int,
                    value,
                    j,
                ));
            }
            assert(self@ =~= collapse_spec(s0, index as int, value));
        }
    }

    /// Seed every `Empty` cell with the bitmask of values 1..=9 not already
    /// present among the concrete cells of its row, column, or box; cells in
    /// any other state are left unchanged.
    #[verifier::rlimit(100)]
    pub fn init_maybe(&mut self)
        ensures
            seeded_board(old(self)@, final(self)@),
    {
        let ghost s0 = self@;
        let mut i: usize = 0;
        while i < 81
            invariant
                i <= 81,
                self@.len() == 81,
                s0.len() == 81,
                forall|j: int|
                    #![trigger self@[j]]
                    0 <= j < 81 ==> (if j < i && s0[j] is Empty {
                        seeded_cell_ok(s0, self@[j], j)
                    } else {
                        self@[j] == s0[j]
                    }),
                forall|j: int|
                    #![trigger self@[j].value_spec()]
                    0 <= j < 81 ==> self@[j].value_spec() == s0[j].value_spec(),
            decreases 81 - i,
        {
            if self.cells[i].is_empty() {
                let ghost ii = i as int;
                let r = i / 9;
                let c = i % 9;
                let br = (r / 3) * 3;
                let bc = (c / 3) * 3;
                proof {
                    lemma_grid_decompose(ii);
                    assert(box_of(ii) / 3 == r / 3 && box_of(ii) % 3 == c / 3) by (nonlinear_arith)
                        requires
                            0 <= r < 9 && 0 <= c < 9 && box_of(ii) == (r / 3) * 3 + c / 3,
                    ;
                }
                let mut m: u16 = 0x3FE;
                proof {
                    assert forall|w: u8| #![trigger mask_has(m, w)] mask_has(m, w) <==> (1 <= w <= 9
                        && (forall|j: int|
                        in_grid(j) && swept(ii, 0, j) ==> #[trigger] s0[j].value_spec() != Some(
                        w))) by {
                        lemma_full_mask(w);
                    }
                    lemma_full_mask(1);
                }
                let mut k: usize = 0;
                while k < 9
                    invariant
                        i < 81,
                        k <= 9,
                        ii == i as int,
                        self@.len() == 81,
                        s0.len() == 81,
                        s0[ii] is Empty,
                        r == i / 9,
                        c == i % 9,
                        br == (r / 3) * 3,
                        bc == (c / 3) * 3,
                        r as int == row_of(ii),
                        c as int == col_of(ii),
                        box_of(ii) / 3 == r / 3,
                        box_of(ii) % 3 == c / 3,
                        mask_wf(m),
                        forall|j: int|
                            #![trigger self@[j].value_spec()]
                            0 <= j < 81 ==> self@[j].value_spec() == s0[j].value_spec(),
                        forall|w: u8|
                            #![trigger mask_has(m, w)]
                            mask_has(m, w) <==> (1 <= w <= 9 && (forall|j: int|
                                in_grid(j) && swept(ii, k as int, j)
                                    ==> #[trigger] s0[j].value_spec() != Some(w))),
                    decreases 9 - k,
                {
                    let ghost m0 = m;
                    let p1 = r * 9 + k;
                    let p2 = k * 9 + c;
                    let p3 = (br + k / 3) * 9 + bc + k % 3;
                    proof {
                        lemma_rc(r as int, k as int);
                        lemma_rc(k as int, c as int);
                        lemma_box_cell(box_of(ii), k as int);
                        assert(p3 as int == box_cell(box_of(ii), k as int));
                    }
                    if let Some(v) = self.cells[p1].value() {
                        if 1 <= v && v <= 9 {
                            m = m & !(1u16 << (v as u16));
                            proof {
                                lemma_mask_clear_wf(m0, v);
                            }
                        }
                    }
                    proof {
                        assert forall|w: u8| #![trigger mask_has(m, w)] mask_has(m, w) <==> (
                        mask_has(m0, w) && s0[p1 as int].value_spec() != Some(w)) by {
                            match s0[p1 as int].value_spec() {
                                Some(v) => {
                                    if 1 <= v <= 9 {
                                        lemma_mask_clear_has(m0, v, w);
                                    }
                                },
                                None => {},
                            }
                        }
                    }
                    let ghost m1 = m;
                    if let Some(v) = self.cells[p2].value() {
                        if 1 <= v && v <= 9 {
                            m = m & !(1u16 << (v as u16));
                            proof {
                                lemma_mask_clear_wf(m1, v);
                            }
                        }
                    }
                    proof {
                        assert forall|w: u8| #![trigger mask_has(m, w)] mask_has(m, w) <==> (
                        mask_has(m1, w) && s0[p2 as int].value_spec() != Some(w)) by {
                            match s0[p2 as int].value_spec() {
                                Some(v) => {
                                    if 1 <= v <= 9 {
                                        lemma_mask_clear_has(m1, v, w);
                                    }
                                },
                                None => {},
                            }
                        }
                    }
                    let ghost m2 = m;
                    if let Some(v) = self.cells[p3].value() {
                        if 1 <= v && v <= 9 {
                            m = m & !(1u16 << (v as u16));
                            proof {
                                lemma_mask_clear_wf(m2, v);
                            }
                        }
                    }
                    proof {
                        assert forall|w: u8| #![trigger mask_has(m, w)] mask_has(m, w) <==> (
                        mask_has(m2, w) && s0[p3 as int].value_spec() != Some(w)) by {
                            match s0[p3 as int].value_spec() {
                                Some(v) => {
                                    if 1 <= v <= 9 {
                                        lemma_mask_clear_has(m2, v, w);
                                    }
                                },
                                None => {},
                            }
                        }
                        assert forall|w: u8| #![trigger mask_has(m, w)] mask_has(m, w) <==> (1 <= w
                            <= 9 && (forall|j: int|
                            in_grid(j) && swept(ii, k as int + 1, j)
                                ==> #[trigger] s0[j].value_spec() != Some(w))) by {
                            if mask_has(m, w) {
                                assert forall|j: int|
                                    in_grid(j) && swept(ii, k as int + 1, j)
                                        implies #[trigger] s0[j].value_spec() != Some(w) by {
                                    lemma_grid_decompose(j);
                                    if swept(ii, k as int, j) {
                                        assert(mask_has(m0, w));
                                    } else {
                                        if row_of(j) == row_of(ii) && col_of(j) == k {
                                            assert(j == p1 as int);
                                        } else if col_of(j) == col_of(ii) && row_of(j) == k {
                                            assert(j == p2 as int);
                                        } else {
                                            lemma_box_decompose(j);
                                            assert(j == p3 as int);
                                        }
                                    }
                                }
                            }
                            if 1 <= w <= 9 && (forall|j: int|
                                in_grid(j) && swept(ii, k as int + 1, j)
                                    ==> #[trigger] s0[j].value_spec() != Some(w)) {
                                assert forall|j: int|
                                    in_grid(j) && swept(ii, k as int, j)
                                        implies #[trigger] s0[j].value_spec() != Some(w) by {
                                    assert(swept(ii, k as int + 1, j));
                                }
                                assert(mask_has(m0, w));
                                assert(in_grid(p1 as int) && swept(ii, k as int + 1, p1 as int));
                                assert(in_grid(p2 as int) && swept(ii, k as int + 1, p2 as int));
                                assert(in_grid(p3 as int) && swept(ii, k as int + 1, p3 as int));
                                assert(mask_has(m, w));
                            }
                        }
                    }
                    k = k + 1;
                }
                proof {
                    assert(k == 9);
                    assert(seeded_cell_ok(s0, Cell::Maybe(m), ii)) by {
                        assert forall|w: u8| #![trigger mask_has(m, w)] mask_has(m, w)
                            <==> candidate_ok(s0, ii, w) by {
                            if mask_has(m, w) {
                                assert forall|j: int|
                                    in_grid(j) && j != ii && same_group(j, ii)
                                        implies #[trigger] s0[j].value_spec() != Some(w) by {
                                    lemma_grid_decompose(j);
                                    assert(swept(ii, 9, j));
                                    assert(swept(ii, k as int, j));
                                }
                            }
                            if candidate_ok(s0, ii, w) {
                                assert forall|j: int|
                                    in_grid(j) && swept(ii, k as int, j)
                                        implies #[trigger] s0[j].value_spec() != Some(w) by {
                                    lemma_grid_decompose(j);
                                    if j != ii {
                                        assert(same_group(j, ii));
                                    }
                                }
                                assert(mask_has(m, w));
                            }
                        }
                    }
                }
                self.cells[i] = Cell::Maybe(m);
            }
            i = i + 1;
        }
    }
}

} // verus!
