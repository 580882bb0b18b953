use vstd::prelude::*;
use crate::commands::CommandResult;
use crate::rng::{fresh_rng, range_sample};

verus! {

/// What the player sees of one cell.
#[derive(Debug, Clone, Copy, PartialEq, Eq, Structural)]
pub enum TileStatus {
    Unknown,
    Open(u8),
    Flagged,
    Exploded,
}

/// One grid cell: a mine flag, fixed at construction, and a mutable status.
#[derive(Debug, Clone, Copy)]
struct Tile {
    has_mine: bool,
    status: TileStatus,
}

impl Tile {
    fn new() -> (t: Tile)
        ensures
            t == (Tile { has_mine: false, status: TileStatus::Unknown }),
    {
        Tile { has_mine: false, status: TileStatus::Unknown }
    }

    fn is_open(&self) -> (r: bool)
        ensures
            r == (self.status is Open),
    {
        matches!(self.status, TileStatus::Open(..))
    }
}

/// The board: a rectangular grid of tiles, stored row by row.
#[derive(Debug)]
pub struct Field {
    tiles: Vec<Tile>,
    rows: usize,
    columns: usize,
}

/// Two cells touch when they differ by at most one in each coordinate
/// and are not the same cell.
pub open spec fn adjacent(y: int, x: int, p: int, q: int) -> bool {
    &&& -1 <= p - y <= 1
    &&& -1 <= q - x <= 1
    &&& !(p == y && q == x)
}

/// A changed cell is accounted for by a changed neighboring cell that has
/// no mine next to it: reveal expands only out of such cells.
#[verifier::opaque]
pub open spec fn justified(pre: Field, post: Field, i: int, j: int) -> bool {
    exists|p: int, q: int|
        pre.in_bounds_spec(p, q) && adjacent(i, j, p, q) && post.status_at(p, q)
            != pre.status_at(p, q) && pre.neighbor_mines(p, q) == 0
}

/// The reveal went as far as it can: every in-bounds neighbor of a changed
/// cell that counts no neighboring mine is open afterwards.
pub open spec fn expansion_complete(pre: Field, post: Field) -> bool {
    forall|p: int, q: int, i: int, j: int|
        #![trigger post.status_at(p, q), adjacent(p, q, i, j)]
        pre.in_bounds_spec(p, q) && pre.in_bounds_spec(i, j) && post.status_at(p, q)
            != pre.status_at(p, q) && pre.neighbor_mines(p, q) == 0 && adjacent(p, q, i, j)
            ==> post.status_at(i, j) is Open
}

/// What one chain reveal starting at `(y, x)` does to the board: sizes and
/// mines are kept; open cells are never touched again; every cell that
/// changed is now open and shows its true neighbor-mine count; the starting
/// cell is open; every other changed cell touches a changed cell with
/// no neighboring mines, so cells with a positive count never spread the
/// reveal further; and the whole connected zero-count region around the
/// start is opened, boundary included.
pub open spec fn reveal_post(pre: Field, post: Field, y: int, x: int) -> bool {
    &&& post.rows_spec() == pre.rows_spec()
    &&& post.columns_spec() == pre.columns_spec()
    &&& same_layout(pre, post)
    &&& post.status_at(y, x) == TileStatus::Open(pre.neighbor_mines(y, x) as u8)
    &&& forall|i: int, j: int|
        pre.in_bounds_spec(i, j) && (#[trigger] pre.status_at(i, j)) is Open ==> post.status_at(
            i,
            j,
        ) == pre.status_at(i, j)
    &&& forall|i: int, j: int|
        pre.in_bounds_spec(i, j) && (#[trigger] post.status_at(i, j)) != pre.status_at(i, j)
            ==> !(pre.status_at(i, j) is Open) && post.status_at(i, j) == TileStatus::Open(
            pre.neighbor_mines(i, j) as u8,
        )
    &&& forall|i: int, j: int|
        pre.in_bounds_spec(i, j) && (#[trigger] post.status_at(i, j)) != pre.status_at(i, j) && !(i
            == y && j == x) ==> justified(pre, post, i, j)
    &&& expansion_complete(pre, post)
}

proof fn lemma_justified_monotone(pre: Field, a: Field, b: Field, i: int, j: int)
    requires
        justified(pre, a, i, j),
        forall|p: int, q: int|
            pre.in_bounds_spec(p, q) && (#[trigger] a.status_at(p, q)) != pre.status_at(p, q)
                ==> b.status_at(p, q) != pre.status_at(p, q),
    ensures
        justified(pre, b, i, j),
{
    reveal(justified);
    let (p, q) = choose|p: int, q: int|
        pre.in_bounds_spec(p, q) && adjacent(i, j, p, q) && a.status_at(p, q) != pre.status_at(
            p,
            q,
        ) && pre.neighbor_mines(p, q) == 0;
    assert(b.status_at(p, q) != pre.status_at(p, q));
}

proof fn lemma_justified_intro(pre: Field, post: Field, i: int, j: int, p: int, q: int)
    requires
        pre.in_bounds_spec(p, q),
        adjacent(i, j, p, q),
        post.status_at(p, q) != pre.status_at(p, q),
        pre.neighbor_mines(p, q) == 0,
    ensures
        justified(pre, post, i, j),
{
    reveal(justified);
}

proof fn lemma_same_layout_counts(a: Field, b: Field)
    requires
        same_layout(a, b),
    ensures
        forall|y: int, x: int| (#[trigger] a.neighbor_mines(y, x)) == b.neighbor_mines(y, x),
{
    assert forall|y: int, x: int| (#[trigger] a.neighbor_mines(y, x)) == b.neighbor_mines(
        y,
        x,
    ) by {
        assert(a.mine_ind(y - 1, x - 1) == b.mine_ind(y - 1, x - 1));
        assert(a.mine_ind(y - 1, x) == b.mine_ind(y - 1, x));
        assert(a.mine_ind(y - 1, x + 1) == b.mine_ind(y - 1, x + 1));
        assert(a.mine_ind(y, x - 1) == b.mine_ind(y, x - 1));
        assert(a.mine_ind(y, x + 1) == b.mine_ind(y, x + 1));
        assert(a.mine_ind(y + 1, x - 1) == b.mine_ind(y + 1, x - 1));
        assert(a.mine_ind(y + 1, x) == b.mine_ind(y + 1, x));
        assert(a.mine_ind(y + 1, x + 1) == b.mine_ind(y + 1, x + 1));
    }
}

/// Two boards have the same sizes and the same mines everywhere.
pub open spec fn same_layout(a: Field, b: Field) -> bool {
    &&& a.rows_spec() == b.rows_spec()
    &&& a.columns_spec() == b.columns_spec()
    &&& forall|y: int, x: int|
        a.in_bounds_spec(y, x) ==> (#[trigger] a.mine_at(y, x)) == b.mine_at(y, x)
}

spec fn mine_count_seq(s: Seq<Tile>) -> nat
    decreases s.len(),
{
    if s.len() == 0 {
        0
    } else {
        mine_count_seq(s.drop_last()) + (if s.last().has_mine {
            1nat
        } else {
            0nat
        })
    }
}

spec fn not_open_count_seq(s: Seq<Tile>) -> nat
    decreases s.len(),
{
    if s.len() == 0 {
        0
    } else {
        not_open_count_seq(s.drop_last()) + (if s.last().status is Open {
            0nat
        } else {
            1nat
        })
    }
}

proof fn lemma_mine_count_update(s: Seq<Tile>, i: int, v: Tile)
    requires
        0 <= i < s.len(),
    ensures
        mine_count_seq(s.update(i, v)) == mine_count_seq(s) - (if s[i].has_mine {
            1int
        } else {
            0int
        }) + (if v.has_mine {
            1int
        } else {
            0int
        }),
    decreases s.len(),
{
    let t = s.update(i, v);
    if i == s.len() - 1 {
        assert(t.drop_last() =~= s.drop_last());
    } else {
        assert(t.drop_last() =~= s.drop_last().update(i, v));
        lemma_mine_count_update(s.drop_last(), i, v);
    }
}

proof fn lemma_not_open_count_update(s: Seq<Tile>, i: int, v: Tile)
    requires
        0 <= i < s.len(),
    ensures
        not_open_count_seq(s.update(i, v)) == not_open_count_seq(s) - (if s[i].status is Open {
            0int
        } else {
            1int
        }) + (if v.status is Open {
            0int
        } else {
            1int
        }),
    decreases s.len(),
{
    let t = s.update(i, v);
    if i == s.len() - 1 {
        assert(t.drop_last() =~= s.drop_last());
    } else {
        assert(t.drop_last() =~= s.drop_last().update(i, v));
        lemma_not_open_count_update(s.drop_last(), i, v);
    }
}

proof fn lemma_mine_count_zero(s: Seq<Tile>)
    requires
        forall|k: int| 0 <= k < s.len() ==> !(#[trigger] s[k]).has_mine,
    ensures
        mine_count_seq(s) == 0,
    decreases s.len(),
{
    if s.len() > 0 {
        lemma_mine_count_zero(s.drop_last());
    }
}

spec fn changed_count_seq(a: Seq<Tile>, b: Seq<Tile>) -> nat
    decreases a.len(),
{
    if a.len() == 0 || b.len() == 0 {
        0
    } else {
        changed_count_seq(a.drop_last(), b.drop_last()) + (if a.last().status
            == b.last().status {
            0nat
        } else {
            1nat
        })
    }
}

proof fn lemma_changed_count_le(a: Seq<Tile>, b: Seq<Tile>)
    ensures
        changed_count_seq(a, b) <= a.len(),
    decreases a.len(),
{
    if a.len() > 0 && b.len() > 0 {
        lemma_changed_count_le(a.drop_last(), b.drop_last());
    }
}

/// How many cells show a different status on the two boards.
pub closed spec fn changed_total(pre: Field, post: Field) -> nat {
    changed_count_seq(pre.tiles@, post.tiles@)
}

/// A chain reveal never revisits a cell: each cell it touches goes from a
/// not-open status to `Open` once, so one probe changes at most
/// rows·columns cell statuses.
pub proof fn lemma_reveal_mutation_bound(pre: Field, post: Field, y: int, x: int)
    requires
        pre.wf(),
        reveal_post(pre, post, y, x),
    ensures
        changed_total(pre, post) <= pre.rows_spec() * pre.columns_spec(),
{
    lemma_changed_count_le(pre.tiles@, post.tiles@);
}

proof fn lemma_flat_bound(rows: int, columns: int, y: int, x: int)
    requires
        1 <= columns,
        0 <= y < rows,
        0 <= x < columns,
    ensures
        0 <= y * columns + x < rows * columns,
{
    assert(0 <= y * columns + x < rows * columns) by (nonlinear_arith)
        requires
            1 <= columns,
            0 <= y < rows,
            0 <= x < columns,
    ;
}

proof fn lemma_flat_injective(columns: int, y1: int, x1: int, y2: int, x2: int)
    requires
        1 <= columns,
        0 <= y1,
        0 <= y2,
        0 <= x1 < columns,
        0 <= x2 < columns,
        y1 * columns + x1 == y2 * columns + x2,
    ensures
        y1 == y2 && x1 == x2,
{
    assert(y1 == y2 && x1 == x2) by (nonlinear_arith)
        requires
            1 <= columns,
            0 <= y1,
            0 <= y2,
            0 <= x1 < columns,
            0 <= x2 < columns,
            y1 * columns + x1 == y2 * columns + x2,
    ;
}

/// The decimal digit characters, `'0'` for zero up to `'9'` for nine.
pub open spec fn digit_char(d: int) -> char {
    if d == 0 {
        '0'
    } else if d == 1 {
        '1'
    } else if d == 2 {
        '2'
    } else if d == 3 {
        '3'
    } else if d == 4 {
        '4'
    } else if d == 5 {
        '5'
    } else if d == 6 {
        '6'
    } else if d == 7 {
        '7'
    } else if d == 8 {
        '8'
    } else if d == 9 {
        '9'
    } else {
        '?'
    }
}

/// The label of a row: successive lowercase letters starting at `'a'`.
pub open spec fn row_letter(y: int) -> char {
    if y == 0 {
        'a'
    } else if y == 1 {
        'b'
    } else if y == 2 {
        'c'
    } else if y == 3 {
        'd'
    } else if y == 4 {
        'e'
    } else if y == 5 {
        'f'
    } else if y == 6 {
        'g'
    } else if y == 7 {
        'h'
    } else if y == 8 {
        'i'
    } else if y == 9 {
        'j'
    } else if y == 10 {
        'k'
    } else if y == 11 {
        'l'
    } else if y == 12 {
        'm'
    } else if y == 13 {
        'n'
    } else if y == 14 {
        'o'
    } else if y == 15 {
        'p'
    } else if y == 16 {
        'q'
    } else if y == 17 {
        'r'
    } else if y == 18 {
        's'
    } else if y == 19 {
        't'
    } else if y == 20 {
        'u'
    } else if y == 21 {
        'v'
    } else if y == 22 {
        'w'
    } else if y == 23 {
        'x'
    } else if y == 24 {
        'y'
    } else if y == 25 {
        'z'
    } else {
        '?'
    }
}

/// How one status is drawn: `?` hidden, blank or the digit when open,
/// `X` flagged, `!` exploded.
pub open spec fn status_char(st: TileStatus) -> char {
    match st {
        TileStatus::Unknown => '?',
        TileStatus::Open(n) => if n == 0 {
            ' '
        } else {
            digit_char(n as int)
        },
        TileStatus::Flagged => 'X',
        TileStatus::Exploded => '!',
    }
}

spec fn tens_cells(upto: int) -> Seq<char>
    decreases upto,
{
    if upto <= 0 {
        Seq::empty()
    } else {
        tens_cells(upto - 1) + seq![digit_char(upto / 10), ' ']
    }
}

spec fn units_cells(upto: int) -> Seq<char>
    decreases upto,
{
    if upto <= 0 {
        Seq::empty()
    } else {
        units_cells(upto - 1) + seq![digit_char(upto % 10), ' ']
    }
}

spec fn rule_cells(c: int) -> Seq<char>
    decreases c,
{
    if c <= 1 {
        seq!['-']
    } else {
        rule_cells(c - 1) + seq!['+', '-']
    }
}

/// Relies on String::push: appends the one character to the end.
#[verifier::external_body]
fn push_char(s: &mut String, c: char)
    ensures
        final(s)@ == old(s)@ + seq![c],
{
    s.push(c);
}

fn digit_char_exec(d: u8) -> (c: char)
    requires
        d <= 9,
    ensures
        c == digit_char(d as int),
{
    match d {
        0 => '0',
        1 => '1',
        2 => '2',
        3 => '3',
        4 => '4',
        5 => '5',
        6 => '6',
        7 => '7',
        8 => '8',
        _ => '9',
    }
}

fn row_letter_exec(y: usize) -> (c: char)
    requires
        y <= 25,
    ensures
        c == row_letter(y as int),
{
    match y {
        0 => 'a',
        1 => 'b',
        2 => 'c',
        3 => 'd',
        4 => 'e',
        5 => 'f',
        6 => 'g',
        7 => 'h',
        8 => 'i',
        9 => 'j',
        10 => 'k',
        11 => 'l',
        12 => 'm',
        13 => 'n',
        14 => 'o',
        15 => 'p',
        16 => 'q',
        17 => 'r',
        18 => 's',
        19 => 't',
        20 => 'u',
        21 => 'v',
        22 => 'w',
        23 => 'x',
        24 => 'y',
        _ => 'z',
    }
}

fn status_char_exec(st: TileStatus) -> (c: char)
    requires
        st matches TileStatus::Open(n) ==> n <= 8,
    ensures
        c == status_char(st),
{
    match st {
        TileStatus::Unknown => '?',
        TileStatus::Open(n) => if n == 0 {
            ' '
        } else {
            digit_char_exec(n)
        },
        TileStatus::Flagged => 'X',
        TileStatus::Exploded => '!',
    }
}

impl Field {
    /// The number of rows of the grid.
    pub closed spec fn rows_spec(self) -> int {
        self.rows as int
    }

    /// The number of columns of the grid.
    pub closed spec fn columns_spec(self) -> int {
        self.columns as int
    }

    /// Whether `(y, x)` lies on the grid.
    pub open spec fn in_bounds_spec(self, y: int, x: int) -> bool {
        0 <= y < self.rows_spec() && 0 <= x < self.columns_spec()
    }

    /// Whether the cell at `(y, x)` holds a mine.
    pub closed spec fn mine_at(self, y: int, x: int) -> bool
        recommends
            self.in_bounds_spec(y, x),
    {
        self.tiles@[y * self.columns + x].has_mine
    }

    /// The status of the cell at `(y, x)`.
    pub closed spec fn status_at(self, y: int, x: int) -> TileStatus
        recommends
            self.in_bounds_spec(y, x),
    {
        self.tiles@[y * self.columns + x].status
    }

    /// How many mines the whole grid holds.
    pub closed spec fn mine_total(self) -> nat {
        mine_count_seq(self.tiles@)
    }

    spec fn not_open_total(self) -> nat {
        not_open_count_seq(self.tiles@)
    }

    /// A valid board: positive sizes, one tile for each cell, and every
    /// open tile shows a neighbor count of at most eight.
    pub closed spec fn wf(self) -> bool {
        &&& 1 <= self.rows
        &&& 1 <= self.columns
        &&& self.rows * self.columns <= usize::MAX
        &&& self.tiles@.len() == self.rows * self.columns
        &&& forall|k: int|
            0 <= k < self.tiles@.len() ==> ((#[trigger] self.tiles@[k].status) matches
                TileStatus::Open(n) ==> n <= 8)
    }

    /// One where a neighboring mine counts, zero elsewhere.
    pub open spec fn mine_ind(self, y: int, x: int) -> int {
        if self.in_bounds_spec(y, x) && self.mine_at(y, x) {
            1int
        } else {
            0int
        }
    }

    /// How many of the up to eight neighbors of `(y, x)` hold a mine.
    pub open spec fn neighbor_mines(self, y: int, x: int) -> int {
        self.mine_ind(y - 1, x - 1) + self.mine_ind(y - 1, x) + self.mine_ind(y - 1, x + 1)
            + self.mine_ind(y, x - 1) + self.mine_ind(y, x + 1) + self.mine_ind(y + 1, x - 1)
            + self.mine_ind(y + 1, x) + self.mine_ind(y + 1, x + 1)
    }

    pub fn rows(&self) -> (r: usize)
        ensures
            r as int == self.rows_spec(),
    {
        self.rows
    }

    pub fn columns(&self) -> (r: usize)
        ensures
            r as int == self.columns_spec(),
    {
        self.columns
    }

    pub fn is_within_bounds(&self, y: usize, x: usize) -> (r: bool)
        ensures
            r == self.in_bounds_spec(y as int, x as int),
    {
        y < self.rows && x < self.columns
    }

    fn tile_at(&self, y: usize, x: usize) -> (t: Tile)
        requires
            self.wf(),
            self.in_bounds_spec(y as int, x as int),
        ensures
            t.status == self.status_at(y as int, x as int),
            t.has_mine == self.mine_at(y as int, x as int),
            t.status matches TileStatus::Open(n) ==> n <= 8,
    {
        proof {
            lemma_flat_bound(self.rows as int, self.columns as int, y as int, x as int);
        }
        self.tiles[y * self.columns + x]
    }

    /// The status of a cell, or `None` outside the grid.
    pub fn status_of(&self, y: usize, x: usize) -> (r: Option<TileStatus>)
        requires
            self.wf(),
        ensures
            match r {
                Some(st) => self.in_bounds_spec(y as int, x as int) && st == self.status_at(
                    y as int,
                    x as int,
                ),
                None => !self.in_bounds_spec(y as int, x as int),
            },
    {
        if self.is_within_bounds(y, x) {
            Some(self.tile_at(y, x).status)
        } else {
            None
        }
    }

    /// Whether a cell holds a mine, or `None` outside the grid.
    pub fn is_mined(&self, y: usize, x: usize) -> (r: Option<bool>)
        requires
            self.wf(),
        ensures
            match r {
                Some(m) => self.in_bounds_spec(y as int, x as int) && m == self.mine_at(
                    y as int,
                    x as int,
                ),
                None => !self.in_bounds_spec(y as int, x as int),
            },
    {
        if self.is_within_bounds(y, x) {
            Some(self.tile_at(y, x).has_mine)
        } else {
            None
        }
    }

    fn set_status(&mut self, y: usize, x: usize, st: TileStatus)
        requires
            old(self).wf(),
            old(self).in_bounds_spec(y as int, x as int),
            st matches TileStatus::Open(n) ==> n <= 8,
        ensures
            final(self).wf(),
            final(self).rows_spec() == old(self).rows_spec(),
            final(self).columns_spec() == old(self).columns_spec(),
            same_layout(*old(self), *final(self)),
            final(self).mine_total() == old(self).mine_total(),
            final(self).status_at(y as int, x as int) == st,
            forall|i: int, j: int|
                old(self).in_bounds_spec(i, j) && !(i == y as int && j == x as int)
                    ==> (#[trigger] final(self).status_at(i, j)) == old(self).status_at(i, j),
            final(self).not_open_total() as int == old(self).not_open_total() as int - (if old(
                self,
            ).status_at(y as int, x as int) is Open {
                0int
            } else {
                1int
            }) + (if st is Open {
                0int
            } else {
                1int
            }),
    {
        proof {
            lemma_flat_bound(self.rows as int, self.columns as int, y as int, x as int);
        }
        let idx = y * self.columns + x;
        let t = self.tiles[idx];
        let nt = Tile { has_mine: t.has_mine, status: st };
        self.tiles.set(idx, nt);
        proof {
            lemma_mine_count_update(old(self).tiles@, idx as int, nt);
            lemma_not_open_count_update(old(self).tiles@, idx as int, nt);
            assert forall|i: int, j: int|
                old(self).in_bounds_spec(i, j) && !(i == y as int && j == x as int) implies (
            #[trigger] self.status_at(i, j)) == old(self).status_at(i, j) by {
                lemma_flat_bound(self.rows as int, self.columns as int, i, j);
                if i * self.columns + j == idx as int {
                    lemma_flat_injective(self.columns as int, i, j, y as int, x as int);
                }
            }
            assert forall|i: int, j: int| old(self).in_bounds_spec(i, j) implies (
            #[trigger] old(self).mine_at(i, j)) == self.mine_at(i, j) by {
                lemma_flat_bound(self.rows as int, self.columns as int, i, j);
            }
            assert forall|k: int| 0 <= k < self.tiles@.len() implies ((
            #[trigger] self.tiles@[k].status) matches TileStatus::Open(n) ==> n <= 8) by {
                if k != idx as int {
                    assert(self.tiles@[k] == old(self).tiles@[k]);
                }
            }
        }
    }

    fn set_mine(&mut self, y: usize, x: usize)
        requires
            old(self).wf(),
            old(self).in_bounds_spec(y as int, x as int),
        ensures
            final(self).wf(),
            final(self).rows_spec() == old(self).rows_spec(),
            final(self).columns_spec() == old(self).columns_spec(),
            final(self).mine_at(y as int, x as int),
            forall|i: int, j: int|
                old(self).in_bounds_spec(i, j) && !(i == y as int && j == x as int)
                    ==> (#[trigger] final(self).mine_at(i, j)) == old(self).mine_at(i, j),
            forall|i: int, j: int|
                old(self).in_bounds_spec(i, j) ==> (#[trigger] final(self).status_at(i, j)) == old(
                    self,
                ).status_at(i, j),
            final(self).mine_total() as int == old(self).mine_total() as int + (if old(
                self,
            ).mine_at(y as int, x as int) {
                0int
            } else {
                1int
            }),
    {
        proof {
            lemma_flat_bound(self.rows as int, self.columns as int, y as int, x as int);
        }
        let idx = y * self.columns + x;
        let t = self.tiles[idx];
        let nt = Tile { has_mine: true, status: t.status };
        self.tiles.set(idx, nt);
        proof {
            lemma_mine_count_update(old(self).tiles@, idx as int, nt);
            assert forall|i: int, j: int|
                old(self).in_bounds_spec(i, j) && !(i == y as int && j == x as int) implies (
            #[trigger] self.mine_at(i, j)) == old(self).mine_at(i, j) by {
                lemma_flat_bound(self.rows as int, self.columns as int, i, j);
                if i * self.columns + j == idx as int {
                    lemma_flat_injective(self.columns as int, i, j, y as int, x as int);
                }
            }
            assert forall|i: int, j: int| old(self).in_bounds_spec(i, j) implies (
            #[trigger] self.status_at(i, j)) == old(self).status_at(i, j) by {
                lemma_flat_bound(self.rows as int, self.columns as int, i, j);
            }
            assert forall|k: int| 0 <= k < self.tiles@.len() implies ((
            #[trigger] self.tiles@[k].status) matches TileStatus::Open(n) ==> n <= 8) by {
                if k != idx as int {
                    assert(self.tiles@[k] == old(self).tiles@[k]);
                }
            }
        }
    }

    /// How many neighbors of `(y, x)` hold a mine; at most eight.
    pub fn count_neigbouring_mines(&self, y: usize, x: usize) -> (r: u8)
        requires
            self.wf(),
            self.in_bounds_spec(y as int, x as int),
        ensures
            r as int == self.neighbor_mines(y as int, x as int),
            r <= 8,
    {
        let mut c: u8 = 0;
        if y > 0 && x > 0 && self.tile_at(y - 1, x - 1).has_mine {
            c = c + 1;
        }
        if y > 0 && self.tile_at(y - 1, x).has_mine {
            c = c + 1;
        }
        if y > 0 && x + 1 < self.columns && self.tile_at(y - 1, x + 1).has_mine {
            c = c + 1;
        }
        if x > 0 && self.tile_at(y, x - 1).has_mine {
            c = c + 1;
        }
        if x + 1 < self.columns && self.tile_at(y, x + 1).has_mine {
            c = c + 1;
        }
        if y + 1 < self.rows && x > 0 && self.tile_at(y + 1, x - 1).has_mine {
            c = c + 1;
        }
        if y + 1 < self.rows && self.tile_at(y + 1, x).has_mine {
            c = c + 1;
        }
        if y + 1 < self.rows && x + 1 < self.columns && self.tile_at(y + 1, x + 1).has_mine {
            c = c + 1;
        }
        c
    }

    /// The coordinates of every cell that touches `(y, x)` and lies on the
    /// grid: each listed entry is an in-bounds neighbor, every in-bounds
    /// neighbor is listed, and no entry repeats.
    pub fn get_neigbours_coords(&self, y: usize, x: usize) -> (r: Vec<(usize, usize)>)
        requires
            self.wf(),
            self.in_bounds_spec(y as int, x as int),
        ensures
            forall|k: int|
                0 <= k < r@.len() ==> self.in_bounds_spec(
                    (#[trigger] r@[k]).0 as int,
                    r@[k].1 as int,
                ) && adjacent(y as int, x as int, r@[k].0 as int, r@[k].1 as int),
            forall|p: int, q: int|
                self.in_bounds_spec(p, q) && (#[trigger] adjacent(y as int, x as int, p, q))
                    ==> r@.contains((p as usize, q as usize)),
            forall|k1: int, k2: int| 0 <= k1 < k2 < r@.len() ==> r@[k1] != r@[k2],
    {
        let mut r: Vec<(usize, usize)> = Vec::new();
        if y > 0 && x > 0 {
            r.push((y - 1, x - 1));
        }
        if y > 0 {
            r.push((y - 1, x));
        }
        if y > 0 && x + 1 < self.columns {
            r.push((y - 1, x + 1));
        }
        if x + 1 < self.columns {
            r.push((y, x + 1));
        }
        if y + 1 < self.rows && x + 1 < self.columns {
            r.push((y + 1, x + 1));
        }
        if y + 1 < self.rows {
            r.push((y + 1, x));
        }
        if y + 1 < self.rows && x > 0 {
            r.push((y + 1, x - 1));
        }
        if x > 0 {
            r.push((y, x - 1));
        }
        proof {
            let s = r@;
            let g1 = y > 0 && x > 0;
            let g2 = y > 0;
            let g3 = y > 0 && x + 1 < self.columns;
            let g4 = x + 1 < self.columns;
            let g5 = y + 1 < self.rows && x + 1 < self.columns;
            let g6 = y + 1 < self.rows;
            let g7 = y + 1 < self.rows && x > 0;
            let i2: int = if g1 { 1int } else { 0int };
            let i3: int = i2 + if g2 { 1int } else { 0int };
            let i4: int = i3 + if g3 { 1int } else { 0int };
            let i5: int = i4 + if g4 { 1int } else { 0int };
            let i6: int = i5 + if g5 { 1int } else { 0int };
            let i7: int = i6 + if g6 { 1int } else { 0int };
            let i8: int = i7 + if g7 { 1int } else { 0int };
            assert forall|p: int, q: int|
                self.in_bounds_spec(p, q) && (#[trigger] adjacent(
                    y as int,
                    x as int,
                    p,
                    q,
                )) implies r@.contains((p as usize, q as usize)) by {
                let e = (p as usize, q as usize);
                if p == y - 1 && q == x - 1 {
                    assert(s[0] == e);
                } else if p == y - 1 && q == x {
                    assert(s[i2] == e);
                } else if p == y - 1 && q == x + 1 {
                    assert(s[i3] == e);
                } else if p == y && q == x + 1 {
                    assert(s[i4] == e);
                } else if p == y + 1 && q == x + 1 {
                    assert(s[i5] == e);
                } else if p == y + 1 && q == x {
                    assert(s[i6] == e);
                } else if p == y + 1 && q == x - 1 {
                    assert(s[i7] == e);
                } else {
                    assert(p == y && q == x - 1);
                    assert(s[i8] == e);
                }
                assert(r@.contains(e));
            }
        }
        r
    }

    /// A board of the given sizes with a mine exactly on the listed cells
    /// and every status still `Unknown`.
    pub fn with_mines(rows: usize, columns: usize, mines: &Vec<(usize, usize)>) -> (r: Field)
        requires
            1 <= rows,
            1 <= columns,
            rows * columns <= usize::MAX,
            forall|k: int|
                0 <= k < mines@.len() ==> (#[trigger] mines@[k]).0 < rows && mines@[k].1 < columns,
        ensures
            r.wf(),
            r.rows_spec() == rows,
            r.columns_spec() == columns,
            forall|y: int, x: int|
                r.in_bounds_spec(y, x) ==> (#[trigger] r.status_at(y, x)) == TileStatus::Unknown,
            forall|y: int, x: int|
                r.in_bounds_spec(y, x) ==> ((#[trigger] r.mine_at(y, x)) <==> mines@.contains(
                    ((y as usize, x as usize)),
                )),
    {
        let mut field = Field::all_unknown(rows, columns);
        let mut n: usize = 0;
        while n < mines.len()
            invariant
                field.wf(),
                field.rows_spec() == rows,
                field.columns_spec() == columns,
                n <= mines@.len(),
                forall|k: int|
                    0 <= k < mines@.len() ==> (#[trigger] mines@[k]).0 < rows && mines@[k].1
                        < columns,
                forall|y: int, x: int|
                    field.in_bounds_spec(y, x) ==> (#[trigger] field.status_at(y, x))
                        == TileStatus::Unknown,
                forall|y: int, x: int|
                    field.in_bounds_spec(y, x) ==> ((#[trigger] field.mine_at(y, x))
                        <==> mines@.take(n as int).contains(((y as usize, x as usize)))),
            decreases mines@.len() - n,
        {
            let (my, mx) = (mines[n].0, mines[n].1);
            field.set_mine(my, mx);
            proof {
                assert(mines@.take(n + 1) =~= mines@.take(n as int).push(mines@[n as int]));
                assert forall|y: int, x: int| field.in_bounds_spec(y, x) implies ((
                #[trigger] field.mine_at(y, x)) <==> mines@.take(n + 1).contains(
                    ((y as usize, x as usize)),
                )) by {
                    let e = (y as usize, x as usize);
                    let t = mines@.take(n + 1);
                    if field.mine_at(y, x) {
                        if y == my as int && x == mx as int {
                            assert(t[n as int] == e);
                            assert(t.contains(e));
                        } else {
                            assert(mines@.take(n as int).contains(e));
                            let k = choose|k: int|
                                0 <= k < n && mines@.take(n as int)[k] == e;
                            assert(t[k] == e);
                            assert(t.contains(e));
                        }
                    } else {
                        if t.contains(e) {
                            let k = choose|k: int| 0 <= k < t.len() && t[k] == e;
                            if k < n {
                                assert(mines@.take(n as int)[k] == e);
                                assert(mines@.take(n as int).contains(e));
                            }
                        }
                    }
                }
            }
            n = n + 1;
        }
        proof {
            assert(mines@.take(mines@.len() as int) =~= mines@);
        }
        field
    }

    fn all_unknown(rows: usize, columns: usize) -> (r: Field)
        requires
            1 <= rows,
            1 <= columns,
            rows * columns <= usize::MAX,
        ensures
            r.wf(),
            r.rows_spec() == rows,
            r.columns_spec() == columns,
            r.mine_total() == 0,
            forall|y: int, x: int|
                r.in_bounds_spec(y, x) ==> (#[trigger] r.status_at(y, x)) == TileStatus::Unknown,
            forall|y: int, x: int| r.in_bounds_spec(y, x) ==> !(#[trigger] r.mine_at(y, x)),
    {
        let total = rows * columns;
        let mut tiles: Vec<Tile> = Vec::new();
        let mut i: usize = 0;
        while i < total
            invariant
                i <= total,
                tiles@.len() == i,
                forall|k: int|
                    0 <= k < i ==> (#[trigger] tiles@[k]) == (Tile {
                        has_mine: false,
                        status: TileStatus::Unknown,
                    }),
            decreases total - i,
        {
            tiles.push(Tile::new());
            i = i + 1;
        }
        let field = Field { tiles, rows, columns };
        proof {
            lemma_mine_count_zero(field.tiles@);
            assert forall|y: int, x: int| field.in_bounds_spec(y, x) implies (
            #[trigger] field.status_at(y, x)) == TileStatus::Unknown by {
                lemma_flat_bound(rows as int, columns as int, y, x);
            }
            assert forall|y: int, x: int| field.in_bounds_spec(y, x) implies !(
            #[trigger] field.mine_at(y, x)) by {
                lemma_flat_bound(rows as int, columns as int, y, x);
            }
        }
        field
    }

    /// A fresh board: every status `Unknown`, and a randomly drawn number
    /// of mines, between a sixth and a quarter of the cell count, placed on
    /// distinct randomly drawn cells.
    pub fn new(rows: usize, columns: usize) -> (r: Field)
        requires
            1 <= rows,
            1 <= columns,
            rows * columns <= usize::MAX,
            (rows * columns) / 6 < (rows * columns) / 4,
        ensures
            r.wf(),
            r.rows_spec() == rows,
            r.columns_spec() == columns,
            forall|y: int, x: int|
                r.in_bounds_spec(y, x) ==> (#[trigger] r.status_at(y, x)) == TileStatus::Unknown,
            (rows * columns) / 6 <= r.mine_total() < (rows * columns) / 4,
    {
        let total = rows * columns;
        let lo = total / 6;
        let hi = total / 4;
        let mut rng = fresh_rng();
        let k = range_sample(&mut rng, lo, hi);
        let mut field = Field::all_unknown(rows, columns);
        let mut free: Vec<(usize, usize)> = Vec::new();
        let mut fy: usize = 0;
        while fy < rows
            invariant
                fy <= rows,
                total == rows * columns,
                free@.len() == fy * columns,
                forall|a: int|
                    0 <= a < free@.len() ==> (#[trigger] free@[a]).0 < fy && free@[a].0 < rows
                        && free@[a].1 < columns,
                forall|a: int, b: int| 0 <= a < b < free@.len() ==> free@[a] != free@[b],
            decreases rows - fy,
        {
            let mut fx: usize = 0;
            while fx < columns
                invariant
                    fy < rows,
                    fx <= columns,
                    total == rows * columns,
                    free@.len() == fy * columns + fx,
                    forall|a: int|
                        0 <= a < free@.len() ==> ((#[trigger] free@[a]).0 < fy || (free@[a].0 == fy
                            && free@[a].1 < fx)) && free@[a].0 < rows && free@[a].1 < columns,
                    forall|a: int, b: int| 0 <= a < b < free@.len() ==> free@[a] != free@[b],
                decreases columns - fx,
            {
                free.push((fy, fx));
                fx = fx + 1;
            }
            proof {
                assert((fy + 1) * columns == fy * columns + columns) by (nonlinear_arith);
            }
            fy = fy + 1;
        }
        let mut left = k;
        while left > 0
            invariant
                field.wf(),
                field.rows_spec() == rows,
                field.columns_spec() == columns,
                total == rows * columns,
                lo <= k < hi,
                hi <= total,
                left <= k,
                forall|y: int, x: int|
                    field.in_bounds_spec(y, x) ==> (#[trigger] field.status_at(y, x))
                        == TileStatus::Unknown,
                field.mine_total() == k - left,
                free@.len() == total - k + left,
                forall|a: int|
                    0 <= a < free@.len() ==> (#[trigger] free@[a]).0 < rows && free@[a].1 < columns,
                forall|a: int|
                    0 <= a < free@.len() ==> !field.mine_at(
                        (#[trigger] free@[a]).0 as int,
                        free@[a].1 as int,
                    ),
                forall|a: int, b: int| 0 <= a < b < free@.len() ==> free@[a] != free@[b],
            decreases left,
        {
            let i2 = range_sample(&mut rng, 0, free.len());
            let ghost f0 = free@;
            let cell = free.swap_remove(i2);
            proof {
                assert(cell == f0[i2 as int]);
                assert forall|a: int| 0 <= a < free@.len() implies (#[trigger] free@[a]) == (
                if a == i2 as int {
                    f0[f0.len() - 1]
                } else {
                    f0[a]
                }) by {}
            }
            field.set_mine(cell.0, cell.1);
            left = left - 1;
            proof {
                assert forall|a: int|
                    0 <= a < free@.len() implies !field.mine_at(
                    (#[trigger] free@[a]).0 as int,
                    free@[a].1 as int,
                ) by {
                    if a == i2 as int {
                        assert(free@[a] == f0[f0.len() - 1]);
                        assert(f0.len() - 1 != i2 as int);
                        assert(f0[f0.len() - 1] != f0[i2 as int]);
                    } else {
                        assert(free@[a] == f0[a]);
                        if a < i2 as int {
                            assert(f0[a] != f0[i2 as int]);
                        } else {
                            assert(f0[i2 as int] != f0[a]);
                        }
                    }
                }
                assert forall|a: int, b: int|
                    0 <= a < b < free@.len() implies free@[a] != free@[b] by {
                    let a2: int = if a == i2 as int {
                        f0.len() - 1
                    } else {
                        a
                    };
                    let b2: int = if b == i2 as int {
                        f0.len() - 1
                    } else {
                        b
                    };
                    assert(free@[a] == f0[a2]);
                    assert(free@[b] == f0[b2]);
                    assert(a2 != b2);
                }
            }
        }
        field
    }

    /// Open the cell at `(y, x)` and flood outward through cells with no
    /// neighboring mines, using an explicit work list.
    #[verifier::rlimit(100)]
    fn chain_reveal(&mut self, y: usize, x: usize)
        requires
            old(self).wf(),
            old(self).in_bounds_spec(y as int, x as int),
            !(old(self).status_at(y as int, x as int) is Open),
        ensures
            final(self).wf(),
            reveal_post(*old(self), *final(self), y as int, x as int),
    {
        let mut work: Vec<(usize, usize)> = Vec::new();
        work.push((y, x));
        proof {
            assert(work@[0] == (y, x));
            assert(work@.contains((y, x)));
        }
        while work.len() > 0
            invariant
                old(self).wf(),
                old(self).in_bounds_spec(y as int, x as int),
                !(old(self).status_at(y as int, x as int) is Open),
                self.wf(),
                self.rows_spec() == old(self).rows_spec(),
                self.columns_spec() == old(self).columns_spec(),
                same_layout(*old(self), *self),
                forall|i: int, j: int|
                    old(self).in_bounds_spec(i, j) && (#[trigger] old(self).status_at(i, j))
                        is Open ==> self.status_at(i, j) == old(self).status_at(i, j),
                forall|i: int, j: int|
                    old(self).in_bounds_spec(i, j) && (#[trigger] self.status_at(i, j)) != old(
                        self,
                    ).status_at(i, j) ==> !(old(self).status_at(i, j) is Open) && self.status_at(
                        i,
                        j,
                    ) == TileStatus::Open(old(self).neighbor_mines(i, j) as u8),
                self.status_at(y as int, x as int) != old(self).status_at(y as int, x as int)
                    || work@.contains((y, x)),
                forall|k: int|
                    0 <= k < work@.len() ==> old(self).in_bounds_spec(
                        (#[trigger] work@[k]).0 as int,
                        work@[k].1 as int,
                    ),
                forall|k: int|
                    0 <= k < work@.len() ==> ((#[trigger] work@[k]) == (y, x) || justified(
                        *old(self),
                        *self,
                        work@[k].0 as int,
                        work@[k].1 as int,
                    )),
                forall|i: int, j: int|
                    old(self).in_bounds_spec(i, j) && (#[trigger] self.status_at(i, j)) != old(
                        self,
                    ).status_at(i, j) && !(i == y as int && j == x as int) ==> justified(
                        *old(self),
                        *self,
                        i,
                        j,
                    ),
                forall|p: int, q: int, i: int, j: int|
                    #![trigger self.status_at(p, q), adjacent(p, q, i, j)]
                    old(self).in_bounds_spec(p, q) && old(self).in_bounds_spec(i, j)
                        && self.status_at(p, q) != old(self).status_at(p, q) && old(
                        self,
                    ).neighbor_mines(p, q) == 0 && adjacent(p, q, i, j) ==> self.status_at(i, j)
                        is Open || work@.contains(((i as usize, j as usize))),
            decreases self.not_open_total(), work@.len(),
        {
            let ghost s0 = *self;
            let ghost w0 = work@;
            let popped = work.pop().unwrap();
            let cy = popped.0;
            let cx = popped.1;
            proof {
                assert(w0[w0.len() - 1] == popped);
            }
            let t = self.tile_at(cy, cx);
            if !t.is_open() {
                let n = self.count_neigbouring_mines(cy, cx);
                proof {
                    lemma_same_layout_counts(*old(self), s0);
                }
                self.set_status(cy, cx, TileStatus::Open(n));
                proof {
                    assert forall|p: int, q: int|
                        old(self).in_bounds_spec(p, q) && (#[trigger] s0.status_at(p, q)) != old(
                            self,
                        ).status_at(p, q) implies self.status_at(p, q) != old(self).status_at(
                        p,
                        q,
                    ) by {
                        if p == cy as int && q == cx as int {
                            assert(self.status_at(p, q) == TileStatus::Open(n));
                        }
                    }
                    assert(self.status_at(cy as int, cx as int) != old(self).status_at(
                        cy as int,
                        cx as int,
                    ));
                }
                proof {
                    assert forall|i: int, j: int|
                        old(self).in_bounds_spec(i, j) && (#[trigger] self.status_at(i, j)) != old(
                            self,
                        ).status_at(i, j) && !(i == y as int && j == x as int) implies justified(
                        *old(self),
                        *self,
                        i,
                        j,
                    ) by {
                        if s0.status_at(i, j) != old(self).status_at(i, j) {
                            lemma_justified_monotone(*old(self), s0, *self, i, j);
                        } else {
                            assert(i == cy as int && j == cx as int);
                            if !(popped == (y, x)) {
                                lemma_justified_monotone(
                                    *old(self),
                                    s0,
                                    *self,
                                    cy as int,
                                    cx as int,
                                );
                            } else {
                                assert(false);
                            }
                        }
                    }
                    if s0.status_at(y as int, x as int) != old(self).status_at(y as int, x as int) {
                        assert(self.status_at(y as int, x as int) != old(self).status_at(
                            y as int,
                            x as int,
                        ));
                    }
                }
                if n == 0 {
                    let mut neigh = self.get_neigbours_coords(cy, cx);
                    let ghost neigh0 = neigh@;
                    work.append(&mut neigh);
                    proof {
                        assert forall|k: int|
                            0 <= k < work@.len() implies old(self).in_bounds_spec(
                            (#[trigger] work@[k]).0 as int,
                            work@[k].1 as int,
                        ) by {
                            if k < w0.len() - 1 {
                                assert(work@[k] == w0[k]);
                            } else {
                                assert(work@[k] == neigh0[k - (w0.len() - 1)]);
                            }
                        }
                        assert forall|k: int|
                            0 <= k < work@.len() implies ((#[trigger] work@[k]) == (y, x)
                            || justified(
                            *old(self),
                            *self,
                            work@[k].0 as int,
                            work@[k].1 as int,
                        )) by {
                            if k < w0.len() - 1 {
                                assert(work@[k] == w0[k]);
                                if !(w0[k] == (y, x)) {
                                    lemma_justified_monotone(
                                        *old(self),
                                        s0,
                                        *self,
                                        w0[k].0 as int,
                                        w0[k].1 as int,
                                    );
                                }
                            } else {
                                assert(work@[k] == neigh0[k - (w0.len() - 1)]);
                                assert(adjacent(
                                    work@[k].0 as int,
                                    work@[k].1 as int,
                                    cy as int,
                                    cx as int,
                                ));
                                lemma_justified_intro(
                                    *old(self),
                                    *self,
                                    work@[k].0 as int,
                                    work@[k].1 as int,
                                    cy as int,
                                    cx as int,
                                );
                            }
                        }
                        if s0.status_at(y as int, x as int) == old(self).status_at(
                            y as int,
                            x as int,
                        ) {
                            let k = choose|k: int| 0 <= k < w0.len() && w0[k] == (y, x);
                            if k < w0.len() - 1 {
                                assert(work@[k] == (y, x));
                                assert(work@.contains((y, x)));
                            } else {
                                assert(popped == (y, x));
                            }
                        }
                        assert forall|p: int, q: int, i: int, j: int|
                            #![trigger self.status_at(p, q), adjacent(p, q, i, j)]
                            old(self).in_bounds_spec(p, q) && old(self).in_bounds_spec(i, j)
                                && self.status_at(p, q) != old(self).status_at(p, q) && old(
                                self,
                            ).neighbor_mines(p, q) == 0 && adjacent(p, q, i, j) implies (
                        self.status_at(i, j) is Open || work@.contains(
                            ((i as usize, j as usize)),
                        )) by {
                            if p == cy as int && q == cx as int && s0.status_at(p, q) == old(
                                self,
                            ).status_at(p, q) {
                                assert(adjacent(cy as int, cx as int, i, j));
                                assert(self.in_bounds_spec(i, j));
                                assert(neigh0.contains(((i as usize, j as usize))));
                                let m = choose|m: int|
                                    0 <= m < neigh0.len() && neigh0[m] == ((i as usize, j as usize));
                                assert(work@[w0.len() - 1 + m] == ((i as usize, j as usize)));
                                assert(work@.contains(((i as usize, j as usize))));
                            } else {
                                assert(s0.status_at(p, q) != old(self).status_at(p, q));
                                if s0.status_at(i, j) is Open {
                                    assert(self.status_at(i, j) is Open);
                                } else {
                                    let k = choose|k: int|
                                        0 <= k < w0.len() && w0[k] == ((i as usize, j as usize));
                                    if k < w0.len() - 1 {
                                        assert(work@[k] == w0[k]);
                                        assert(work@.contains(((i as usize, j as usize))));
                                    } else {
                                        assert(popped == ((i as usize, j as usize)));
                                        assert(self.status_at(i, j) is Open);
                                    }
                                }
                            }
                        }
                    }
                } else {
                    proof {
                        assert forall|k: int|
                            0 <= k < work@.len() implies old(self).in_bounds_spec(
                            (#[trigger] work@[k]).0 as int,
                            work@[k].1 as int,
                        ) by {
                            assert(work@[k] == w0[k]);
                        }
                        assert forall|k: int|
                            0 <= k < work@.len() implies ((#[trigger] work@[k]) == (y, x)
                            || justified(
                            *old(self),
                            *self,
                            work@[k].0 as int,
                            work@[k].1 as int,
                        )) by {
                            assert(work@[k] == w0[k]);
                            if !(w0[k] == (y, x)) {
                                lemma_justified_monotone(
                                    *old(self),
                                    s0,
                                    *self,
                                    w0[k].0 as int,
                                    w0[k].1 as int,
                                );
                            }
                        }
                        if s0.status_at(y as int, x as int) == old(self).status_at(
                            y as int,
                            x as int,
                        ) {
                            let k = choose|k: int| 0 <= k < w0.len() && w0[k] == (y, x);
                            if k < w0.len() - 1 {
                                assert(work@[k] == (y, x));
                                assert(work@.contains((y, x)));
                            } else {
                                assert(popped == (y, x));
                            }
                        }
                        assert forall|p: int, q: int, i: int, j: int|
                            #![trigger self.status_at(p, q), adjacent(p, q, i, j)]
                            old(self).in_bounds_spec(p, q) && old(self).in_bounds_spec(i, j)
                                && self.status_at(p, q) != old(self).status_at(p, q) && old(
                                self,
                            ).neighbor_mines(p, q) == 0 && adjacent(p, q, i, j) implies (
                        self.status_at(i, j) is Open || work@.contains(
                            ((i as usize, j as usize)),
                        )) by {
                            if p == cy as int && q == cx as int && s0.status_at(p, q) == old(
                                self,
                            ).status_at(p, q) {
                                assert(old(self).neighbor_mines(p, q) == n as int);
                                assert(false);
                            } else {
                                assert(s0.status_at(p, q) != old(self).status_at(p, q));
                                if s0.status_at(i, j) is Open {
                                    assert(self.status_at(i, j) is Open);
                                } else {
                                    let k = choose|k: int|
                                        0 <= k < w0.len() && w0[k] == ((i as usize, j as usize));
                                    if k < w0.len() - 1 {
                                        assert(work@[k] == w0[k]);
                                        assert(work@.contains(((i as usize, j as usize))));
                                    } else {
                                        assert(popped == ((i as usize, j as usize)));
                                        assert(self.status_at(i, j) is Open);
                                    }
                                }
                            }
                        }
                    }
                }
            } else {
                proof {
                    assert forall|k: int|
                        0 <= k < work@.len() implies old(self).in_bounds_spec(
                        (#[trigger] work@[k]).0 as int,
                        work@[k].1 as int,
                    ) && ((#[trigger] work@[k]) == (y, x) || justified(
                        *old(self),
                        *self,
                        work@[k].0 as int,
                        work@[k].1 as int,
                    )) by {
                        assert(work@[k] == w0[k]);
                    }
                    if s0.status_at(y as int, x as int) == old(self).status_at(y as int, x as int) {
                        let k = choose|k: int| 0 <= k < w0.len() && w0[k] == (y, x);
                        if k < w0.len() - 1 {
                            assert(work@[k] == (y, x));
                            assert(work@.contains((y, x)));
                        } else {
                            assert(popped == (y, x));
                            assert(s0.status_at(y as int, x as int) is Open);
                            assert(false);
                        }
                    }
                    assert forall|p: int, q: int, i: int, j: int|
                        #![trigger self.status_at(p, q), adjacent(p, q, i, j)]
                        old(self).in_bounds_spec(p, q) && old(self).in_bounds_spec(i, j)
                            && self.status_at(p, q) != old(self).status_at(p, q) && old(
                            self,
                        ).neighbor_mines(p, q) == 0 && adjacent(p, q, i, j) implies (
                    self.status_at(i, j) is Open || work@.contains(
                        ((i as usize, j as usize)),
                    )) by {
                        assert(s0.status_at(p, q) != old(self).status_at(p, q));
                        if s0.status_at(i, j) is Open {
                            assert(self.status_at(i, j) is Open);
                        } else {
                            let k = choose|k: int|
                                0 <= k < w0.len() && w0[k] == ((i as usize, j as usize));
                            if k < w0.len() - 1 {
                                assert(work@[k] == w0[k]);
                                assert(work@.contains(((i as usize, j as usize))));
                            } else {
                                assert(popped == ((i as usize, j as usize)));
                                assert(self.status_at(i, j) is Open);
                            }
                        }
                    }
                }
            }
        }
    }

    /// Probe a cell: reject out-of-bounds coordinates, leave open, flagged
    /// and exploded cells alone, explode a hidden mine, and otherwise open
    /// the cell with a chain reveal.
    pub fn dig_tile(&mut self, y: usize, x: usize) -> (r: CommandResult)
        requires
            old(self).wf(),
        ensures
            final(self).wf(),
            final(self).rows_spec() == old(self).rows_spec(),
            final(self).columns_spec() == old(self).columns_spec(),
            same_layout(*old(self), *final(self)),
            !old(self).in_bounds_spec(y as int, x as int) ==> r == CommandResult::OutOfBounds
                && *final(self) == *old(self),
            old(self).in_bounds_spec(y as int, x as int) ==> match old(self).status_at(
                y as int,
                x as int,
            ) {
                TileStatus::Open(_) => r == CommandResult::AlreadyOpen && *final(self) == *old(
                    self,
                ),
                TileStatus::Flagged => r == CommandResult::AlreadyFlagged && *final(self) == *old(
                    self,
                ),
                TileStatus::Exploded => r == CommandResult::Boom && *final(self) == *old(self),
                TileStatus::Unknown => (if old(self).mine_at(y as int, x as int) {
                    r == CommandResult::Boom && final(self).status_at(y as int, x as int)
                        == TileStatus::Exploded && (forall|i: int, j: int|
                        old(self).in_bounds_spec(i, j) && !(i == y as int && j == x as int) ==> (
                        #[trigger] final(self).status_at(i, j)) == old(self).status_at(i, j))
                } else {
                    r == CommandResult::Revealed && reveal_post(
                        *old(self),
                        *final(self),
                        y as int,
                        x as int,
                    )
                }),
            },
    {
        if !self.is_within_bounds(y, x) {
            CommandResult::OutOfBounds
        } else {
            let t = self.tile_at(y, x);
            match t.status {
                TileStatus::Open(_) => CommandResult::AlreadyOpen,
                TileStatus::Flagged => CommandResult::AlreadyFlagged,
                TileStatus::Exploded => CommandResult::Boom,
                TileStatus::Unknown => {
                    if t.has_mine {
                        self.set_status(y, x, TileStatus::Exploded);
                        CommandResult::Boom
                    } else {
                        self.chain_reveal(y, x);
                        CommandResult::Revealed
                    }
                },
            }
        }
    }

    /// Disclose the whole board at game end: every mined cell becomes
    /// `Flagged`, every other cell becomes `Open` with its true count.
    pub fn reveal_all(&mut self)
        requires
            old(self).wf(),
        ensures
            final(self).wf(),
            final(self).rows_spec() == old(self).rows_spec(),
            final(self).columns_spec() == old(self).columns_spec(),
            same_layout(*old(self), *final(self)),
            forall|i: int, j: int|
                old(self).in_bounds_spec(i, j) ==> (#[trigger] final(self).status_at(i, j)) == (
                if old(self).mine_at(i, j) {
                    TileStatus::Flagged
                } else {
                    TileStatus::Open(old(self).neighbor_mines(i, j) as u8)
                }),
    {
        let rows = self.rows;
        let columns = self.columns;
        let mut y: usize = 0;
        while y < rows
            invariant
                old(self).wf(),
                self.wf(),
                rows == self.rows,
                columns == self.columns,
                self.rows_spec() == old(self).rows_spec(),
                self.columns_spec() == old(self).columns_spec(),
                same_layout(*old(self), *self),
                y <= rows,
                forall|i: int, j: int|
                    old(self).in_bounds_spec(i, j) && i < y ==> (#[trigger] self.status_at(i, j))
                        == (if old(self).mine_at(i, j) {
                        TileStatus::Flagged
                    } else {
                        TileStatus::Open(old(self).neighbor_mines(i, j) as u8)
                    }),
            decreases rows - y,
        {
            let mut x: usize = 0;
            while x < columns
                invariant
                    old(self).wf(),
                    self.wf(),
                    rows == self.rows,
                    columns == self.columns,
                    self.rows_spec() == old(self).rows_spec(),
                    self.columns_spec() == old(self).columns_spec(),
                    same_layout(*old(self), *self),
                    y < rows,
                    x <= columns,
                    forall|i: int, j: int|
                        old(self).in_bounds_spec(i, j) && (i < y || (i == y && j < x)) ==> (
                        #[trigger] self.status_at(i, j)) == (if old(self).mine_at(i, j) {
                            TileStatus::Flagged
                        } else {
                            TileStatus::Open(old(self).neighbor_mines(i, j) as u8)
                        }),
                decreases columns - x,
            {
                let t = self.tile_at(y, x);
                proof {
                    lemma_same_layout_counts(*old(self), *self);
                }
                if t.has_mine {
                    self.set_status(y, x, TileStatus::Flagged);
                } else {
                    let n = self.count_neigbouring_mines(y, x);
                    self.set_status(y, x, TileStatus::Open(n));
                }
                x = x + 1;
            }
            y = y + 1;
        }
    }

    /// Mark a hidden cell so that probing it is blocked; any other cell,
    /// and any coordinates off the grid, are left alone.
    pub fn flag_tile(&mut self, y: usize, x: usize)
        requires
            old(self).wf(),
        ensures
            final(self).wf(),
            final(self).rows_spec() == old(self).rows_spec(),
            final(self).columns_spec() == old(self).columns_spec(),
            same_layout(*old(self), *final(self)),
            (old(self).in_bounds_spec(y as int, x as int) && old(self).status_at(y as int, x as int)
                == TileStatus::Unknown) ==> final(self).status_at(y as int, x as int)
                == TileStatus::Flagged && (forall|i: int, j: int|
                old(self).in_bounds_spec(i, j) && !(i == y as int && j == x as int) ==> (
                #[trigger] final(self).status_at(i, j)) == old(self).status_at(i, j)),
            !(old(self).in_bounds_spec(y as int, x as int) && old(self).status_at(
                y as int,
                x as int,
            ) == TileStatus::Unknown) ==> *final(self) == *old(self),
    {
        if self.is_within_bounds(y, x) {
            let t = self.tile_at(y, x);
            if matches!(t.status, TileStatus::Unknown) {
                self.set_status(y, x, TileStatus::Flagged);
            }
        }
    }

    /// Clear a flag so that the cell can be probed again; any other cell,
    /// and any coordinates off the grid, are left alone.
    pub fn unflag_tile(&mut self, y: usize, x: usize)
        requires
            old(self).wf(),
        ensures
            final(self).wf(),
            final(self).rows_spec() == old(self).rows_spec(),
            final(self).columns_spec() == old(self).columns_spec(),
            same_layout(*old(self), *final(self)),
            (old(self).in_bounds_spec(y as int, x as int) && old(self).status_at(y as int, x as int)
                == TileStatus::Flagged) ==> final(self).status_at(y as int, x as int)
                == TileStatus::Unknown && (forall|i: int, j: int|
                old(self).in_bounds_spec(i, j) && !(i == y as int && j == x as int) ==> (
                #[trigger] final(self).status_at(i, j)) == old(self).status_at(i, j)),
            !(old(self).in_bounds_spec(y as int, x as int) && old(self).status_at(
                y as int,
                x as int,
            ) == TileStatus::Flagged) ==> *final(self) == *old(self),
    {
        if self.is_within_bounds(y, x) {
            let t = self.tile_at(y, x);
            if matches!(t.status, TileStatus::Flagged) {
                self.set_status(y, x, TileStatus::Unknown);
            }
        }
    }

    spec fn row_cells(self, y: int, upto: int) -> Seq<char>
        decreases upto,
    {
        if upto <= 0 {
            Seq::empty()
        } else {
            self.row_cells(y, upto - 1) + seq![status_char(self.status_at(y, upto - 1)), '|']
        }
    }

    spec fn row_line(self, y: int) -> Seq<char> {
        seq![row_letter(y), ' '] + self.row_cells(y, self.columns_spec() - 1) + seq![
            status_char(self.status_at(y, self.columns_spec() - 1)),
        ]
    }

    spec fn row_blocks(self, upto: int) -> Seq<char>
        decreases upto,
    {
        if upto <= 0 {
            Seq::empty()
        } else {
            self.row_blocks(upto - 1) + self.row_line(upto - 1) + (if upto - 1
                != self.rows_spec() - 1 {
                seq!['\n', ' ', ' '] + rule_cells(self.columns_spec()) + seq!['\n']
            } else {
                Seq::empty()
            })
        }
    }

    spec fn header_spec(self) -> Seq<char> {
        (if self.columns_spec() > 9 {
            seq![' ', ' '] + tens_cells(self.columns_spec()) + seq!['\n']
        } else {
            Seq::empty()
        }) + seq![' ', ' '] + units_cells(self.columns_spec()) + seq!['\n']
    }

    /// The whole grid as text: an optional tens header row, a units header
    /// row, then each row labelled by its letter, cells separated by `|`,
    /// with a `-+-` rule between rows.
    pub closed spec fn render_spec(self) -> Seq<char> {
        self.header_spec() + self.row_blocks(self.rows_spec())
    }

    #[verifier::loop_isolation(false)]
    fn push_header(&self, s: &mut String)
        requires
            self.wf(),
            self.columns_spec() <= 99,
        ensures
            final(s)@ == old(s)@ + self.header_spec(),
    {
        let ghost base = s@;
        if self.columns > 9 {
            push_char(s, ' ');
            push_char(s, ' ');
            let mut i: usize = 1;
            while i <= self.columns
                invariant
                    1 <= i <= self.columns + 1,
                    s@ == base + seq![' ', ' '] + tens_cells(i - 1),
                decreases self.columns + 1 - i,
            {
                let d: u8 = (i / 10) as u8;
                push_char(s, digit_char_exec(d));
                push_char(s, ' ');
                proof {
                    assert(s@ =~= base + seq![' ', ' '] + tens_cells(i as int));
                }
                i = i + 1;
            }
            push_char(s, '\n');
        }
        push_char(s, ' ');
        push_char(s, ' ');
        let ghost h0 = base + (if self.columns_spec() > 9 {
            seq![' ', ' '] + tens_cells(self.columns_spec()) + seq!['\n']
        } else {
            Seq::<char>::empty()
        });
        proof {
            assert(s@ =~= h0 + seq![' ', ' ']);
        }
        let mut i: usize = 1;
        while i <= self.columns
            invariant
                1 <= i <= self.columns + 1,
                s@ == h0 + seq![' ', ' '] + units_cells(i - 1),
            decreases self.columns + 1 - i,
        {
            let d: u8 = (i % 10) as u8;
            push_char(s, digit_char_exec(d));
            push_char(s, ' ');
            proof {
                assert(s@ =~= h0 + seq![' ', ' '] + units_cells(i as int));
            }
            i = i + 1;
        }
        push_char(s, '\n');
        proof {
            assert(s@ =~= base + self.header_spec());
        }
    }

    #[verifier::loop_isolation(false)]
    fn push_row(&self, s: &mut String, y: usize)
        requires
            self.wf(),
            (y as int) < self.rows_spec(),
            self.rows_spec() <= 26,
        ensures
            final(s)@ == old(s)@ + self.row_line(y as int),
    {
        let ghost base = s@;
        push_char(s, row_letter_exec(y));
        push_char(s, ' ');
        let ghost rstart = base + seq![row_letter(y as int), ' '];
        proof {
            assert(s@ =~= rstart);
        }
        let mut x: usize = 0;
        while x < self.columns - 1
            invariant
                x <= self.columns - 1,
                s@ == rstart + self.row_cells(y as int, x as int),
            decreases self.columns - 1 - x,
        {
            let t = self.tile_at(y, x);
            push_char(s, status_char_exec(t.status));
            push_char(s, '|');
            proof {
                assert(s@ =~= rstart + self.row_cells(y as int, x + 1));
            }
            x = x + 1;
        }
        let t = self.tile_at(y, self.columns - 1);
        push_char(s, status_char_exec(t.status));
        proof {
            assert(s@ =~= base + self.row_line(y as int));
        }
    }

    #[verifier::loop_isolation(false)]
    fn push_rule(&self, s: &mut String)
        requires
            self.wf(),
        ensures
            final(s)@ == old(s)@ + seq!['\n', ' ', ' '] + rule_cells(self.columns_spec()) + seq![
                '\n',
            ],
    {
        let ghost base = s@;
        push_char(s, '\n');
        push_char(s, ' ');
        push_char(s, ' ');
        push_char(s, '-');
        let ghost lstart = base + seq!['\n', ' ', ' '];
        proof {
            assert(s@ =~= lstart + rule_cells(1));
        }
        let mut c: usize = 1;
        while c < self.columns
            invariant
                1 <= c <= self.columns,
                s@ == lstart + rule_cells(c as int),
            decreases self.columns - c,
        {
            push_char(s, '+');
            push_char(s, '-');
            proof {
                assert(s@ =~= lstart + rule_cells(c + 1));
            }
            c = c + 1;
        }
        push_char(s, '\n');
        proof {
            assert(s@ =~= base + seq!['\n', ' ', ' '] + rule_cells(self.columns_spec()) + seq![
                '\n',
            ]);
        }
    }

    /// Draw the board. Row labels are letters, so at most 26 rows; column
    /// headers are at most two digits, so at most 99 columns.
    #[verifier::loop_isolation(false)]
    pub fn render(&self) -> (r: String)
        requires
            self.wf(),
            self.rows_spec() <= 26,
            self.columns_spec() <= 99,
        ensures
            r@ == self.render_spec(),
    {
        let mut s = String::new();
        self.push_header(&mut s);
        let ghost head = self.header_spec();
        proof {
            assert(s@ =~= head);
        }
        let mut y: usize = 0;
        while y < self.rows
            invariant
                y <= self.rows,
                s@ == head + self.row_blocks(y as int),
            decreases self.rows - y,
        {
            self.push_row(&mut s, y);
            if y != self.rows - 1 {
                self.push_rule(&mut s);
            }
            proof {
                assert(s@ =~= head + self.row_blocks(y + 1));
            }
            y = y + 1;
        }
        s
    }
}

} // verus!
