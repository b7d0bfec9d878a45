//! The N-Queens reduction: a mandatory item per row and per column, an
//! optional item per diagonal in each direction, and an option per cell.
use crate::incidence::Incidence;
use crate::search::min_int;
use crate::text::push_char;
use vstd::prelude::*;

verus! {

/// Place `n` queens on an `n` by `n` board.
pub struct NQueensProblem {
    pub n: u16,
}

impl NQueensProblem {
    pub fn new(n: u16) -> (r: NQueensProblem)
        ensures
            r.n == n,
    {
        NQueensProblem { n }
    }
}

/// A board: `1` marks a queen, `0` an empty cell.
#[derive(Debug, PartialEq)]
pub struct Board(pub Vec<Vec<u8>>);

/// A solution of the problem.
pub struct NQueensSolution {
    pub board: Board,
}

/// Number of diagonals in one direction.
pub open spec fn n_diags(n: nat) -> nat {
    if n == 0 {
        0
    } else {
        (2 * n - 1) as nat
    }
}

/// Number of items: rows, columns, then both kinds of diagonals.
pub open spec fn n_lines(n: nat) -> nat {
    2 * n + 2 * n_diags(n)
}

/// The cell in row `r` and column `c` lies on line `i`: row `i`, column
/// `i - n`, diagonal `c - r + n - 1 == i - 2n`, or anti-diagonal
/// `c + r == i - 2n - d` with `d` diagonals per direction.
pub open spec fn on_line(n: nat, r: nat, c: nat, i: nat) -> bool {
    if i < n {
        r == i
    } else if i < 2 * n {
        c == i - n
    } else if i < 2 * n + n_diags(n) {
        c + n - 1 - r == i - 2 * n
    } else {
        c + r == i - 2 * n - n_diags(n)
    }
}

/// `inc` is the N-Queens instance of size `n`: option `h` is the cell in row
/// `h / n` and column `h % n`; rows and columns are mandatory.
pub open spec fn is_queens_instance(n: nat, inc: Incidence) -> bool {
    &&& inc.wf()
    &&& inc.n_opts() == n * n
    &&& inc.n_items() == n_lines(n)
    &&& inc.required@.len() == 0
    &&& forall|i: usize| i < inc.n_items() ==> (#[trigger] inc.is_mandatory(i) <==> i < 2 * n)
    &&& forall|h: usize, i: usize|
        h < inc.n_opts() && i < inc.n_items() ==> (#[trigger] inc.covers_item(h, i) <==> on_line(
            n,
            ((h as int) / (n as int)) as nat,
            ((h as int) % (n as int)) as nat,
            i as nat,
        ))
}

fn on_line_exec(n: usize, r: usize, c: usize, i: usize) -> (b: bool)
    requires
        r < n,
        c < n,
        n <= 65535,
    ensures
        b == on_line(n as nat, r as nat, c as nat, i as nat),
{
    let nd: usize = if n == 0 {
        0
    } else {
        2 * n - 1
    };
    if i < n {
        r == i
    } else if i < 2 * n {
        c == i - n
    } else if i < 2 * n + nd {
        col_row_to_diag1(c, r, n) == i - 2 * n
    } else {
        col_row_to_diag2(c, r) == i - 2 * n - nd
    }
}

/// The diagonal of a cell, numbered from the top-right corner.
fn col_row_to_diag1(col: usize, row: usize, n: usize) -> (d: usize)
    requires
        row < n,
        col < n,
        n <= 65535,
    ensures
        d == col + n - 1 - row,
{
    col + n - 1 - row
}

/// The anti-diagonal of a cell, numbered from the top-left corner.
fn col_row_to_diag2(col: usize, row: usize) -> (d: usize)
    requires
        row < 65536,
        col < 65536,
    ensures
        d == col + row,
{
    col + row
}

/// Builds the exact cover instance of `p`.
fn convert_to_exact_cover_problem(p: &NQueensProblem) -> (r: Incidence)
    requires
        (p.n as int) * (p.n as int) <= usize::MAX,
    ensures
        is_queens_instance(p.n as nat, r),
{
    let n = p.n as usize;
    let cells = n * n;
    let n_items: usize = if n == 0 {
        0
    } else {
        2 * n + 2 * (2 * n - 1)
    };
    assert(n_items == n_lines(n as nat));
    let mut covered_by: Vec<Vec<usize>> = Vec::new();
    let mut mandatory: Vec<bool> = Vec::new();
    let mut i: usize = 0;
    while i < n_items
        invariant
            n <= 65535,
            cells == n * n,
            n_items == n_lines(n as nat),
            i <= n_items,
            covered_by@.len() == i,
            mandatory@.len() == i,
            forall|i2: int| 0 <= i2 < i ==> (#[trigger] mandatory@[i2] <==> i2 < 2 * n),
            forall|i2: int| 0 <= i2 < i ==> (#[trigger] covered_by@[i2])@.no_duplicates(),
            forall|i2: int, k: int|
                0 <= i2 < i && 0 <= k < covered_by@[i2]@.len() ==> #[trigger] covered_by@[i2]@[k] < cells,
            forall|i2: int, h: usize|
                0 <= i2 < i && h < cells ==> (#[trigger] covered_by@[i2]@.contains(h) <==> on_line(
                    n as nat,
                    (h / n) as nat,
                    (h % n) as nat,
                    i2 as nat,
                )),
        decreases n_items - i,
    {
        let mut list: Vec<usize> = Vec::new();
        let mut h: usize = 0;
        while h < cells
            invariant
                n <= 65535,
                cells == n * n,
                h <= cells,
                forall|k: int| 0 <= k < list@.len() ==> #[trigger] list@[k] < h,
                list@.no_duplicates(),
                forall|h2: usize|
                    #[trigger] list@.contains(h2) <==> (h2 < h && on_line(
                        n as nat,
                        (h2 / n) as nat,
                        (h2 % n) as nat,
                        i as nat,
                    )),
            decreases cells - h,
        {
            proof {
                assert(n > 0) by (nonlinear_arith)
                    requires
                        h < cells,
                        cells == n * n,
                ;
                assert(h / n < n) by (nonlinear_arith)
                    requires
                        h < n * n,
                        n > 0,
                ;
            }
            let ghost before = list@;
            if on_line_exec(n, h / n, h % n, i) {
                list.push(h);
                proof {
                    assert forall|h2: usize| #[trigger] list@.contains(h2) <==> (before.contains(h2) || h2 == h) by {
                        if list@.contains(h2) && h2 != h {
                            let k = choose|k: int| 0 <= k < list@.len() && list@[k] == h2;
                            assert(before[k] == h2);
                        }
                        if h2 == h {
                            assert(list@[before.len() as int] == h);
                        }
                        if before.contains(h2) {
                            let k = choose|k: int| 0 <= k < before.len() && before[k] == h2;
                            assert(list@[k] == h2);
                        }
                    }
                    assert forall|a: int, b: int| 0 <= a < b < list@.len() implies list@[a] != list@[b] by {
                        if b == before.len() {
                            assert(before[a] < h);
                        } else {
                            assert(before[a] == list@[a] && before[b] == list@[b]);
                        }
                    }
                }
            }
            h = h + 1;
        }
        covered_by.push(list);
        mandatory.push(i < 2 * n);
        i = i + 1;
    }
    let inc = Incidence::from_covered_by(covered_by, mandatory, Vec::new(), cells);
    proof {
        assert forall|h: usize, i2: usize|
            h < inc.n_opts() && i2 < inc.n_items() implies (#[trigger] inc.covers_item(h, i2) <==> on_line(
            n as nat,
            ((h as int) / (n as int)) as nat,
            ((h as int) % (n as int)) as nat,
            i2 as nat,
        )) by {
            assert(inc.covers_item(h, i2) <==> inc.options_of(i2).contains(h));
            assert(inc.options_of(i2) == inc.covered_by@[i2 as int]@);
        }
        assert forall|i2: usize| i2 < inc.n_items() implies (#[trigger] inc.is_mandatory(i2) <==> i2 < 2 * n) by {
            assert(inc.mandatory@[i2 as int] <==> i2 < 2 * n);
        }
    }
    inc
}

/// Cell `h` is the one in row `r` and column `c` of an `n` by `n` board.
pub open spec fn is_cell(n: nat, h: usize, r: int, c: int) -> bool {
    n > 0 && h < n * n && (h as int) / (n as int) == r && (h as int) % (n as int) == c
}

/// A queen stands in row `r` and column `c`.
pub open spec fn queen(rows: Seq<Vec<u8>>, r: int, c: int) -> bool {
    rows[r]@[c] != 0
}

pub open spec fn row_has_queen(n: nat, rows: Seq<Vec<u8>>, r: int) -> bool {
    exists|c: int| 0 <= c < n && queen(rows, r, c)
}

pub open spec fn col_has_queen(n: nat, rows: Seq<Vec<u8>>, c: int) -> bool {
    exists|r: int| 0 <= r < n && queen(rows, r, c)
}

/// An `n` by `n` board of 0s and 1s with one queen (a 1) in each row and
/// each column, and no two queens on a row, a column or a diagonal.
pub open spec fn is_valid_placement(n: nat, rows: Seq<Vec<u8>>) -> bool {
    &&& rows.len() == n
    &&& forall|r: int| 0 <= r < n ==> (#[trigger] rows[r])@.len() == n
    &&& forall|r: int, c: int| 0 <= r < n && 0 <= c < n ==> #[trigger] rows[r]@[c] <= 1
    &&& forall|r: int| 0 <= r < n ==> #[trigger] row_has_queen(n, rows, r)
    &&& forall|c: int| 0 <= c < n ==> #[trigger] col_has_queen(n, rows, c)
    &&& forall|r1: int, c1: int, r2: int, c2: int|
        0 <= r1 < n && 0 <= c1 < n && 0 <= r2 < n && 0 <= c2 < n && #[trigger] queen(rows, r1, c1)
            && #[trigger] queen(rows, r2, c2) && (r1 == r2 || c1 == c2 || c1 + r2 == c2 + r1 || c1
            + r1 == c2 + r2) ==> r1 == r2 && c1 == c2
}

/// The board with a queen on each of `cells`.
fn convert_to_nqueens_solution(n: usize, cells: &Vec<usize>) -> (r: NQueensSolution)
    requires
        n * n <= usize::MAX,
        n <= 65535,
    ensures
        r.board.0@.len() == n,
        forall|k: int| 0 <= k < n ==> (#[trigger] r.board.0@[k])@.len() == n,
        forall|row: int, col: int|
            0 <= row < n && 0 <= col < n ==> (#[trigger] queen(r.board.0@, row, col) <==> exists|k: int|
                0 <= k < cells@.len() && is_cell(n as nat, cells@[k], row, col)),
        forall|row: int, col: int| 0 <= row < n && 0 <= col < n ==> #[trigger] r.board.0@[row]@[col] <= 1,
{
    let mut rows: Vec<Vec<u8>> = Vec::new();
    let mut r: usize = 0;
    while r < n
        invariant
            r <= n,
            rows@.len() == r,
            forall|k: int| 0 <= k < r ==> (#[trigger] rows@[k])@.len() == n,
            forall|k: int, c: int| 0 <= k < r && 0 <= c < n ==> rows@[k]@[c] == 0,
        decreases n - r,
    {
        let mut row: Vec<u8> = Vec::new();
        let mut c: usize = 0;
        while c < n
            invariant
                c <= n,
                row@.len() == c,
                forall|c2: int| 0 <= c2 < c ==> row@[c2] == 0,
            decreases n - c,
        {
            row.push(0);
            c = c + 1;
        }
        rows.push(row);
        r = r + 1;
    }
    let total = n * n;
    let mut k: usize = 0;
    while k < cells.len()
        invariant
            total == n * n,
            n <= 65535,
            k <= cells@.len(),
            rows@.len() == n,
            forall|k2: int| 0 <= k2 < n ==> (#[trigger] rows@[k2])@.len() == n,
            forall|row: int, col: int|
                0 <= row < n && 0 <= col < n ==> (#[trigger] queen(rows@, row, col) <==> exists|k2: int|
                    0 <= k2 < k && is_cell(n as nat, cells@[k2], row, col)),
            forall|row: int, col: int| 0 <= row < n && 0 <= col < n ==> #[trigger] rows@[row]@[col] <= 1,
        decreases cells@.len() - k,
    {
        let h = cells[k];
        let ghost before = rows@;
        if n > 0 && h < total {
            let r = h / n;
            let c = h % n;
            proof {
                assert(h / n < n) by (nonlinear_arith)
                    requires
                        h < n * n,
                        n > 0,
                ;
            }
            rows[r].set(c, 1);
        }
        proof {
            assert forall|row: int, col: int|
                0 <= row < n && 0 <= col < n implies (#[trigger] queen(rows@, row, col) <==> exists|k2: int|
                    0 <= k2 < k + 1 && is_cell(n as nat, cells@[k2], row, col)) by {
                if is_cell(n as nat, h, row, col) {
                    assert(queen(rows@, row, col));
                } else {
                    assert(queen(rows@, row, col) == queen(before, row, col));
                    assert(rows@[row]@[col] == before[row]@[col]);
                    if exists|k2: int| 0 <= k2 < k + 1 && is_cell(n as nat, cells@[k2], row, col) {
                        let k2 = choose|k2: int| 0 <= k2 < k + 1 && is_cell(n as nat, cells@[k2], row, col);
                        assert(k2 < k);
                    }
                }
            }
        }
        k = k + 1;
    }
    NQueensSolution { board: Board(rows) }
}

/// The queens of a solution of the instance form a valid placement.
proof fn lemma_solution_is_placement(n: nat, inc: Incidence, cells: Seq<usize>, rows: Seq<Vec<u8>>)
    requires
        n <= 65535,
        is_queens_instance(n, inc),
        forall|r: int, c: int| 0 <= r < n && 0 <= c < n ==> #[trigger] rows[r]@[c] <= 1,
        inc.is_solution(cells.to_set()),
        rows.len() == n,
        forall|k: int| 0 <= k < n ==> (#[trigger] rows[k])@.len() == n,
        forall|row: int, col: int|
            0 <= row < n && 0 <= col < n ==> (#[trigger] queen(rows, row, col) <==> exists|k: int|
                0 <= k < cells.len() && is_cell(n, cells[k], row, col)),
    ensures
        is_valid_placement(n, rows),
{
    let t = cells.to_set();
    let nd = n_diags(n);
    assert forall|o: usize| t.contains(o) implies o < n * n && 0 <= (o as int) / (n as int) < n && 0 <= (o as int) % (
    n as int) < n by {
        assert(o < n * n);
        assert(n > 0) by (nonlinear_arith)
            requires
                o < n * n,
        ;
        assert((o as int) / (n as int) < n) by (nonlinear_arith)
            requires
                o < n * n,
                n > 0,
        ;
    }
    assert forall|r: int| 0 <= r < n implies #[trigger] row_has_queen(n, rows, r) by {
        assert(inc.is_mandatory(r as usize));
        let o = choose|o: usize| t.contains(o) && #[trigger] inc.covers_item(o, r as usize);
        let k = choose|k: int| 0 <= k < cells.len() && cells[k] == o;
        let c = (o as int) % (n as int);
        assert(is_cell(n, cells[k], r, c));
        assert(queen(rows, r, c));
    }
    assert forall|c: int| 0 <= c < n implies #[trigger] col_has_queen(n, rows, c) by {
        assert(inc.is_mandatory((n + c) as usize));
        let o = choose|o: usize| t.contains(o) && #[trigger] inc.covers_item(o, (n + c) as usize);
        let k = choose|k: int| 0 <= k < cells.len() && cells[k] == o;
        let r = (o as int) / (n as int);
        assert(is_cell(n, cells[k], r, c));
        assert(queen(rows, r, c));
    }
    assert forall|r1: int, c1: int, r2: int, c2: int|
        0 <= r1 < n && 0 <= c1 < n && 0 <= r2 < n && 0 <= c2 < n && #[trigger] queen(rows, r1, c1)
            && #[trigger] queen(rows, r2, c2) && (r1 == r2 || c1 == c2 || c1 + r2 == c2 + r1 || c1 + r1
            == c2 + r2) implies r1 == r2 && c1 == c2 by {
        let k1 = choose|k: int| 0 <= k < cells.len() && is_cell(n, cells[k], r1, c1);
        let k2 = choose|k: int| 0 <= k < cells.len() && is_cell(n, cells[k], r2, c2);
        let o1 = cells[k1];
        let o2 = cells[k2];
        assert(t.contains(o1) && t.contains(o2));
        let line: int = if r1 == r2 {
            r1
        } else if c1 == c2 {
            n + c1
        } else if c1 + r2 == c2 + r1 {
            2 * n + c1 + n - 1 - r1
        } else {
            2 * n + nd + c1 + r1
        };
        assert(0 <= line < n_lines(n));
        assert(inc.covers_item(o1, line as usize));
        assert(inc.covers_item(o2, line as usize));
    }
}

/// Solves `p`: a placement of the queens, or None when there is none.
pub fn solve_nqueens_problem_with_exact_cover(p: &NQueensProblem) -> (r: Option<NQueensSolution>)
    requires
        (p.n as int) * (p.n as int) <= usize::MAX,
    ensures
        r is None <==> exists|inc: Incidence|
            is_queens_instance(p.n as nat, inc) && #[trigger] inc.solutions().len() == 0,
        r matches Some(s) ==> is_valid_placement(p.n as nat, s.board.0@),
{
    let inc = convert_to_exact_cover_problem(p);
    let sol = inc.solve_one();
    proof {
        lemma_queens_instances_agree(p.n as nat, inc);
    }
    match sol {
        None => None,
        Some(v) => {
            let s = convert_to_nqueens_solution(p.n as usize, &v);
            proof {
                lemma_solution_is_placement(p.n as nat, inc, v@, s.board.0@);
            }
            Some(s)
        },
    }
}

/// Counts the placements of `p`'s queens, saturating at `u64::MAX`.
pub fn count_all_nqueens_solutions_with_exact_cover(p: &NQueensProblem) -> (r: u64)
    requires
        (p.n as int) * (p.n as int) <= usize::MAX,
    ensures
        exists|inc: Incidence| is_queens_instance(p.n as nat, inc),
        forall|inc: Incidence|
            is_queens_instance(p.n as nat, inc) ==> r as int == min_int(
                u64::MAX as int,
                #[trigger] inc.solutions().len() as int,
            ),
{
    let inc = convert_to_exact_cover_problem(p);
    proof {
        lemma_queens_instances_agree(p.n as nat, inc);
    }
    let r = inc.count_all();
    assert(is_queens_instance(p.n as nat, inc));
    r
}

proof fn lemma_covers_agree(n: nat, a: Incidence, b: Incidence, o: usize, i: usize)
    requires
        is_queens_instance(n, a),
        is_queens_instance(n, b),
        o < a.n_opts(),
    ensures
        a.covers_item(o, i) == b.covers_item(o, i),
{
    if i >= a.n_items() {
        if a.covers_item(o, i) {
            let k = choose|k: int| 0 <= k < a.items_of(o).len() && a.items_of(o)[k] == i;
            assert(a.items_of(o)[k] < a.n_items());
        }
        if b.covers_item(o, i) {
            let k = choose|k: int| 0 <= k < b.items_of(o).len() && b.items_of(o)[k] == i;
            assert(b.items_of(o)[k] < b.n_items());
        }
    }
}

proof fn lemma_solution_transfer(n: nat, a: Incidence, b: Incidence, t: Set<usize>)
    requires
        is_queens_instance(n, a),
        is_queens_instance(n, b),
        a.is_solution(t),
    ensures
        b.is_solution(t),
{
    assert forall|o1: usize, o2: usize, i: usize|
        t.contains(o1) && t.contains(o2) && #[trigger] b.covers_item(o1, i) && #[trigger] b.covers_item(
            o2,
            i,
        ) implies o1 == o2 by {
        lemma_covers_agree(n, a, b, o1, i);
        lemma_covers_agree(n, a, b, o2, i);
    }
    assert forall|i: usize| i < b.n_items() && #[trigger] b.is_mandatory(i) implies exists|o: usize|
        t.contains(o) && #[trigger] b.covers_item(o, i) by {
        assert(a.is_mandatory(i));
        let o = choose|o: usize| t.contains(o) && #[trigger] a.covers_item(o, i);
        lemma_covers_agree(n, a, b, o, i);
    }
    assert forall|o: usize| #[trigger] t.contains(o) implies b.required@.contains(o) || b.covers_mandatory(o) by {
        assert(a.covers_mandatory(o));
        let i = choose|i: usize| i < a.n_items() && a.is_mandatory(i) && #[trigger] a.covers_item(o, i);
        lemma_covers_agree(n, a, b, o, i);
    }
}

/// All instances of size `n` have the same solutions.
proof fn lemma_queens_instances_agree(n: nat, inc: Incidence)
    requires
        is_queens_instance(n, inc),
    ensures
        forall|other: Incidence| is_queens_instance(n, other) ==> #[trigger] other.solutions() == inc.solutions(),
{
    assert forall|other: Incidence| is_queens_instance(n, other) implies #[trigger] other.solutions() == inc.solutions() by {
        assert forall|t: Set<usize>| #[trigger] other.solutions().contains(t) == inc.solutions().contains(t) by {
            if other.is_solution(t) {
                lemma_solution_transfer(n, other, inc, t);
            }
            if inc.is_solution(t) {
                lemma_solution_transfer(n, inc, other, t);
            }
        }
        assert(other.solutions() =~= inc.solutions());
    }
}

/// The text of a row: `Q` for a queen, `.` for an empty cell.
pub open spec fn row_text(row: Seq<u8>) -> Seq<char>
    decreases row.len(),
{
    if row.len() == 0 {
        Seq::empty()
    } else {
        row_text(row.drop_last()).push(if row.last() == 0 { '.' } else { 'Q' })
    }
}

/// The text of a board: each row's text followed by a newline.
pub open spec fn board_text(rows: Seq<Vec<u8>>) -> Seq<char>
    decreases rows.len(),
{
    if rows.len() == 0 {
        Seq::empty()
    } else {
        board_text(rows.drop_last()) + row_text(rows.last()@).push('\n')
    }
}

impl Board {
    /// The board as text, one line per row.
    pub fn to_string(&self) -> (r: String)
        ensures
            r@ == board_text(self.0@),
    {
        let mut out = String::new();
        let mut r: usize = 0;
        while r < self.0.len()
            invariant
                r <= self.0@.len(),
                out@ == board_text(self.0@.take(r as int)),
            decreases self.0@.len() - r,
        {
            let row = &self.0[r];
            let ghost base = out@;
            let mut c: usize = 0;
            while c < row.len()
                invariant
                    c <= row@.len(),
                    out@ == base + row_text(row@.take(c as int)),
                decreases row@.len() - c,
            {
                if row[c] == 0 {
                    push_char(&mut out, '.');
                } else {
                    push_char(&mut out, 'Q');
                }
                proof {
                    assert(row@.take(c as int + 1).drop_last() =~= row@.take(c as int));
                    assert(out@ =~= base + row_text(row@.take(c as int + 1)));
                }
                c = c + 1;
            }
            push_char(&mut out, '\n');
            proof {
                assert(row@.take(row@.len() as int) =~= row@);
                assert(self.0@.take(r as int + 1).drop_last() =~= self.0@.take(r as int));
                assert(out@ =~= board_text(self.0@.take(r as int + 1)));
            }
            r = r + 1;
        }
        proof {
            assert(self.0@.take(self.0@.len() as int) =~= self.0@);
        }
        out
    }
}

} // verus!
