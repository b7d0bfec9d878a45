//! The Sudoku reduction: items for each cell and for each digit in each
//! row, column and block; an option for each digit in each cell; the clues
//! as required options.
use crate::exact_cover::{
    declared_items, has_duplicate_item, has_duplicate_option, has_empty_id, has_undeclared_item,
    has_undeclared_option, covers_mandatory_name, is_cover, is_declared_option, listed_options,
    names_view, ExactCoverProblem,
    ExactCoverSolution, MalformedInstance,
};
use crate::text::{digit_char, digit_chars, digit_value, push_char};
use vstd::prelude::*;

verus! {

/// A 9 by 9 board: `0` for an empty cell, else the digit.
#[derive(Debug, PartialEq, Clone)]
pub struct Board(pub Vec<Vec<u8>>);

/// Why board text could not be read.
#[derive(Debug, PartialEq, Eq, Structural)]
pub enum BoardReadError {
    FileReadError,
    InvalidCharacter,
    InvalidSize,
}

/// The board has 9 rows of 9 cells.
pub open spec fn is_nine_by_nine(rows: Seq<Vec<u8>>) -> bool {
    rows.len() == 9 && forall|i: int| 0 <= i < 9 ==> (#[trigger] rows[i])@.len() == 9
}

/// The name of the option "`digit` in cell (`row`, `col`)".
pub open spec fn cell_option_name(row: int, col: int, digit: int) -> Seq<char> {
    seq!['r', digit_chars()[row], 'c', digit_chars()[col], 'd', digit_chars()[digit]]
}

/// The kind of item `x` (0: a cell, 1: a digit in a row, 2: a digit in a
/// column, 3: a digit in a block) and its two numbers.
pub open spec fn item_kind(x: int) -> int {
    x / 81
}

pub open spec fn item_first(x: int) -> int {
    x % 81 / 9
}

pub open spec fn item_second(x: int) -> int {
    x % 9
}

/// The name of item `x`: `r<i>c<j>` for cell `x = 9i + j`, then
/// `r<i>d<d>`, `c<i>d<d>` and `b<i>d<d>` for digit `d` in row, column and
/// block `i`, 81 of each.
pub open spec fn item_name(x: int) -> Seq<char> {
    let a = digit_chars()[item_first(x)];
    let b = digit_chars()[item_second(x)];
    let d = digit_chars()[item_second(x) + 1];
    if item_kind(x) == 0 {
        seq!['r', a, 'c', b]
    } else if item_kind(x) == 1 {
        seq!['r', a, 'd', d]
    } else if item_kind(x) == 2 {
        seq!['c', a, 'd', d]
    } else {
        seq!['b', a, 'd', d]
    }
}

/// The cell (row, column) and digit of the `m`-th option of item `x`.
pub open spec fn option_cell(x: int, m: int) -> (int, int, int) {
    let a = item_first(x);
    let b = item_second(x);
    if item_kind(x) == 0 {
        (a, b, m + 1)
    } else if item_kind(x) == 1 {
        (a, m, b + 1)
    } else if item_kind(x) == 2 {
        (m, a, b + 1)
    } else {
        (a / 3 * 3 + m / 3, a % 3 * 3 + m % 3, b + 1)
    }
}

/// The names of the 324 items, all mandatory.
pub open spec fn sudoku_items() -> Seq<Seq<char>> {
    Seq::new(324, |x: int| item_name(x))
}

/// The names of the 9 options of item `x`.
pub open spec fn item_options(x: int) -> Seq<Seq<char>> {
    Seq::new(
        9,
        |m: int| cell_option_name(option_cell(x, m).0, option_cell(x, m).1, option_cell(x, m).2),
    )
}

/// The options of the clues among the first `c` cells, row by row: a clue
/// is a cell holding 1 to 9.
pub open spec fn clue_names(rows: Seq<Vec<u8>>, c: int) -> Seq<Seq<char>>
    decreases c,
{
    if c <= 0 {
        Seq::empty()
    } else {
        let p = c - 1;
        let v = rows[p / 9]@[p % 9];
        clue_names(rows, p) + if 1 <= v <= 9 {
            seq![cell_option_name(p / 9, p % 9, v as int)]
        } else {
            Seq::empty()
        }
    }
}

proof fn lemma_join(k: int, a: int, b: int)
    requires
        0 <= k < 4,
        0 <= a < 9,
        0 <= b < 9,
    ensures
        item_kind(81 * k + 9 * a + b) == k,
        item_first(81 * k + 9 * a + b) == a,
        item_second(81 * k + 9 * a + b) == b,
{
    assert((81 * k + 9 * a + b) / 81 == k) by (nonlinear_arith)
        requires
            0 <= k < 4,
            0 <= a < 9,
            0 <= b < 9,
    ;
    assert((81 * k + 9 * a + b) % 81 == 9 * a + b) by (nonlinear_arith)
        requires
            0 <= k < 4,
            0 <= a < 9,
            0 <= b < 9,
    ;
    assert((9 * a + b) / 9 == a) by (nonlinear_arith)
        requires
            0 <= a < 9,
            0 <= b < 9,
    ;
    assert((81 * k + 9 * a + b) % 9 == b) by (nonlinear_arith)
        requires
            0 <= k < 4,
            0 <= a < 9,
            0 <= b < 9,
    ;
}

proof fn lemma_split(x: int)
    requires
        0 <= x < 324,
    ensures
        x == 81 * item_kind(x) + 9 * item_first(x) + item_second(x),
        0 <= item_kind(x) < 4,
        0 <= item_first(x) < 9,
        0 <= item_second(x) < 9,
{
    assert(x == 81 * (x / 81) + 9 * (x % 81 / 9) + x % 9 && 0 <= x / 81 < 4 && 0 <= x % 81 / 9 < 9 && 0
        <= x % 9 < 9) by (nonlinear_arith)
        requires
            0 <= x < 324,
    ;
}

/// Cell `p` of 81 is in row `p / 9` and column `p % 9`.
proof fn lemma_cell(i: int, j: int)
    requires
        0 <= i < 9,
        0 <= j < 9,
    ensures
        (9 * i + j) / 9 == i,
        (9 * i + j) % 9 == j,
{
    assert((9 * i + j) / 9 == i && (9 * i + j) % 9 == j) by (nonlinear_arith)
        requires
            0 <= i < 9,
            0 <= j < 9,
    ;
}

/// Option names tell their cell and digit apart.
pub proof fn lemma_option_name_injective(r1: int, c1: int, d1: int, r2: int, c2: int, d2: int)
    requires
        0 <= r1 < 10 && 0 <= c1 < 10 && 0 <= d1 < 10,
        0 <= r2 < 10 && 0 <= c2 < 10 && 0 <= d2 < 10,
        cell_option_name(r1, c1, d1) == cell_option_name(r2, c2, d2),
    ensures
        r1 == r2 && c1 == c2 && d1 == d2,
{
    crate::text::lemma_digit_chars();
    assert(cell_option_name(r1, c1, d1)[1] == cell_option_name(r2, c2, d2)[1]);
    assert(cell_option_name(r1, c1, d1)[3] == cell_option_name(r2, c2, d2)[3]);
    assert(cell_option_name(r1, c1, d1)[5] == cell_option_name(r2, c2, d2)[5]);
}

/// A name made of a letter, a digit, a letter and a digit.
fn name_of(a: char, x: u8, b: char, y: u8) -> (r: String)
    requires
        x < 10,
        y < 10,
    ensures
        r@ == seq![a, digit_chars()[x as int], b, digit_chars()[y as int]],
{
    let mut s = String::new();
    push_char(&mut s, a);
    push_char(&mut s, digit_char(x));
    push_char(&mut s, b);
    push_char(&mut s, digit_char(y));
    proof {
        assert(s@ =~= seq![a, digit_chars()[x as int], b, digit_chars()[y as int]]);
    }
    s
}

/// The item for cell (`row`, `col`): it must hold a digit.
fn cell_item_to_name(row: u8, col: u8) -> (r: String)
    requires
        row < 10,
        col < 10,
    ensures
        r@ == seq!['r', digit_chars()[row as int], 'c', digit_chars()[col as int]],
{
    name_of('r', row, 'c', col)
}

/// The item for `digit` in `row`.
fn row_item_to_name(row: u8, digit: u8) -> (r: String)
    requires
        row < 10,
        digit < 10,
    ensures
        r@ == seq!['r', digit_chars()[row as int], 'd', digit_chars()[digit as int]],
{
    name_of('r', row, 'd', digit)
}

/// The item for `digit` in `col`.
fn col_item_to_name(col: u8, digit: u8) -> (r: String)
    requires
        col < 10,
        digit < 10,
    ensures
        r@ == seq!['c', digit_chars()[col as int], 'd', digit_chars()[digit as int]],
{
    name_of('c', col, 'd', digit)
}

/// The item for `digit` in `block`.
fn block_item_to_name(block: u8, digit: u8) -> (r: String)
    requires
        block < 10,
        digit < 10,
    ensures
        r@ == seq!['b', digit_chars()[block as int], 'd', digit_chars()[digit as int]],
{
    name_of('b', block, 'd', digit)
}

/// The option "`digit` in cell (`row`, `col`)".
fn cell_option_to_name(row: u8, col: u8, digit: u8) -> (r: String)
    requires
        row < 10,
        col < 10,
        digit < 10,
    ensures
        r@ == cell_option_name(row as int, col as int, digit as int),
{
    let mut s = name_of('r', row, 'c', col);
    push_char(&mut s, 'd');
    push_char(&mut s, digit_char(digit));
    proof {
        assert(s@ =~= cell_option_name(row as int, col as int, digit as int));
    }
    s
}

/// Reads an option name back into (row, col, digit): it succeeds exactly
/// on the names `r<row>c<col>d<digit>` with three decimal digits.
fn name_to_cell_option(name: &String) -> (r: Option<(u8, u8, u8)>)
    ensures
        r matches Some((row, col, digit)) ==> row < 10 && col < 10 && digit < 10 && name@
            == cell_option_name(row as int, col as int, digit as int),
        r is None ==> forall|row: int, col: int, digit: int|
            0 <= row < 10 && 0 <= col < 10 && 0 <= digit < 10 ==> name@ != #[trigger] cell_option_name(
                row,
                col,
                digit,
            ),
{
    let s = name.as_str();
    if s.unicode_len() != 6 || s.get_char(0) != 'r' || s.get_char(2) != 'c' || s.get_char(4) != 'd' {
        return None;
    }
    match (digit_value(s.get_char(1)), digit_value(s.get_char(3)), digit_value(s.get_char(5))) {
        (Some(row), Some(col), Some(digit)) => {
            proof {
                assert(name@ =~= cell_option_name(row as int, col as int, digit as int));
            }
            Some((row, col, digit))
        },
        _ => {
            proof {
                assert forall|row: int, col: int, digit: int|
                    0 <= row < 10 && 0 <= col < 10 && 0 <= digit < 10 implies name@
                    != #[trigger] cell_option_name(row, col, digit) by {
                    if name@ == cell_option_name(row, col, digit) {
                        assert(digit_chars().contains(name@[1]) && name@[1] == digit_chars()[row]);
                        assert(digit_chars().contains(name@[3]) && name@[3] == digit_chars()[col]);
                        assert(digit_chars().contains(name@[5]) && name@[5] == digit_chars()[digit]);
                    }
                }
            }
            None
        },
    }
}

/// Adds a mandatory item with its options.
fn add_item(
    required_items: &mut Vec<String>,
    covered_by: &mut Vec<(String, Vec<String>)>,
    name: String,
    options: Vec<String>,
)
    requires
        old(required_items)@.len() < usize::MAX,
        old(covered_by)@.len() < usize::MAX,
    ensures
        final(required_items)@ == old(required_items)@.push(name),
        final(covered_by)@ == old(covered_by)@.push((name, options)),
{
    required_items.push(name.clone());
    covered_by.push((name, options));
}

/// The declarations of a board: `ri` names the 324 items, all mandatory;
/// `cb` gives each item with its 9 options; `ro` names the clue options.
pub open spec fn declares_board(
    rows: Seq<Vec<u8>>,
    ri: Seq<String>,
    ro: Seq<String>,
    cb: Seq<(String, Vec<String>)>,
) -> bool {
    &&& names_view(ri) == sudoku_items()
    &&& declared_items(cb) == sudoku_items()
    &&& forall|x: int| 0 <= x < 324 ==> #[trigger] listed_options(cb, x) == item_options(x)
    &&& names_view(ro) == clue_names(rows, 81)
}

/// The declarations of the board, in order.
fn declarations(board: &Board) -> (r: (Vec<String>, Vec<String>, Vec<(String, Vec<String>)>))
    requires
        is_nine_by_nine(board.0@),
    ensures
        declares_board(board.0@, r.0@, r.1@, r.2@),
{
    let mut required_items: Vec<String> = Vec::new();
    let mut covered_by: Vec<(String, Vec<String>)> = Vec::new();
    let mut required_options: Vec<String> = Vec::new();
    let mut kind: u8 = 0;
    while kind < 4
        invariant
            kind <= 4,
            required_items@.len() == 81 * kind as nat,
            covered_by@.len() == 81 * kind as nat,
            forall|x: int| 0 <= x < 81 * kind ==> (#[trigger] required_items@[x])@ == item_name(x),
            forall|x: int| 0 <= x < 81 * kind ==> (#[trigger] covered_by@[x]).0@ == item_name(x),
            forall|x: int| 0 <= x < 81 * kind ==> listed_options(covered_by@, x) == item_options(x),
        decreases 4 - kind,
    {
        let mut a: u8 = 0;
        while a < 9
            invariant
                kind < 4,
                a <= 9,
                required_items@.len() == 81 * kind as nat + 9 * a as nat,
                covered_by@.len() == 81 * kind as nat + 9 * a as nat,
                forall|x: int| 0 <= x < 81 * kind + 9 * a ==> (#[trigger] required_items@[x])@ == item_name(x),
                forall|x: int| 0 <= x < 81 * kind + 9 * a ==> (#[trigger] covered_by@[x]).0@ == item_name(x),
                forall|x: int| 0 <= x < 81 * kind + 9 * a ==> listed_options(covered_by@, x) == item_options(x),
            decreases 9 - a,
        {
            let mut b: u8 = 0;
            while b < 9
                invariant
                    kind < 4,
                    a < 9,
                    b <= 9,
                    required_items@.len() == 81 * kind as nat + 9 * a as nat + b as nat,
                    covered_by@.len() == 81 * kind as nat + 9 * a as nat + b as nat,
                    forall|x: int|
                        0 <= x < 81 * kind + 9 * a + b ==> (#[trigger] required_items@[x])@ == item_name(x),
                    forall|x: int|
                        0 <= x < 81 * kind + 9 * a + b ==> (#[trigger] covered_by@[x]).0@ == item_name(x),
                    forall|x: int|
                        0 <= x < 81 * kind + 9 * a + b ==> listed_options(covered_by@, x) == item_options(x),
                decreases 9 - b,
            {
                let ghost x = 81 * kind + 9 * a + b;
                proof {
                    lemma_join(kind as int, a as int, b as int);
                }
                let name = if kind == 0 {
                    cell_item_to_name(a, b)
                } else if kind == 1 {
                    row_item_to_name(a, b + 1)
                } else if kind == 2 {
                    col_item_to_name(a, b + 1)
                } else {
                    block_item_to_name(a, b + 1)
                };
                assert(name@ == item_name(x));
                let mut options: Vec<String> = Vec::new();
                let mut k: u8 = 0;
                while k < 9
                    invariant
                        kind < 4,
                        a < 9,
                        b < 9,
                        k <= 9,
                        x == 81 * kind + 9 * a + b,
                        item_kind(x) == kind,
                        item_first(x) == a,
                        item_second(x) == b,
                        options@.len() == k,
                        forall|m: int| 0 <= m < k ==> (#[trigger] options@[m])@ == item_options(x)[m],
                    decreases 9 - k,
                {
                    let (row, col, digit) = if kind == 0 {
                        (a, b, k + 1)
                    } else if kind == 1 {
                        (a, k, b + 1)
                    } else if kind == 2 {
                        (k, a, b + 1)
                    } else {
                        (a / 3 * 3 + k / 3, a % 3 * 3 + k % 3, b + 1)
                    };
                    options.push(cell_option_to_name(row, col, digit));
                    k = k + 1;
                }
                let ghost ov = options@;
                let ghost cb0 = covered_by@;
                add_item(&mut required_items, &mut covered_by, name, options);
                proof {
                    assert(covered_by@[x].1@ == ov);
                    assert(listed_options(covered_by@, x) =~= item_options(x));
                    assert forall|y: int| 0 <= y < x implies listed_options(covered_by@, y) == item_options(y) by {
                        assert(covered_by@[y] == cb0[y]);
                        assert(listed_options(cb0, y) == item_options(y));
                    }
                }
                b = b + 1;
            }
            a = a + 1;
        }
        kind = kind + 1;
    }
    let mut i: u8 = 0;
    while i < 9
        invariant
            i <= 9,
            is_nine_by_nine(board.0@),
            names_view(required_options@) == clue_names(board.0@, 9 * i as int),
        decreases 9 - i,
    {
        let mut j: u8 = 0;
        while j < 9
            invariant
                i < 9,
                j <= 9,
                is_nine_by_nine(board.0@),
                names_view(required_options@) == clue_names(board.0@, 9 * i + j),
            decreases 9 - j,
        {
            proof {
                lemma_cell(i as int, j as int);
            }
            let d = board.0[i as usize][j as usize];
            let ghost before = required_options@;
            if 1 <= d && d <= 9 {
                required_options.push(cell_option_to_name(i, j, d));
            }
            proof {
                assert(names_view(required_options@) =~= clue_names(board.0@, 9 * i + j + 1));
            }
            j = j + 1;
        }
        i = i + 1;
    }
    proof {
        assert(names_view(required_items@) =~= sudoku_items());
        assert(declared_items(covered_by@) =~= sudoku_items());
    }
    (required_items, required_options, covered_by)
}

proof fn lemma_item_name_injective(x: int, y: int)
    requires
        0 <= x < 324,
        0 <= y < 324,
        item_name(x) == item_name(y),
    ensures
        x == y,
{
    crate::text::lemma_digit_chars();
    lemma_split(x);
    lemma_split(y);
    assert(item_name(x)[0] == item_name(y)[0]);
    assert(item_name(x)[1] == item_name(y)[1]);
    assert(item_name(x)[2] == item_name(y)[2]);
    assert(item_name(x)[3] == item_name(y)[3]);
}

proof fn lemma_item_options_distinct(x: int)
    requires
        0 <= x < 324,
    ensures
        item_options(x).no_duplicates(),
        forall|m: int| 0 <= m < 9 ==> (#[trigger] item_options(x)[m]).len() == 6,
{
    lemma_split(x);
    let a = item_first(x);
    assert forall|m1: int, m2: int| 0 <= m1 < 9 && 0 <= m2 < 9 && m1 != m2 implies item_options(x)[m1]
        != item_options(x)[m2] by {
        let c1 = option_cell(x, m1);
        let c2 = option_cell(x, m2);
        assert(0 <= a / 3 * 3 + m1 / 3 < 9 && 0 <= a % 3 * 3 + m1 % 3 < 9) by (nonlinear_arith)
            requires
                0 <= a < 9,
                0 <= m1 < 9,
        ;
        assert(0 <= a / 3 * 3 + m2 / 3 < 9 && 0 <= a % 3 * 3 + m2 % 3 < 9) by (nonlinear_arith)
            requires
                0 <= a < 9,
                0 <= m2 < 9,
        ;
        if item_options(x)[m1] == item_options(x)[m2] {
            lemma_option_name_injective(c1.0, c1.1, c1.2, c2.0, c2.1, c2.2);
            assert(m1 == 3 * (m1 / 3) + m1 % 3 && m2 == 3 * (m2 / 3) + m2 % 3) by (nonlinear_arith)
                requires
                    0 <= m1 < 9,
                    0 <= m2 < 9,
            ;
        }
    }
}

/// `x` is the option of the clue in cell `p`.
pub open spec fn is_clue_of(rows: Seq<Vec<u8>>, p: int, x: Seq<char>) -> bool {
    1 <= rows[p / 9]@[p % 9] <= 9 && x == cell_option_name(p / 9, p % 9, rows[p / 9]@[p % 9] as int)
}

/// `x` is the option of the clue in one of the first `c` cells.
pub open spec fn names_clue(rows: Seq<Vec<u8>>, c: int, x: Seq<char>) -> bool {
    exists|p: int| 0 <= p < c && #[trigger] is_clue_of(rows, p, x)
}

/// Each clue option names a distinct cell holding 1 to 9.
proof fn lemma_clue_names(rows: Seq<Vec<u8>>, c: int)
    requires
        0 <= c <= 81,
    ensures
        clue_names(rows, c).no_duplicates(),
        forall|k: int|
            0 <= k < clue_names(rows, c).len() ==> names_clue(rows, c, #[trigger] clue_names(rows, c)[k]),
    decreases c,
{
    if c > 0 {
        let p = c - 1;
        lemma_clue_names(rows, p);
        let prev = clue_names(rows, p);
        let cur = clue_names(rows, c);
        let v = rows[p / 9]@[p % 9];
        assert(0 <= p / 9 < 9 && 0 <= p % 9 < 9 && p == 9 * (p / 9) + p % 9) by (nonlinear_arith)
            requires
                0 <= p < 81,
        ;
        assert forall|k: int| 0 <= k < cur.len() implies names_clue(rows, c, #[trigger] cur[k]) by {
            if k < prev.len() {
                assert(cur[k] == prev[k]);
                assert(names_clue(rows, p, prev[k]));
                let q = choose|q: int| 0 <= q < p && #[trigger] is_clue_of(rows, q, prev[k]);
                assert(is_clue_of(rows, q, cur[k]));
            } else {
                assert(cur[k] == cell_option_name(p / 9, p % 9, v as int));
                assert(is_clue_of(rows, p, cur[k]));
            }
        }
        if 1 <= v <= 9 {
            assert forall|a: int, b: int| 0 <= a < b < cur.len() implies cur[a] != cur[b] by {
                if b == prev.len() {
                    assert(cur[a] == prev[a]);
                    assert(names_clue(rows, p, prev[a]));
                    let q = choose|q: int| 0 <= q < p && #[trigger] is_clue_of(rows, q, prev[a]);
                    assert(0 <= q / 9 < 9 && 0 <= q % 9 < 9 && q == 9 * (q / 9) + q % 9) by (nonlinear_arith)
                        requires
                            0 <= q < 81,
                    ;
                    if cur[a] == cur[b] {
                        lemma_option_name_injective(
                            q / 9,
                            q % 9,
                            rows[q / 9]@[q % 9] as int,
                            p / 9,
                            p % 9,
                            v as int,
                        );
                    }
                } else {
                    assert(cur[a] == prev[a] && cur[b] == prev[b]);
                }
            }
        } else {
            assert(cur =~= prev);
        }
    }
}

/// The declarations of a board are well formed.
proof fn lemma_declarations_valid(
    rows: Seq<Vec<u8>>,
    ri: Seq<String>,
    ro: Seq<String>,
    cb: Seq<(String, Vec<String>)>,
)
    requires
        is_nine_by_nine(rows),
        declares_board(rows, ri, ro, cb),
    ensures
        !has_empty_id(ri, ro, cb),
        !has_duplicate_item(ri, cb),
        !has_undeclared_item(ri, cb),
        !has_duplicate_option(ro, cb),
        !has_undeclared_option(ro, cb),
{
    lemma_clue_names(rows, 81);
    let clues = clue_names(rows, 81);
    assert(names_view(ri).len() == 324 && declared_items(cb).len() == 324);
    assert(sudoku_items().no_duplicates()) by {
        assert forall|x: int, y: int| 0 <= x < y < 324 implies sudoku_items()[x] != sudoku_items()[y] by {
            if sudoku_items()[x] == sudoku_items()[y] {
                lemma_item_name_injective(x, y);
            }
        }
    }
    assert forall|k: int| 0 <= k < ri.len() implies (#[trigger] ri[k])@.len() != 0 by {
        assert(names_view(ri)[k] == ri[k]@);
    }
    assert forall|k: int| 0 <= k < ro.len() implies (#[trigger] ro[k])@.len() != 0 by {
        assert(names_view(ro)[k] == ro[k]@);
        assert(names_clue(rows, 81, clues[k]));
        let p = choose|p: int| 0 <= p < 81 && #[trigger] is_clue_of(rows, p, clues[k]);
    }
    assert forall|i: int| 0 <= i < cb.len() implies (#[trigger] cb[i]).0@.len() != 0 by {
        assert(declared_items(cb)[i] == cb[i].0@);
    }
    assert forall|i: int, m: int| 0 <= i < cb.len() && 0 <= m < cb[i].1@.len() implies (
    #[trigger] cb[i].1@[m])@.len() != 0 by {
        assert(listed_options(cb, i) == item_options(i));
        assert(listed_options(cb, i)[m] == cb[i].1@[m]@);
        lemma_item_options_distinct(i);
    }
    assert(!has_empty_id(ri, ro, cb));
    assert forall|k: int| 0 <= k < ri.len() implies declared_items(cb).contains(#[trigger] ri[k]@) by {
        assert(names_view(ri)[k] == ri[k]@);
        assert(declared_items(cb)[k] == ri[k]@);
    }
    assert forall|i: int| 0 <= i < cb.len() implies (#[trigger] listed_options(cb, i)).no_duplicates() by {
        lemma_item_options_distinct(i);
    }
    assert forall|k: int| 0 <= k < ro.len() implies is_declared_option(cb, #[trigger] ro[k]@) by {
        assert(names_view(ro)[k] == ro[k]@);
        assert(names_clue(rows, 81, clues[k]));
        let p = choose|p: int| 0 <= p < 81 && #[trigger] is_clue_of(rows, p, clues[k]);
        let v = rows[p / 9]@[p % 9] as int;
        lemma_join(0, p / 9, p % 9);
        assert(p == 9 * (p / 9) + p % 9 && 0 <= p / 9 < 9 && 0 <= p % 9 < 9) by (nonlinear_arith)
            requires
                0 <= p < 81,
        ;
        assert(listed_options(cb, p) == item_options(p));
        assert(item_options(p)[v - 1] == ro[k]@);
        assert(listed_options(cb, p).contains(ro[k]@));
    }
}

/// Builds the exact cover problem of a board: every cell, and every digit
/// in every row, column and block, is a mandatory item; each digit in each
/// cell is an option; the clues are required options.
pub fn convert_to_exact_cover_problem(board: &Board) -> (r: Result<ExactCoverProblem, MalformedInstance>)
    requires
        is_nine_by_nine(board.0@),
    ensures
        r is Ok,
        r matches Ok(p) ==> p.wf() && declares_board(
            board.0@,
            p.declarations@.0,
            p.declarations@.1,
            p.declarations@.2,
        ),
{
    let (ri, ro, cb) = declarations(board);
    proof {
        lemma_declarations_valid(board.0@, ri@, ro@, cb@);
    }
    let r = ExactCoverProblem::new(ri, ro, cb);
    proof {
        if r is Err {
            let e = r->Err_0;
            assert(r == Err::<ExactCoverProblem, MalformedInstance>(e));
            match e {
                MalformedInstance::EmptyId => {},
                MalformedInstance::DuplicateItem => {},
                MalformedInstance::UndeclaredItem => {},
                MalformedInstance::DuplicateOption => {},
                MalformedInstance::UndeclaredOption => {},
            }
        }
    }
    r
}

/// Some digit below 10 makes `x` the option name of cell (`i`, `j`).
pub open spec fn names_cell(x: Seq<char>, i: int, j: int) -> bool {
    exists|d: int| 0 <= d < 10 && x == #[trigger] cell_option_name(i, j, d)
}

/// The digit that `names` give cell (`i`, `j`): that of the last name
/// `r<i>c<j>d<d>`, or 0 when no name is of that form.
pub open spec fn named_digit(names: Seq<Seq<char>>, i: int, j: int) -> int
    decreases names.len(),
{
    if names.len() == 0 {
        0
    } else if names_cell(names.last(), i, j) {
        choose|d: int| 0 <= d < 10 && names.last() == #[trigger] cell_option_name(i, j, d)
    } else {
        named_digit(names.drop_last(), i, j)
    }
}

/// The board of a solution: each option named `r<row>c<col>d<digit>`
/// writes its digit in its cell, later names over earlier ones; other
/// names are passed over, and unnamed cells stay 0.
pub fn convert_to_sudoku_solution(solution: ExactCoverSolution) -> (r: Board)
    ensures
        is_nine_by_nine(r.0@),
        forall|i: int, j: int|
            0 <= i < 9 && 0 <= j < 9 ==> #[trigger] r.0@[i]@[j] as int == named_digit(
                names_view(solution.selected_options@),
                i,
                j,
            ),
{
    let mut board: Vec<Vec<u8>> = Vec::new();
    let mut i: usize = 0;
    while i < 9
        invariant
            i <= 9,
            board@.len() == i,
            forall|k: int| 0 <= k < i ==> (#[trigger] board@[k])@.len() == 9,
            forall|k: int, c: int| 0 <= k < i && 0 <= c < 9 ==> board@[k]@[c] == 0,
        decreases 9 - i,
    {
        let mut row: Vec<u8> = Vec::new();
        let mut j: usize = 0;
        while j < 9
            invariant
                j <= 9,
                row@.len() == j,
                forall|c: int| 0 <= c < j ==> row@[c] == 0,
            decreases 9 - j,
        {
            row.push(0);
            j = j + 1;
        }
        board.push(row);
        i = i + 1;
    }
    let names = &solution.selected_options;
    let ghost nv = names_view(names@);
    proof {
        assert(nv.take(0) =~= Seq::<Seq<char>>::empty());
    }
    let mut k: usize = 0;
    while k < names.len()
        invariant
            k <= names@.len(),
            nv == names_view(names@),
            is_nine_by_nine(board@),
            forall|i2: int, j2: int|
                0 <= i2 < 9 && 0 <= j2 < 9 ==> #[trigger] board@[i2]@[j2] as int == named_digit(
                    nv.take(k as int),
                    i2,
                    j2,
                ),
        decreases names@.len() - k,
    {
        let ghost before = board@;
        let parsed = name_to_cell_option(&names[k]);
        match parsed {
            Some((row, col, digit)) => {
                if row < 9 && col < 9 {
                    board[row as usize].set(col as usize, digit);
                }
            },
            None => {},
        }
        proof {
            let t1 = nv.take(k as int + 1);
            assert(t1.drop_last() =~= nv.take(k as int));
            assert(t1.last() == names@[k as int]@);
            assert forall|i2: int, j2: int| 0 <= i2 < 9 && 0 <= j2 < 9 implies #[trigger] board@[i2]@[j2] as int
                == named_digit(t1, i2, j2) by {
                let x = t1.last();
                if names_cell(x, i2, j2) {
                    let d = choose|d: int| 0 <= d < 10 && x == #[trigger] cell_option_name(i2, j2, d);
                    let (row, col, digit) = parsed.unwrap();
                    lemma_option_name_injective(row as int, col as int, digit as int, i2, j2, d);
                } else {
                    if parsed is Some {
                        let (row, col, digit) = parsed.unwrap();
                        if row as int == i2 && col as int == j2 {
                            assert(x == cell_option_name(i2, j2, digit as int));
                        }
                    }
                    assert(board@[i2]@[j2] == before[i2]@[j2]);
                }
            }
        }
        k = k + 1;
    }
    proof {
        assert(nv.take(names@.len() as int) =~= nv);
    }
    Board(board)
}

/// The number in cell (`i`, `j`).
pub open spec fn cell_at(b: Seq<Vec<u8>>, i: int, j: int) -> int {
    b[i]@[j] as int
}

/// The number in the `m`-th cell, row by row, of block `k`.
pub open spec fn block_at(b: Seq<Vec<u8>>, k: int, m: int) -> int {
    cell_at(b, k / 3 * 3 + m / 3, k % 3 * 3 + m % 3)
}

pub open spec fn row_has(b: Seq<Vec<u8>>, i: int, d: int) -> bool {
    exists|j: int| 0 <= j < 9 && #[trigger] cell_at(b, i, j) == d
}

pub open spec fn col_has(b: Seq<Vec<u8>>, j: int, d: int) -> bool {
    exists|i: int| 0 <= i < 9 && #[trigger] cell_at(b, i, j) == d
}

pub open spec fn block_has(b: Seq<Vec<u8>>, k: int, d: int) -> bool {
    exists|m: int| 0 <= m < 9 && #[trigger] block_at(b, k, m) == d
}

/// `b` completes the board `rows`: it is 9 by 9 with every cell 1 to 9,
/// each row, column and block holds each digit exactly once, and every
/// clue (a cell of `rows` holding 1 to 9) is kept.
pub open spec fn is_completion(rows: Seq<Vec<u8>>, b: Seq<Vec<u8>>) -> bool {
    &&& is_nine_by_nine(b)
    &&& forall|i: int, j: int| 0 <= i < 9 && 0 <= j < 9 ==> 1 <= #[trigger] cell_at(b, i, j) <= 9
    &&& forall|k: int, d: int| 0 <= k < 9 && 1 <= d <= 9 ==> #[trigger] row_has(b, k, d)
    &&& forall|k: int, d: int| 0 <= k < 9 && 1 <= d <= 9 ==> #[trigger] col_has(b, k, d)
    &&& forall|k: int, d: int| 0 <= k < 9 && 1 <= d <= 9 ==> #[trigger] block_has(b, k, d)
    &&& forall|i: int, j1: int, j2: int|
        0 <= i < 9 && 0 <= j1 < 9 && 0 <= j2 < 9 && #[trigger] cell_at(b, i, j1) == #[trigger] cell_at(
            b,
            i,
            j2,
        ) ==> j1 == j2
    &&& forall|i1: int, i2: int, j: int|
        0 <= i1 < 9 && 0 <= i2 < 9 && 0 <= j < 9 && #[trigger] cell_at(b, i1, j) == #[trigger] cell_at(
            b,
            i2,
            j,
        ) ==> i1 == i2
    &&& forall|k: int, m1: int, m2: int|
        0 <= k < 9 && 0 <= m1 < 9 && 0 <= m2 < 9 && #[trigger] block_at(b, k, m1) == #[trigger] block_at(
            b,
            k,
            m2,
        ) ==> m1 == m2
    &&& forall|i: int, j: int|
        0 <= i < 9 && 0 <= j < 9 && 1 <= rows[i]@[j] <= 9 ==> #[trigger] cell_at(b, i, j) == rows[i]@[j]
}

/// The option of digit `d` in cell (`i`, `j`) is chosen in `s`.
pub open spec fn placed(s: Set<Seq<char>>, i: int, j: int, d: int) -> bool {
    s.contains(cell_option_name(i, j, d))
}

/// Digit `d` is chosen for the `m`-th cell of block `k`.
pub open spec fn block_placed(s: Set<Seq<char>>, k: int, m: int, d: int) -> bool {
    placed(s, k / 3 * 3 + m / 3, k % 3 * 3 + m % 3, d)
}

pub open spec fn cell_chosen(s: Set<Seq<char>>, i: int, j: int) -> bool {
    exists|d: int| 1 <= d <= 9 && #[trigger] placed(s, i, j, d)
}

pub open spec fn row_chosen(s: Set<Seq<char>>, i: int, d: int) -> bool {
    exists|j: int| 0 <= j < 9 && #[trigger] placed(s, i, j, d)
}

pub open spec fn col_chosen(s: Set<Seq<char>>, j: int, d: int) -> bool {
    exists|i: int| 0 <= i < 9 && #[trigger] placed(s, i, j, d)
}

pub open spec fn block_chosen(s: Set<Seq<char>>, k: int, d: int) -> bool {
    exists|m: int| 0 <= m < 9 && #[trigger] block_placed(s, k, m, d)
}

proof fn lemma_option_cell(x: int, m: int)
    requires
        0 <= x < 324,
        0 <= m < 9,
    ensures
        0 <= option_cell(x, m).0 < 9,
        0 <= option_cell(x, m).1 < 9,
        1 <= option_cell(x, m).2 <= 9,
        item_options(x)[m] == cell_option_name(option_cell(x, m).0, option_cell(x, m).1, option_cell(x, m).2),
{
    lemma_split(x);
    let a = item_first(x);
    assert(0 <= a / 3 * 3 + m / 3 < 9 && 0 <= a % 3 * 3 + m % 3 < 9) by (nonlinear_arith)
        requires
            0 <= a < 9,
            0 <= m < 9,
    ;
}

/// Any option listed for an item is the option of a cell and a digit 1 to 9.
proof fn lemma_listed_cell(x: int, name: Seq<char>) -> (m: int)
    requires
        0 <= x < 324,
        item_options(x).contains(name),
    ensures
        0 <= m < 9,
        name == item_options(x)[m],
{
    choose|m: int| 0 <= m < 9 && item_options(x)[m] == name
}

/// One of the options of item `x` is chosen in `s`.
pub open spec fn option_chosen(s: Set<Seq<char>>, x: int) -> bool {
    exists|m: int| 0 <= m < 9 && #[trigger] s.contains(item_options(x)[m])
}

/// The facts about a cover of a board's declarations that the completion
/// is read from.
proof fn lemma_cover_placements(
    rows: Seq<Vec<u8>>,
    ri: Seq<String>,
    ro: Seq<String>,
    cb: Seq<(String, Vec<String>)>,
    s: Set<Seq<char>>,
)
    requires
        is_nine_by_nine(rows),
        declares_board(rows, ri, ro, cb),
        is_cover(ri, ro, cb, s),
    ensures
        forall|i: int, j: int, d: int|
            0 <= i < 10 && 0 <= j < 10 && 0 <= d < 10 && #[trigger] placed(s, i, j, d) ==> i < 9 && j
                < 9 && 1 <= d,
        forall|i: int, j: int| 0 <= i < 9 && 0 <= j < 9 ==> #[trigger] cell_chosen(s, i, j),
        forall|i: int, j: int, d1: int, d2: int|
            0 <= i < 9 && 0 <= j < 9 && 1 <= d1 <= 9 && 1 <= d2 <= 9 && #[trigger] placed(s, i, j, d1)
                && #[trigger] placed(s, i, j, d2) ==> d1 == d2,
        forall|i: int, d: int| 0 <= i < 9 && 1 <= d <= 9 ==> #[trigger] row_chosen(s, i, d),
        forall|i: int, j1: int, j2: int, d: int|
            0 <= i < 9 && 0 <= j1 < 9 && 0 <= j2 < 9 && 1 <= d <= 9 && #[trigger] placed(s, i, j1, d)
                && #[trigger] placed(s, i, j2, d) ==> j1 == j2,
        forall|j: int, d: int| 0 <= j < 9 && 1 <= d <= 9 ==> #[trigger] col_chosen(s, j, d),
        forall|i1: int, i2: int, j: int, d: int|
            0 <= i1 < 9 && 0 <= i2 < 9 && 0 <= j < 9 && 1 <= d <= 9 && #[trigger] placed(s, i1, j, d)
                && #[trigger] placed(s, i2, j, d) ==> i1 == i2,
        forall|k: int, d: int| 0 <= k < 9 && 1 <= d <= 9 ==> #[trigger] block_chosen(s, k, d),
        forall|k: int, m1: int, m2: int, d: int|
            0 <= k < 9 && 0 <= m1 < 9 && 0 <= m2 < 9 && 1 <= d <= 9 && #[trigger] block_placed(s, k, m1, d)
                && #[trigger] block_placed(s, k, m2, d) ==> m1 == m2,
        forall|i: int, j: int|
            0 <= i < 9 && 0 <= j < 9 && 1 <= rows[i]@[j] <= 9 ==> #[trigger] placed(s, i, j, rows[i]@[j] as int),
{
    assert(declared_items(cb).len() == 324);
    // Every item is mandatory, so one of its options is chosen.
    assert forall|x: int| 0 <= x < 324 implies #[trigger] option_chosen(s, x) by {
        assert(declared_items(cb)[x] == cb[x].0@);
        assert(names_view(ri)[x] == cb[x].0@);
        assert(names_view(ri).contains(cb[x].0@));
        let y = choose|y: Seq<char>| s.contains(y) && #[trigger] listed_options(cb, x).contains(y);
        assert(listed_options(cb, x) == item_options(x));
        let m = lemma_listed_cell(x, y);
    }
    // The options chosen for one item are one.
    assert forall|x: int, y1: Seq<char>, y2: Seq<char>|
        0 <= x < 324 && s.contains(y1) && s.contains(y2) && #[trigger] item_options(x).contains(y1)
            && #[trigger] item_options(x).contains(y2) implies y1 == y2 by {
        assert(listed_options(cb, x) == item_options(x));
    }
    assert forall|i: int, j: int, d: int|
        0 <= i < 10 && 0 <= j < 10 && 0 <= d < 10 && #[trigger] placed(s, i, j, d) implies i < 9 && j < 9
        && 1 <= d by {
        let name = cell_option_name(i, j, d);
        assert(is_declared_option(cb, name));
        let x = choose|x: int| 0 <= x < cb.len() && #[trigger] listed_options(cb, x).contains(name);
        assert(listed_options(cb, x) == item_options(x));
        let m = lemma_listed_cell(x, name);
        lemma_option_cell(x, m);
        let c = option_cell(x, m);
        lemma_option_name_injective(i, j, d, c.0, c.1, c.2);
    }
    assert forall|i: int, j: int| 0 <= i < 9 && 0 <= j < 9 implies #[trigger] cell_chosen(s, i, j) by {
        lemma_join(0, i, j);
        assert(option_chosen(s, 9 * i + j));
        let m = choose|m: int| 0 <= m < 9 && #[trigger] s.contains(item_options(9 * i + j)[m]);
        lemma_option_cell(9 * i + j, m);
        assert(placed(s, i, j, m + 1));
    }
    assert forall|i: int, d: int| 0 <= i < 9 && 1 <= d <= 9 implies #[trigger] row_chosen(s, i, d) by {
        lemma_join(1, i, d - 1);
        assert(option_chosen(s, 81 + 9 * i + d - 1));
        let m = choose|m: int| 0 <= m < 9 && #[trigger] s.contains(item_options(81 + 9 * i + d - 1)[m]);
        lemma_option_cell(81 + 9 * i + d - 1, m);
        assert(placed(s, i, m, d));
    }
    assert forall|j: int, d: int| 0 <= j < 9 && 1 <= d <= 9 implies #[trigger] col_chosen(s, j, d) by {
        lemma_join(2, j, d - 1);
        assert(option_chosen(s, 162 + 9 * j + d - 1));
        let m = choose|m: int| 0 <= m < 9 && #[trigger] s.contains(item_options(162 + 9 * j + d - 1)[m]);
        lemma_option_cell(162 + 9 * j + d - 1, m);
        assert(placed(s, m, j, d));
    }
    assert forall|k: int, d: int| 0 <= k < 9 && 1 <= d <= 9 implies #[trigger] block_chosen(s, k, d) by {
        lemma_join(3, k, d - 1);
        assert(option_chosen(s, 243 + 9 * k + d - 1));
        let m = choose|m: int| 0 <= m < 9 && #[trigger] s.contains(item_options(243 + 9 * k + d - 1)[m]);
        lemma_option_cell(243 + 9 * k + d - 1, m);
        assert(block_placed(s, k, m, d));
    }
    assert forall|i: int, j: int, d1: int, d2: int|
        0 <= i < 9 && 0 <= j < 9 && 1 <= d1 <= 9 && 1 <= d2 <= 9 && #[trigger] placed(s, i, j, d1)
            && #[trigger] placed(s, i, j, d2) implies d1 == d2 by {
        let x = 9 * i + j;
        lemma_join(0, i, j);
        lemma_option_cell(x, d1 - 1);
        lemma_option_cell(x, d2 - 1);
        assert(item_options(x).contains(item_options(x)[d1 - 1]));
        assert(item_options(x).contains(item_options(x)[d2 - 1]));
        if d1 != d2 {
            lemma_option_name_injective(i, j, d1, i, j, d2);
        }
    }
    assert forall|i: int, j1: int, j2: int, d: int|
        0 <= i < 9 && 0 <= j1 < 9 && 0 <= j2 < 9 && 1 <= d <= 9 && #[trigger] placed(s, i, j1, d)
            && #[trigger] placed(s, i, j2, d) implies j1 == j2 by {
        let x = 81 + 9 * i + (d - 1);
        lemma_join(1, i, d - 1);
        lemma_option_cell(x, j1);
        lemma_option_cell(x, j2);
        assert(item_options(x).contains(item_options(x)[j1]));
        assert(item_options(x).contains(item_options(x)[j2]));
        if j1 != j2 {
            lemma_option_name_injective(i, j1, d, i, j2, d);
        }
    }
    assert forall|i1: int, i2: int, j: int, d: int|
        0 <= i1 < 9 && 0 <= i2 < 9 && 0 <= j < 9 && 1 <= d <= 9 && #[trigger] placed(s, i1, j, d)
            && #[trigger] placed(s, i2, j, d) implies i1 == i2 by {
        let x = 162 + 9 * j + (d - 1);
        lemma_join(2, j, d - 1);
        lemma_option_cell(x, i1);
        lemma_option_cell(x, i2);
        assert(item_options(x).contains(item_options(x)[i1]));
        assert(item_options(x).contains(item_options(x)[i2]));
        if i1 != i2 {
            lemma_option_name_injective(i1, j, d, i2, j, d);
        }
    }
    assert forall|k: int, m1: int, m2: int, d: int|
        0 <= k < 9 && 0 <= m1 < 9 && 0 <= m2 < 9 && 1 <= d <= 9 && #[trigger] block_placed(s, k, m1, d)
            && #[trigger] block_placed(s, k, m2, d) implies m1 == m2 by {
        let x = 243 + 9 * k + (d - 1);
        lemma_join(3, k, d - 1);
        lemma_option_cell(x, m1);
        lemma_option_cell(x, m2);
        assert(item_options(x).contains(item_options(x)[m1]));
        assert(item_options(x).contains(item_options(x)[m2]));
        if m1 != m2 {
            lemma_item_options_distinct(x);
        }
    }
    lemma_clue_cover(rows, 81);
    assert forall|i: int, j: int|
        0 <= i < 9 && 0 <= j < 9 && 1 <= rows[i]@[j] <= 9 implies #[trigger] placed(s, i, j, rows[i]@[j] as int) by {
        lemma_cell(i, j);
        let clues = clue_names(rows, 81);
        assert(clues.contains(cell_option_name(i, j, rows[i]@[j] as int)));
        let k = choose|k: int| 0 <= k < clues.len() && clues[k] == cell_option_name(i, j, rows[i]@[j] as int);
        assert(names_view(ro)[k] == ro[k]@);
        assert(s.contains(ro[k]@));
    }
}

/// Every clue has its option among the clue options.
proof fn lemma_clue_cover(rows: Seq<Vec<u8>>, c: int)
    requires
        0 <= c <= 81,
    ensures
        forall|p: int|
            0 <= p < c && 1 <= rows[p / 9]@[p % 9] <= 9 ==> clue_names(rows, c).contains(
                #[trigger] cell_option_name(p / 9, p % 9, rows[p / 9]@[p % 9] as int),
            ),
    decreases c,
{
    if c > 0 {
        let q = c - 1;
        lemma_clue_cover(rows, q);
        let prev = clue_names(rows, q);
        let cur = clue_names(rows, c);
        assert forall|p: int| 0 <= p < c && 1 <= rows[p / 9]@[p % 9] <= 9 implies cur.contains(
            #[trigger] cell_option_name(p / 9, p % 9, rows[p / 9]@[p % 9] as int),
        ) by {
            let x = cell_option_name(p / 9, p % 9, rows[p / 9]@[p % 9] as int);
            if p < q {
                let k = choose|k: int| 0 <= k < prev.len() && prev[k] == x;
                assert(cur[k] == x);
            } else {
                assert(cur[prev.len() as int] == x);
            }
        }
    }
}

/// The digit that the names give a cell is the one chosen for it.
proof fn lemma_named_digit(names: Seq<Seq<char>>, i: int, j: int, d: int)
    requires
        0 <= d < 10,
        names.contains(cell_option_name(i, j, d)),
        forall|k: int, d2: int|
            0 <= k < names.len() && 0 <= d2 < 10 && #[trigger] names[k] == #[trigger] cell_option_name(i, j, d2)
                ==> d2 == d,
    ensures
        named_digit(names, i, j) == d,
    decreases names.len(),
{
    let last = names.last();
    if names_cell(last, i, j) {
        let d2 = choose|d2: int| 0 <= d2 < 10 && last == #[trigger] cell_option_name(i, j, d2);
        assert(names[names.len() - 1] == last);
    } else {
        let p = names.drop_last();
        let k = choose|k: int| 0 <= k < names.len() && names[k] == cell_option_name(i, j, d);
        if k == names.len() - 1 {
            assert(last == cell_option_name(i, j, d));
            assert(names_cell(last, i, j));
        }
        assert(p[k] == names[k]);
        assert forall|k2: int, d2: int|
            0 <= k2 < p.len() && 0 <= d2 < 10 && #[trigger] p[k2] == #[trigger] cell_option_name(i, j, d2) implies d2 == d by {
            assert(names[k2] == p[k2]);
        }
        lemma_named_digit(p, i, j, d);
    }
}

/// The options of a completion's cells form a cover of the board's
/// declarations.
proof fn lemma_completion_cover(
    rows: Seq<Vec<u8>>,
    ri: Seq<String>,
    ro: Seq<String>,
    cb: Seq<(String, Vec<String>)>,
    b: Seq<Vec<u8>>,
)
    requires
        is_nine_by_nine(rows),
        declares_board(rows, ri, ro, cb),
        is_completion(rows, b),
    ensures
        is_cover(ri, ro, cb, Set::new(|y: Seq<char>| exists|i: int, j: int|
            0 <= i < 9 && 0 <= j < 9 && y == #[trigger] cell_option_name(i, j, cell_at(b, i, j)))),
{
    let s = Set::new(|y: Seq<char>| exists|i: int, j: int|
            0 <= i < 9 && 0 <= j < 9 && y == #[trigger] cell_option_name(i, j, cell_at(b, i, j)));
    assert(declared_items(cb).len() == 324);
    assert forall|y: Seq<char>| #[trigger] s.contains(y) implies is_declared_option(cb, y) && covers_mandatory_name(ri, cb, y) by {
        let (i, j) = choose|i: int, j: int| 0 <= i < 9 && 0 <= j < 9 && y == #[trigger] cell_option_name(i, j, cell_at(b, i, j));
        let x = 9 * i + j;
        lemma_join(0, i, j);
        lemma_option_cell(x, cell_at(b, i, j) - 1);
        assert(listed_options(cb, x) == item_options(x));
        assert(listed_options(cb, x).contains(y));
        assert(declared_items(cb)[x] == cb[x].0@);
        assert(names_view(ri)[x] == cb[x].0@);
    }
    assert forall|x: int, y1: Seq<char>, y2: Seq<char>|
        0 <= x < cb.len() && s.contains(y1) && s.contains(y2) && #[trigger] listed_options(cb, x).contains(y1)
            && #[trigger] listed_options(cb, x).contains(y2) implies y1 == y2 by {
        assert(listed_options(cb, x) == item_options(x));
        let (i1, j1) = choose|i: int, j: int| 0 <= i < 9 && 0 <= j < 9 && y1 == #[trigger] cell_option_name(i, j, cell_at(b, i, j));
        let (i2, j2) = choose|i: int, j: int| 0 <= i < 9 && 0 <= j < 9 && y2 == #[trigger] cell_option_name(i, j, cell_at(b, i, j));
        let m1 = lemma_listed_cell(x, y1);
        let m2 = lemma_listed_cell(x, y2);
        lemma_option_cell(x, m1);
        lemma_option_cell(x, m2);
        let c1 = option_cell(x, m1);
        let c2 = option_cell(x, m2);
        lemma_option_name_injective(i1, j1, cell_at(b, i1, j1), c1.0, c1.1, c1.2);
        lemma_option_name_injective(i2, j2, cell_at(b, i2, j2), c2.0, c2.1, c2.2);
        lemma_split(x);
        let a = item_first(x);
        if item_kind(x) == 3 {
            assert(block_at(b, a, m1) == cell_at(b, i1, j1));
            assert(block_at(b, a, m2) == cell_at(b, i2, j2));
        }
    }
    assert forall|x: int| 0 <= x < cb.len() && names_view(ri).contains(#[trigger] cb[x].0@) implies exists|y: Seq<char>|
        s.contains(y) && #[trigger] listed_options(cb, x).contains(y) by {
        assert(listed_options(cb, x) == item_options(x));
        lemma_split(x);
        let a = item_first(x);
        let bb = item_second(x);
        let m: int = if item_kind(x) == 0 {
            cell_at(b, a, bb) - 1
        } else if item_kind(x) == 1 {
            assert(row_has(b, a, bb + 1));
            choose|j: int| 0 <= j < 9 && #[trigger] cell_at(b, a, j) == bb + 1
        } else if item_kind(x) == 2 {
            assert(col_has(b, a, bb + 1));
            choose|i: int| 0 <= i < 9 && #[trigger] cell_at(b, i, a) == bb + 1
        } else {
            assert(block_has(b, a, bb + 1));
            choose|m: int| 0 <= m < 9 && #[trigger] block_at(b, a, m) == bb + 1
        };
        lemma_option_cell(x, m);
        let c = option_cell(x, m);
        let y = item_options(x)[m];
        assert(y == cell_option_name(c.0, c.1, cell_at(b, c.0, c.1)));
        assert(s.contains(y));
        assert(listed_options(cb, x).contains(y));
    }
    lemma_clue_names(rows, 81);
    assert forall|k: int| 0 <= k < ro.len() implies s.contains(#[trigger] ro[k]@) by {
        let clues = clue_names(rows, 81);
        assert(names_view(ro)[k] == ro[k]@);
        assert(names_clue(rows, 81, clues[k]));
        let p = choose|p: int| 0 <= p < 81 && #[trigger] is_clue_of(rows, p, clues[k]);
        assert(0 <= p / 9 < 9 && 0 <= p % 9 < 9) by (nonlinear_arith)
            requires
                0 <= p < 81,
        ;
        assert(cell_at(b, p / 9, p % 9) == rows[p / 9]@[p % 9]);
        assert(ro[k]@ == cell_option_name(p / 9, p % 9, cell_at(b, p / 9, p % 9)));
    }
}

/// Solves a board: a completion of it, or None exactly when it has none.
pub fn solve_sudoku_with_exact_cover(board: &Board) -> (r: Option<Board>)
    requires
        is_nine_by_nine(board.0@),
    ensures
        r matches Some(b) ==> is_completion(board.0@, b.0@),
        r is None <==> !exists|b: Seq<Vec<u8>>| is_completion(board.0@, b),
{
    let p = match convert_to_exact_cover_problem(board) {
        Ok(p) => p,
        Err(_) => {
            return None;
        },
    };
    let ghost (ri, ro, cb) = p.declarations@;
    proof {
        p.lemma_names_correspond();
    }
    match p.solve() {
        Some(solution) => {
            let ghost names = names_view(solution.selected_options@);
            let b = convert_to_sudoku_solution(solution);
            proof {
                let s = names.to_set();
                lemma_cover_placements(board.0@, ri, ro, cb, s);
                let bv = b.0@;
                // Each cell holds the digit chosen for it.
                assert forall|i: int, j: int| 0 <= i < 9 && 0 <= j < 9 implies placed(s, i, j, #[trigger] cell_at(bv, i, j)) && 1 <= cell_at(bv, i, j) <= 9 by {
                    assert(cell_chosen(s, i, j));
                    let d = choose|d: int| 1 <= d <= 9 && #[trigger] placed(s, i, j, d);
                    assert forall|k: int, d2: int|
                        0 <= k < names.len() && 0 <= d2 < 10 && #[trigger] names[k] == #[trigger] cell_option_name(i, j, d2) implies d2 == d by {
                        assert(s.contains(names[k]));
                        assert(placed(s, i, j, d2));
                    }
                    lemma_named_digit(names, i, j, d);
                }
                assert forall|i: int, j: int, d: int| 0 <= i < 9 && 0 <= j < 9 && 1 <= d <= 9 && #[trigger] placed(s, i, j, d) implies cell_at(bv, i, j) == d by {
                    assert(placed(s, i, j, cell_at(bv, i, j)));
                }
                assert forall|k: int, d: int| 0 <= k < 9 && 1 <= d <= 9 implies #[trigger] row_has(bv, k, d) by {
                    assert(row_chosen(s, k, d));
                    let j = choose|j: int| 0 <= j < 9 && #[trigger] placed(s, k, j, d);
                    assert(cell_at(bv, k, j) == d);
                }
                assert forall|k: int, d: int| 0 <= k < 9 && 1 <= d <= 9 implies #[trigger] col_has(bv, k, d) by {
                    assert(col_chosen(s, k, d));
                    let i = choose|i: int| 0 <= i < 9 && #[trigger] placed(s, i, k, d);
                    assert(cell_at(bv, i, k) == d);
                }
                assert forall|k: int, d: int| 0 <= k < 9 && 1 <= d <= 9 implies #[trigger] block_has(bv, k, d) by {
                    assert(block_chosen(s, k, d));
                    let m = choose|m: int| 0 <= m < 9 && #[trigger] block_placed(s, k, m, d);
                    assert(0 <= k / 3 * 3 + m / 3 < 9 && 0 <= k % 3 * 3 + m % 3 < 9) by (nonlinear_arith)
                        requires
                            0 <= k < 9,
                            0 <= m < 9,
                    ;
                    assert(block_at(bv, k, m) == d);
                }
                assert forall|k: int, m1: int, m2: int|
                    0 <= k < 9 && 0 <= m1 < 9 && 0 <= m2 < 9 && #[trigger] block_at(bv, k, m1) == #[trigger] block_at(bv, k, m2) implies m1 == m2 by {
                    assert(0 <= k / 3 * 3 + m1 / 3 < 9 && 0 <= k % 3 * 3 + m1 % 3 < 9) by (nonlinear_arith)
                        requires
                            0 <= k < 9,
                            0 <= m1 < 9,
                    ;
                    assert(0 <= k / 3 * 3 + m2 / 3 < 9 && 0 <= k % 3 * 3 + m2 % 3 < 9) by (nonlinear_arith)
                        requires
                            0 <= k < 9,
                            0 <= m2 < 9,
                    ;
                    let d = block_at(bv, k, m1);
                    assert(block_placed(s, k, m1, d));
                    assert(block_placed(s, k, m2, d));
                }
                assert forall|i: int, j: int| 0 <= i < 9 && 0 <= j < 9 && 1 <= board.0@[i]@[j] <= 9 implies #[trigger] cell_at(bv, i, j) == board.0@[i]@[j] by {
                    assert(placed(s, i, j, board.0@[i]@[j] as int));
                }
                assert(is_completion(board.0@, bv));
            }
            Some(b)
        },
        None => {
            proof {
                if exists|b: Seq<Vec<u8>>| is_completion(board.0@, b) {
                    let b = choose|b: Seq<Vec<u8>>| is_completion(board.0@, b);
                    lemma_completion_cover(board.0@, ri, ro, cb, b);
                    let s = Set::new(|y: Seq<char>| exists|i: int, j: int|
                        0 <= i < 9 && 0 <= j < 9 && y == #[trigger] cell_option_name(i, j, cell_at(b, i, j)));
                    assert(p.named_covers().contains(s));
                    vstd::set_lib::lemma_set_empty_equivalency_len(p.named_covers());
                }
            }
            None
        },
    }
}

/// The cell that a character stands for: `.` is empty (0), a digit is its
/// value.
pub open spec fn cell_value(c: char) -> int {
    if c == '.' {
        0
    } else {
        choose|d: int| 0 <= d < 10 && digit_chars()[d] == c
    }
}

/// The characters of a line that stand for cells: all but the spaces.
pub open spec fn cells_of(line: Seq<char>) -> Seq<char>
    decreases line.len(),
{
    if line.len() == 0 {
        Seq::empty()
    } else {
        cells_of(line.drop_last()) + if line.last() == ' ' {
            Seq::empty()
        } else {
            seq![line.last()]
        }
    }
}

/// The fault, if any, met when reading the rest of a line from character
/// `k`, with `j` cells read so far, as board row `t`: a character other than
/// a space, `.` or a digit is invalid; a digit outside the 9 by 9 board,
/// or a line of fewer than 9 cells, is of invalid size.
pub open spec fn line_fault(line: Seq<char>, k: int, j: int, t: int) -> Option<BoardReadError>
    decreases line.len() - k,
{
    if k >= line.len() || k < 0 {
        if j < 9 {
            Some(BoardReadError::InvalidSize)
        } else {
            None
        }
    } else if line[k] == ' ' {
        line_fault(line, k + 1, j, t)
    } else if line[k] == '.' {
        line_fault(line, k + 1, j + 1, t)
    } else if digit_chars().contains(line[k]) {
        if t >= 9 || j >= 9 {
            Some(BoardReadError::InvalidSize)
        } else {
            line_fault(line, k + 1, j + 1, t)
        }
    } else {
        Some(BoardReadError::InvalidCharacter)
    }
}

/// How many of the first `n` lines are not empty.
pub open spec fn rows_before(lines: Seq<String>, n: int) -> int
    decreases n,
{
    if n <= 0 {
        0
    } else {
        rows_before(lines, n - 1) + if lines[n - 1]@.len() == 0 {
            0int
        } else {
            1int
        }
    }
}

/// The fault, if any, met when reading lines `n` on with `t` rows read:
/// empty lines are skipped, each other line is a row, the first faulty row
/// decides, and fewer than 9 rows in all is of invalid size.
pub open spec fn read_fault(lines: Seq<String>, n: int, t: int) -> Option<BoardReadError>
    decreases lines.len() - n,
{
    if n >= lines.len() || n < 0 {
        if t < 9 {
            Some(BoardReadError::InvalidSize)
        } else {
            None
        }
    } else if lines[n]@.len() == 0 {
        read_fault(lines, n + 1, t)
    } else if line_fault(lines[n]@, 0, 0, t) is Some {
        line_fault(lines[n]@, 0, 0, t)
    } else {
        read_fault(lines, n + 1, t + 1)
    }
}

proof fn lemma_rows_before_mono(lines: Seq<String>, n: int, m: int)
    requires
        0 <= n <= m,
    ensures
        rows_before(lines, n) <= rows_before(lines, m),
    decreases m - n,
{
    if n < m {
        lemma_rows_before_mono(lines, n, m - 1);
    }
}

impl Board {
    /// Reads a board from its lines of text: empty lines are skipped, a
    /// space is ignored, `.` is an empty cell and a digit a filled one; each
    /// other line must give 9 cells, and there must be 9 such lines.
    pub fn read_from_lines(lines: &Vec<String>) -> (r: Result<Board, BoardReadError>)
        ensures
            r matches Err(e) ==> read_fault(lines@, 0, 0) == Some(e),
            r is Ok <==> read_fault(lines@, 0, 0) is None,
            r matches Ok(b) ==> is_nine_by_nine(b.0@) && forall|n: int, c: int|
                0 <= n < lines@.len() && lines@[n]@.len() > 0 && rows_before(lines@, n) < 9 && 0 <= c < 9
                    ==> #[trigger] b.0@[rows_before(lines@, n)]@[c] as int == cell_value(
                    cells_of(lines@[n]@)[c],
                ),
    {
        let mut vecs: Vec<Vec<u8>> = Vec::new();
        let mut a: usize = 0;
        while a < 9
            invariant
                a <= 9,
                vecs@.len() == a,
                forall|k: int| 0 <= k < a ==> (#[trigger] vecs@[k])@.len() == 9,
                forall|k: int, c: int| 0 <= k < a && 0 <= c < 9 ==> vecs@[k]@[c] == 0,
            decreases 9 - a,
        {
            let mut row: Vec<u8> = Vec::new();
            let mut b: usize = 0;
            while b < 9
                invariant
                    b <= 9,
                    row@.len() == b,
                    forall|c: int| 0 <= c < b ==> row@[c] == 0,
                decreases 9 - b,
            {
                row.push(0);
                b = b + 1;
            }
            vecs.push(row);
            a = a + 1;
        }
        let mut i: usize = 0;
        let mut line_no: usize = 0;
        while line_no < lines.len()
            invariant
                line_no <= lines@.len(),
                i <= line_no,
                i as int == rows_before(lines@, line_no as int),
                read_fault(lines@, 0, 0) == read_fault(lines@, line_no as int, i as int),
                is_nine_by_nine(vecs@),
                forall|r2: int, c: int| i <= r2 < 9 && 0 <= c < 9 ==> #[trigger] vecs@[r2]@[c] == 0,
                forall|n: int, c: int|
                    0 <= n < line_no && lines@[n]@.len() > 0 && rows_before(lines@, n) < 9 && 0 <= c < 9
                        ==> #[trigger] vecs@[rows_before(lines@, n)]@[c] as int == cell_value(
                        cells_of(lines@[n]@)[c],
                    ),
            decreases lines@.len() - line_no,
        {
            let s = lines[line_no].as_str();
            let ghost line = lines@[line_no as int]@;
            let n = s.unicode_len();
            if n > 0 {
                let mut j: usize = 0;
                let mut k: usize = 0;
                let ghost before = vecs@;
                while k < n
                    invariant
                        n == s@.len(),
                        line == s@,
                        k <= n,
                        j <= k,
                        j as int == cells_of(line.take(k as int)).len(),
                        line_fault(line, 0, 0, i as int) == line_fault(line, k as int, j as int, i as int),
                        is_nine_by_nine(vecs@),
                        forall|r2: int| 0 <= r2 < 9 && r2 != i ==> #[trigger] vecs@[r2] == before[r2],
                        forall|c: int| j <= c < 9 && i < 9 ==> #[trigger] vecs@[i as int]@[c] == 0,
                        i == rows_before(lines@, line_no as int),
                        read_fault(lines@, 0, 0) == read_fault(lines@, line_no as int, i as int),
                        line == lines@[line_no as int]@,
                        line.len() > 0,
                        line_no < lines@.len(),
                        forall|c: int|
                            0 <= c < j && c < 9 && i < 9 ==> #[trigger] vecs@[i as int]@[c] as int == cell_value(
                                cells_of(line.take(k as int))[c],
                            ),
                    decreases n - k,
                {
                    let ch = s.get_char(k);
                    let ghost pre = vecs@;
                    proof {
                        assert(line.take(k as int + 1).drop_last() =~= line.take(k as int));
                        assert(line.take(k as int + 1).last() == ch);
                    }
                    if ch == ' ' {
                    } else if ch == '.' {
                        j = j + 1;
                    } else {
                        match digit_value(ch) {
                            Some(d) => {
                                assert(digit_chars()[d as int] == ch);
                                assert(digit_chars().contains(ch));
                                if i >= 9 || j >= 9 {
                                    proof {
                                        assert(line[k as int] == ch);
                                        assert(line_fault(line, k as int, j as int, i as int) == Some(
                                            BoardReadError::InvalidSize,
                                        ));
                                        assert(read_fault(lines@, line_no as int, i as int) == line_fault(
                                            line,
                                            0,
                                            0,
                                            i as int,
                                        ));
                                    }
                                    return Err(BoardReadError::InvalidSize);
                                }
                                vecs[i].set(j, d);
                                proof {
                                    crate::text::lemma_digit_chars();
                                    let e = choose|e: int| 0 <= e < 10 && digit_chars()[e] == ch;
                                    assert(e == d);
                                }
                                j = j + 1;
                            },
                            None => {
                                proof {
                                    assert(line[k as int] == ch);
                                    assert(line_fault(line, k as int, j as int, i as int) == Some(
                                        BoardReadError::InvalidCharacter,
                                    ));
                                    assert(read_fault(lines@, line_no as int, i as int) == line_fault(
                                        line,
                                        0,
                                        0,
                                        i as int,
                                    ));
                                }
                                return Err(BoardReadError::InvalidCharacter);
                            },
                        }
                    }
                    proof {
                        let c1 = cells_of(line.take(k as int + 1));
                        let c0 = cells_of(line.take(k as int));
                        assert forall|c: int|
                            0 <= c < j && c < 9 && i < 9 implies #[trigger] vecs@[i as int]@[c] as int == cell_value(
                                c1[c],
                            ) by {
                            if c < c0.len() {
                                assert(c1[c] == c0[c]);
                            }
                        }
                    }
                    k = k + 1;
                }
                proof {
                    assert(line.take(n as int) =~= line);
                }
                if j < 9 {
                    return Err(BoardReadError::InvalidSize);
                }
                proof {
                    assert forall|m: int, c: int|
                        0 <= m < line_no + 1 && lines@[m]@.len() > 0 && rows_before(lines@, m) < 9 && 0 <= c < 9
                            implies #[trigger] vecs@[rows_before(lines@, m)]@[c] as int == cell_value(
                            cells_of(lines@[m]@)[c],
                        ) by {
                        if m < line_no {
                            lemma_rows_before_mono(lines@, m + 1, line_no as int);
                            lemma_rows_before_mono(lines@, 0, m);
                            assert(rows_before(lines@, m + 1) == rows_before(lines@, m) + 1);
                            assert(vecs@[rows_before(lines@, m)] == before[rows_before(lines@, m)]);
                        }
                    }
                }
                i = i + 1;
            }
            proof {
                assert(rows_before(lines@, line_no as int + 1) == i);
            }
            line_no = line_no + 1;
        }
        if i < 9 {
            return Err(BoardReadError::InvalidSize);
        }
        Ok(Board(vecs))
    }
}

/// The decimal digits of `v`.
pub open spec fn decimal(v: u8) -> Seq<char> {
    if v < 10 {
        seq![digit_chars()[v as int]]
    } else if v < 100 {
        seq![digit_chars()[(v / 10) as int], digit_chars()[(v % 10) as int]]
    } else {
        seq![
            digit_chars()[(v / 100) as int],
            digit_chars()[(v / 10 % 10) as int],
            digit_chars()[(v % 10) as int],
        ]
    }
}

/// The text of a cell: `.` when empty, else its number.
pub open spec fn cell_text(v: u8) -> Seq<char> {
    if v == 0 {
        seq!['.']
    } else {
        decimal(v)
    }
}

/// A space after the third and the sixth entry.
pub open spec fn gap(k: int, c: char) -> Seq<char> {
    if k == 2 || k == 5 {
        seq![c]
    } else {
        Seq::empty()
    }
}

/// The text of a row: its cells, with a space after each third one.
pub open spec fn row_text(row: Seq<u8>) -> Seq<char>
    decreases row.len(),
{
    if row.len() == 0 {
        Seq::empty()
    } else {
        row_text(row.drop_last()) + cell_text(row.last()) + gap(row.len() - 1, ' ')
    }
}

/// The text of a board: each row's text and a newline, with an empty line
/// after each third row.
pub open spec fn board_text(rows: Seq<Vec<u8>>) -> Seq<char>
    decreases rows.len(),
{
    if rows.len() == 0 {
        Seq::empty()
    } else {
        board_text(rows.drop_last()) + row_text(rows.last()@).push('\n') + gap(
            rows.len() - 1,
            '\n',
        )
    }
}

fn push_cell(out: &mut String, v: u8)
    ensures
        final(out)@ == old(out)@ + cell_text(v),
{
    if v == 0 {
        push_char(out, '.');
    } else if v < 10 {
        push_char(out, digit_char(v));
    } else if v < 100 {
        push_char(out, digit_char(v / 10));
        push_char(out, digit_char(v % 10));
    } else {
        push_char(out, digit_char(v / 100));
        push_char(out, digit_char(v / 10 % 10));
        push_char(out, digit_char(v % 10));
    }
    proof {
        assert(final(out)@ =~= old(out)@ + cell_text(v));
    }
}

impl Board {
    /// The board as text, with a space between groups of three cells and an
    /// empty line between groups of three rows.
    pub fn to_string(&self) -> (r: String)
        ensures
            r@ == board_text(self.0@),
    {
        let mut out = String::new();
        let mut r: usize = 0;
        while r < self.0.len()
            invariant
                r <= self.0@.len(),
                out@ == board_text(self.0@.take(r as int)),
            decreases self.0@.len() - r,
        {
            let row = &self.0[r];
            let ghost base = out@;
            let mut c: usize = 0;
            while c < row.len()
                invariant
                    c <= row@.len(),
                    out@ == base + row_text(row@.take(c as int)),
                decreases row@.len() - c,
            {
                push_cell(&mut out, row[c]);
                if c == 2 || c == 5 {
                    push_char(&mut out, ' ');
                }
                proof {
                    assert(row@.take(c as int + 1).drop_last() =~= row@.take(c as int));
                    assert(out@ =~= base + row_text(row@.take(c as int + 1)));
                }
                c = c + 1;
            }
            push_char(&mut out, '\n');
            if r == 2 || r == 5 {
                push_char(&mut out, '\n');
            }
            proof {
                assert(row@.take(row@.len() as int) =~= row@);
                assert(self.0@.take(r as int + 1).drop_last() =~= self.0@.take(r as int));
                assert(out@ =~= board_text(self.0@.take(r as int + 1)));
            }
            r = r + 1;
        }
        proof {
            assert(self.0@.take(self.0@.len() as int) =~= self.0@);
        }
        out
    }
}

} // verus!
