//! Finding each node's nearest neighbours on a grid.
//!
//! The grid is given as lines of `0` (a node) and `.` (empty). For every
//! node the solver reports the nearest node to its right and the nearest
//! node below it, or `-1 -1` when there is none.
use vstd::prelude::*;
use vstd::string::*;
use crate::text::{append_decimal, append_str, decimal};

verus! {

broadcast use vstd::string::group_string_axioms;

/// The characters of every line.
pub open spec fn grid_of(lines: Seq<String>) -> Seq<Seq<char>> {
    Seq::new(lines.len(), |y: int| lines[y]@)
}

/// Every line is ASCII, so its length in bytes is its number of characters.
pub open spec fn all_ascii(lines: Seq<String>) -> bool {
    forall|y: int| 0 <= y < lines.len() ==> #[trigger] lines[y].is_ascii()
}

/// There is a node at column `x` of line `y`.
pub open spec fn spec_has_cell(grid: Seq<Seq<char>>, x: int, y: int) -> bool {
    0 <= y < grid.len() && 0 <= x < grid[y].len() && grid[y][x] == '0'
}

/// The length of the longest line.
pub open spec fn max_len(grid: Seq<Seq<char>>) -> nat
    decreases grid.len(),
{
    if grid.len() == 0 {
        0
    } else {
        let rest = max_len(grid.drop_last());
        if grid.last().len() > rest {
            grid.last().len()
        } else {
            rest
        }
    }
}

/// No line is longer than the longest line.
pub proof fn lemma_max_len(grid: Seq<Seq<char>>, y: int)
    requires
        0 <= y < grid.len(),
    ensures
        grid[y].len() <= max_len(grid),
    decreases grid.len(),
{
    if y < grid.len() - 1 {
        lemma_max_len(grid.drop_last(), y);
        assert(grid.drop_last()[y] == grid[y]);
    }
}

/// How far `v` is below `bound`, or zero.
pub open spec fn remaining(bound: int, v: int) -> int {
    if v < bound {
        bound - v
    } else {
        0
    }
}

/// An ASCII string has as many bytes as characters.
pub proof fn lemma_ascii_len(s: &str)
    requires
        vstd::utf8::is_ascii_chars(s@),
    ensures
        s.spec_bytes().len() == s@.len(),
{
    assert(vstd::string::is_ascii(s));
    vstd::string::is_ascii_spec_bytes(s);
}

/// The node found by walking from (`x`, `y`) in steps of (`dx`, `dy`): the
/// first node after the start, or none once the walk leaves the line it is on
/// or the grid.
pub open spec fn walk(grid: Seq<Seq<char>>, x: int, y: int, dx: int, dy: int) -> Option<(int, int)>
    decreases (if dx > 0 {
        remaining(max_len(grid) as int, x)
    } else {
        remaining(grid.len() as int, y)
    }),
    when 0 <= x && 0 <= y && 0 <= dx && 0 <= dy && dx + dy > 0
{
    if y >= grid.len() || x >= grid[y].len() {
        None
    } else if spec_has_cell(grid, x + dx, y + dy) {
        Some((x + dx, y + dy))
    } else {
        proof {
            lemma_max_len(grid, y);
        }
        walk(grid, x + dx, y + dy, dx, dy)
    }
}

/// How a found node is written: its column and row, or `-1 -1`.
pub open spec fn found_text(f: Option<(int, int)>) -> Seq<char> {
    match f {
        Some((x, y)) => decimal(x as nat) + " "@ + decimal(y as nat),
        None => "-1 -1"@,
    }
}

/// The report line of the node at (`x`, `y`): its coordinates, its right
/// neighbour and its neighbour below.
pub open spec fn node_text(grid: Seq<Seq<char>>, x: int, y: int) -> Seq<char> {
    decimal(x as nat) + " "@ + decimal(y as nat) + " "@ + found_text(walk(grid, x, y, 1, 0)) + " "@
        + found_text(walk(grid, x, y, 0, 1))
}

/// The report lines of the nodes among the first `n` columns of line `y`.
pub open spec fn row_report(grid: Seq<Seq<char>>, y: int, n: int) -> Seq<Seq<char>>
    decreases n,
{
    if n <= 0 {
        Seq::empty()
    } else if grid[y][n - 1] == '0' {
        row_report(grid, y, n - 1).push(node_text(grid, n - 1, y))
    } else {
        row_report(grid, y, n - 1)
    }
}

/// The report lines of the nodes of the first `n` lines, line by line.
pub open spec fn report(grid: Seq<Seq<char>>, n: int) -> Seq<Seq<char>>
    decreases n,
{
    if n <= 0 {
        Seq::empty()
    } else {
        report(grid, n - 1) + row_report(grid, n - 1, grid[n - 1].len() as int)
    }
}

/// Every line's length fits in a `usize`, as the length of any string does.
pub open spec fn lines_fit(lines: Seq<String>) -> bool {
    forall|y: int| 0 <= y < lines.len() ==> #[trigger] lines[y]@.len() <= usize::MAX
}

/// The walks of every node fit in a `usize`.
pub open spec fn steps_fit(lines: Seq<String>, dx: int, dy: int) -> bool {
    &&& lines.len() + dy <= usize::MAX
    &&& forall|y: int| 0 <= y < lines.len() ==> #[trigger] lines[y]@.len() + dx <= usize::MAX
}

/// Whether there is a node at column `x` of line `y`.
pub fn has_cell(x: usize, y: usize, lines: &Vec<String>) -> (r: bool)
    requires
        all_ascii(lines@),
        lines_fit(lines@),
    ensures
        r == spec_has_cell(grid_of(lines@), x as int, y as int),
{
    if y < lines.len() {
        let line = lines[y].as_str();
        assert(lines@[y as int].is_ascii());
        proof {
            lemma_ascii_len(line);
            assert(lines@[y as int]@.len() <= usize::MAX);
        }
        assert(grid_of(lines@)[y as int] == line@);
        if x < line.len() {
            line.get_char(x) == '0'
        } else {
            false
        }
    } else {
        false
    }
}

/// The nearest node from (`x`, `y`) in steps of (`offset_x`, `offset_y`),
/// written as its column and row, or `-1 -1` when there is none.
pub fn search(x: usize, y: usize, offset_x: usize, offset_y: usize, lines: &Vec<String>) -> (r: String)
    requires
        all_ascii(lines@),
        offset_x + offset_y > 0,
        steps_fit(lines@, offset_x as int, offset_y as int),
    ensures
        r@ == found_text(walk(grid_of(lines@), x as int, y as int, offset_x as int, offset_y as int)),
    decreases (if offset_x > 0 {
        remaining(max_len(grid_of(lines@)) as int, x as int)
    } else {
        remaining(lines@.len() as int, y as int)
    }),
{
    let ghost grid = grid_of(lines@);
    if y >= lines.len() {
        return String::from_str("-1 -1");
    }
    let line = lines[y].as_str();
    assert(lines@[y as int].is_ascii());
    proof {
        lemma_ascii_len(line);
    }
    if x >= line.len() {
        String::from_str("-1 -1")
    } else if has_cell(x + offset_x, y + offset_y, lines) {
        let mut r = String::new();
        append_decimal(&mut r, (x + offset_x) as u64);
        append_str(&mut r, " ");
        append_decimal(&mut r, (y + offset_y) as u64);
        assert(r@ =~= found_text(walk(grid, x as int, y as int, offset_x as int, offset_y as int)));
        r
    } else {
        proof {
            lemma_max_len(grid, y as int);
        }
        search(x + offset_x, y + offset_y, offset_x, offset_y, lines)
    }
}

/// The report line of every node: its column and row, then its right
/// neighbour and its neighbour below, each as `x y` or `-1 -1`.
pub fn node_report(lines: &Vec<String>) -> (r: Vec<String>)
    requires
        all_ascii(lines@),
        steps_fit(lines@, 1, 1),
    ensures
        r@.map_values(|s: String| s@) == report(grid_of(lines@), lines@.len() as int),
{
    let ghost grid = grid_of(lines@);
    let mut out: Vec<String> = Vec::new();
    let mut y: usize = 0;
    while y < lines.len()
        invariant
            grid == grid_of(lines@),
            all_ascii(lines@),
            steps_fit(lines@, 1, 1),
            y <= lines@.len(),
            out@.map_values(|s: String| s@) == report(grid, y as int),
        decreases lines@.len() - y,
    {
        let line = lines[y].as_str();
        assert(lines@[y as int].is_ascii());
        proof {
            lemma_ascii_len(line);
        }
        let count = line.len();
        let mut x: usize = 0;
        let ghost before = out@.map_values(|s: String| s@);
        while x < count
            invariant
                grid == grid_of(lines@),
                all_ascii(lines@),
                steps_fit(lines@, 1, 1),
                y < lines@.len(),
                line@ == grid[y as int],
                count == grid[y as int].len(),
                x <= count,
                before == report(grid, y as int),
                out@.map_values(|s: String| s@) == before + row_report(grid, y as int, x as int),
            decreases count - x,
        {
            let ghost prev = out@;
            if line.get_char(x) == '0' {
                let right = search(x, y, 1, 0, lines);
                let down = search(x, y, 0, 1, lines);
                let mut text = String::new();
                append_decimal(&mut text, x as u64);
                append_str(&mut text, " ");
                append_decimal(&mut text, y as u64);
                append_str(&mut text, " ");
                append_str(&mut text, right.as_str());
                append_str(&mut text, " ");
                append_str(&mut text, down.as_str());
                assert(text@ =~= node_text(grid, x as int, y as int));
                out.push(text);
                assert(out@.map_values(|s: String| s@) =~= prev.map_values(|s: String| s@).push(text@));
            }
            x = x + 1;
            assert(out@.map_values(|s: String| s@) =~= before + row_report(grid, y as int, x as int));
        }
        y = y + 1;
        assert(out@.map_values(|s: String| s@) =~= report(grid, y as int));
    }
    out
}

/// The walk down finds the nearest node below: when a node lies below
/// (`x`, `y`) in the same column, every line from `y` down to it reaches
/// column `x`, and no node lies between them, the walk finds that node.
pub proof fn lemma_walk_below_complete(grid: Seq<Seq<char>>, x: int, y: int, b: int)
    requires
        0 <= x,
        0 <= y < b,
        spec_has_cell(grid, x, b),
        forall|j: int| y <= j < b ==> x < (#[trigger] grid[j]).len(),
        forall|j: int| y < j < b ==> !spec_has_cell(grid, x, j),
    ensures
        walk(grid, x, y, 0, 1) == Some((x, b)),
    decreases b - y,
{
    assert(x < grid[y].len());
    if !spec_has_cell(grid, x, y + 1) {
        lemma_walk_below_complete(grid, x, y + 1, b);
    }
}

/// The walk right finds the nearest node to the right: when a node lies to
/// the right of (`x`, `y`) on the same line with no node between them, the
/// walk finds that node.
pub proof fn lemma_walk_right_complete(grid: Seq<Seq<char>>, x: int, y: int, a: int)
    requires
        0 <= x < a,
        0 <= y,
        spec_has_cell(grid, a, y),
        forall|j: int| x < j < a ==> !spec_has_cell(grid, j, y),
    ensures
        walk(grid, x, y, 1, 0) == Some((a, y)),
    decreases a - x,
{
    if !spec_has_cell(grid, x + 1, y) {
        lemma_walk_right_complete(grid, x + 1, y, a);
    }
}

/// The right neighbour found from a node is a node further right on the
/// same line, with no node between them.
pub proof fn lemma_right_neighbour(grid: Seq<Seq<char>>, x: int, y: int)
    requires
        0 <= x,
        0 <= y,
    ensures
        walk(grid, x, y, 1, 0) matches Some((a, b)) ==> {
            &&& spec_has_cell(grid, a, b)
            &&& b == y
            &&& x < a
            &&& forall|j: int| x < j < a ==> !spec_has_cell(grid, j, y)
        },
    decreases remaining(max_len(grid) as int, x),
{
    if y >= grid.len() || x >= grid[y].len() {
    } else if spec_has_cell(grid, x + 1, y) {
    } else {
        lemma_max_len(grid, y);
        lemma_right_neighbour(grid, x + 1, y);
    }
}

/// The neighbour found below a node is a node further down in the same
/// column, with no node between them.
pub proof fn lemma_neighbour_below(grid: Seq<Seq<char>>, x: int, y: int)
    requires
        0 <= x,
        0 <= y,
    ensures
        walk(grid, x, y, 0, 1) matches Some((a, b)) ==> {
            &&& spec_has_cell(grid, a, b)
            &&& a == x
            &&& y < b
            &&& forall|j: int| y < j < b ==> !spec_has_cell(grid, x, j)
        },
    decreases remaining(grid.len() as int, y),
{
    if y >= grid.len() || x >= grid[y].len() {
    } else if spec_has_cell(grid, x, y + 1) {
    } else {
        lemma_neighbour_below(grid, x, y + 1);
    }
}

} // verus!
