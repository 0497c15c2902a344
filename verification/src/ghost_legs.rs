//! Following the lines of a ghost-legs diagram.
//!
//! The first line of the diagram names its columns; the lines below draw
//! vertical legs `|` and horizontal rungs `-`. Columns are numbered from 1
//! in the order of their names. Each column keeps the list of the numbers of
//! the columns whose walker stands on it; a rung to the right of column `n`
//! swaps the lists of columns `n` and `n + 1` (and, when column `n + 1` has
//! no list yet, copies the list of column `n` into it).
use vstd::prelude::*;
use std::collections::HashMap;
use vstd::std_specs::hash::group_hash_axioms;

verus! {

broadcast use group_hash_axioms;

/// The lists of a table of columns, as sequences.
pub open spec fn columns_view(m: Map<i32, Vec<i32>>) -> Map<i32, Seq<i32>> {
    Map::new(|k: i32| m.contains_key(k), |k: i32| m[k]@)
}

/// The columns after a rung to the right of column `current`.
pub open spec fn cross(m: Map<i32, Seq<i32>>, current: i32) -> Map<i32, Seq<i32>> {
    let moved = m.insert((current + 1) as i32, m[current]);
    if m.contains_key((current + 1) as i32) {
        moved.insert(current, m[(current + 1) as i32])
    } else {
        moved
    }
}

/// The columns and the current column number after the first `n`
/// characters of a line: a leg moves to the next column, a rung crosses.
pub open spec fn line_state(m: Map<i32, Seq<i32>>, line: Seq<char>, n: int) -> (Map<i32, Seq<i32>>, i32)
    decreases n,
{
    if n <= 0 {
        (m, 0)
    } else {
        let (cols, current) = line_state(m, line, n - 1);
        if line[n - 1] == '|' {
            (cols, (current + 1) as i32)
        } else if line[n - 1] == '-' {
            (cross(cols, current), current)
        } else {
            (cols, current)
        }
    }
}

/// Every rung of the line starts from a column that has a list.
pub open spec fn line_ok(m: Map<i32, Seq<i32>>, line: Seq<char>) -> bool {
    forall|n: int|
        0 <= n < line.len() && line[n] == '-' ==> (#[trigger] line_state(m, line, n)).0.contains_key(
            line_state(m, line, n).1,
        )
}

/// The names of the columns: the characters of the first line other than spaces.
pub open spec fn column_names(first_line: Seq<char>) -> Seq<char> {
    first_line.filter(not_space())
}

/// Whether a character is not a space.
pub open spec fn not_space() -> spec_fn(char) -> bool {
    |c: char| c != ' '
}

/// The starting columns for `k` names: column `n` holds the list `[n]`.
pub open spec fn initial_columns(k: int) -> Map<i32, Seq<i32>> {
    Map::new(|n: i32| 1 <= n <= k, |n: i32| seq![n])
}

/// The starting lists of the columns, and the name of every column number.
pub fn number_columns(first_line: &Vec<char>) -> (r: (HashMap<i32, Vec<i32>>, HashMap<i32, char>))
    requires
        first_line@.len() < i32::MAX,
    ensures
        columns_view(r.0@) == initial_columns(column_names(first_line@).len() as int),
        r.1@ == Map::new(
            |n: i32| 1 <= n <= column_names(first_line@).len(),
            |n: i32| column_names(first_line@)[n - 1],
        ),
{
    let mut results: HashMap<i32, Vec<i32>> = HashMap::new();
    let mut conversion_table: HashMap<i32, char> = HashMap::new();
    let mut current_number: i32 = 1;
    let mut i: usize = 0;
    while i < first_line.len()
        invariant
            first_line@.len() < i32::MAX,
            i <= first_line@.len(),
            current_number as int == column_names(first_line@.subrange(0, i as int)).len() + 1,
            columns_view(results@) == initial_columns(current_number - 1),
            conversion_table@ == Map::new(
                |n: i32| 1 <= n < current_number,
                |n: i32| column_names(first_line@.subrange(0, i as int))[n - 1],
            ),
        decreases first_line@.len() - i,
    {
        let c = first_line[i];
        let ghost names_before = column_names(first_line@.subrange(0, i as int));
        proof {
            assert(first_line@.subrange(0, i + 1) =~= first_line@.subrange(0, i as int).push(c));
            first_line@.subrange(0, i as int).lemma_filter_push(c, not_space());
        }
        if c != ' ' {
            let mut numbers_on_this_column: Vec<i32> = Vec::new();
            numbers_on_this_column.push(current_number);
            assert(numbers_on_this_column@ == seq![current_number]);
            let ghost before = results@;
            results.insert(current_number, numbers_on_this_column);
            assert(results@ == before.insert(current_number, numbers_on_this_column));
            assert(columns_view(results@) =~= initial_columns(current_number as int)) by {
                assert forall|n: i32| #[trigger] columns_view(results@).contains_key(n) == initial_columns(current_number as int).contains_key(n) by {
                    if n != current_number {
                        assert(results@.contains_key(n) == before.contains_key(n));
                        assert(columns_view(before).contains_key(n) == initial_columns(current_number - 1).contains_key(n));
                    }
                }
                assert forall|n: i32| #[trigger] columns_view(results@).contains_key(n) implies columns_view(results@)[n] == initial_columns(current_number as int)[n] by {
                    if n != current_number {
                        assert(columns_view(before).contains_key(n));
                        assert(columns_view(before)[n] == initial_columns(current_number - 1)[n]);
                    }
                }
            }
            conversion_table.insert(current_number, c);
            current_number = current_number + 1;
        }
        i = i + 1;
        proof {
            let names = column_names(first_line@.subrange(0, i as int));
            assert(names =~= if c != ' ' { names_before.push(c) } else { names_before });
            assert(columns_view(results@) =~= initial_columns(current_number - 1));
            assert(conversion_table@ =~= Map::new(
                |n: i32| 1 <= n < current_number,
                |n: i32| names[n - 1],
            ));
        }
    }
    assert(first_line@.subrange(0, first_line@.len() as int) =~= first_line@);
    (results, conversion_table)
}

/// A copy of a list of numbers.
fn copy_numbers(v: &Vec<i32>) -> (r: Vec<i32>)
    ensures
        r@ == v@,
{
    let mut r: Vec<i32> = Vec::new();
    let mut i: usize = 0;
    while i < v.len()
        invariant
            i <= v.len(),
            r@ == v@.subrange(0, i as int),
        decreases v.len() - i,
    {
        r.push(v[i]);
        i = i + 1;
        assert(r@ =~= v@.subrange(0, i as int));
    }
    assert(v@.subrange(0, v.len() as int) =~= v@);
    r
}

/// Follows one line of the diagram: every leg moves on to the next column,
/// every rung swaps the lists of the columns on either side of it.
pub fn cross_line(results: &mut HashMap<i32, Vec<i32>>, line: &Vec<char>)
    requires
        line@.len() < i32::MAX,
        line_ok(columns_view(old(results)@), line@),
    ensures
        columns_view(final(results)@) == line_state(columns_view(old(results)@), line@, line@.len() as int).0,
{
    let ghost m0 = columns_view(results@);
    let mut current_number: i32 = 0;
    let mut i: usize = 0;
    while i < line.len()
        invariant
            line@.len() < i32::MAX,
            i <= line@.len(),
            line_ok(m0, line@),
            0 <= current_number <= i,
            (columns_view(results@), current_number) == line_state(m0, line@, i as int),
        decreases line@.len() - i,
    {
        let c = line[i];
        if c == '|' {
            current_number = current_number + 1;
        }
        if c == '-' {
            let ghost before = columns_view(results@);
            assert(line_state(m0, line@, i as int).0.contains_key(line_state(m0, line@, i as int).1));
            let opt_numbers_to_move_down: Option<Vec<i32>> = match results.get(&(current_number + 1)) {
                Some(ns) => Some(copy_numbers(ns)),
                None => None,
            };
            let moving = match results.get(&current_number) {
                Some(ns) => copy_numbers(ns),
                None => Vec::new(),
            };
            results.insert(current_number + 1, moving);
            if let Some(ns) = opt_numbers_to_move_down {
                results.insert(current_number, ns);
            }
            assert(columns_view(results@) =~= cross(before, current_number));
        }
        i = i + 1;
    }
}

/// A rung between two columns that both have lists swaps them, so crossing
/// the same rung twice gives back the columns.
pub proof fn lemma_cross_twice(m: Map<i32, Seq<i32>>, current: i32)
    requires
        current < i32::MAX,
        m.contains_key(current),
        m.contains_key((current + 1) as i32),
    ensures
        cross(cross(m, current), current) == m,
        cross(m, current)[current] == m[(current + 1) as i32],
        cross(m, current)[(current + 1) as i32] == m[current],
{
    assert(cross(cross(m, current), current) =~= m);
}

} // verus!
