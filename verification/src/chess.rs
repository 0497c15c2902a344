//! Finding the winner on a final chess board.
//!
//! Each square of an 8x8 board holds a piece letter (upper case for white,
//! lower case for black) or `.`. Every piece marks the squares it threatens;
//! a king can be saved when its own square or one of the squares it can step
//! to is not threatened. The winner is the side whose king can be saved while
//! the other cannot; otherwise there is none.
use vstd::prelude::*;
use vstd::string::*;
use crate::text::{append_str, bool_string, bool_text, push_char};

verus! {

/// Number of cells on one side of the board.
pub const BOARD_SIDE: usize = 8;

/// A displacement on the board, in columns and rows.
#[derive(Clone, Copy, Debug, PartialEq, Eq, Structural)]
pub struct Offset {
    pub col: i8,
    pub row: i8,
}

/// A kind of piece: its colour, its letter, and the directions it moves in,
/// each direction a list of offsets from the nearest to the farthest.
#[derive(Debug)]
pub struct Piece {
    pub white: bool,
    pub c: char,
    pub allowed_moves: Vec<Vec<Offset>>,
}

/// The offset turned by a quarter turn.
pub open spec fn quarter(o: Offset) -> Offset {
    Offset { col: (-o.row) as i8, row: o.col }
}

/// The offset turned by a half turn.
pub open spec fn half(o: Offset) -> Offset {
    Offset { col: (-o.col) as i8, row: (-o.row) as i8 }
}

/// The offset turned by three quarter turns.
pub open spec fn three_quarters(o: Offset) -> Offset {
    Offset { col: o.row, row: (-o.col) as i8 }
}

/// An offset whose coordinates can be negated in an `i8`.
pub open spec fn turnable(o: Offset) -> bool {
    o.col > i8::MIN && o.row > i8::MIN
}

/// Every offset of a list can be turned.
pub open spec fn all_turnable(s: Seq<Offset>) -> bool {
    forall|i: int| 0 <= i < s.len() ==> turnable(#[trigger] s[i])
}

/// The four turns of a list of offsets: as it is, and turned by one, two and
/// three quarter turns.
pub open spec fn axes(s: Seq<Offset>) -> Seq<Seq<Offset>> {
    seq![
        s,
        s.map_values(|o: Offset| quarter(o)),
        s.map_values(|o: Offset| half(o)),
        s.map_values(|o: Offset| three_quarters(o)),
    ]
}

/// The directions of a piece, each as a sequence of offsets.
pub open spec fn moves_of(v: Seq<Vec<Offset>>) -> Seq<Seq<Offset>> {
    Seq::new(v.len(), |i: int| v[i]@)
}

/// The first character of the upper-case mapping of a character.
pub uninterp spec fn upper_first(c: char) -> char;

/// The first character of the lower-case mapping of a character.
pub uninterp spec fn lower_first(c: char) -> char;

/// Whether a character is ASCII.
pub open spec fn is_ascii_char(c: char) -> bool {
    (c as int) < 128
}

/// The first character of the upper-case mapping of `c`.
///
/// Trusted: calls `char::to_uppercase` and takes the first character. std
/// documents that the iterator yields at least one character (the character
/// itself when it has no upper-case mapping), so `unwrap` cannot fail, and
/// that a one-to-one mapping of the Unicode database is yielded as is: an
/// ASCII lower-case letter becomes its upper-case letter, any other ASCII
/// character stays. The result for other characters is only named.
#[verifier::external_body]
fn to_upper_char(c: char) -> (r: char)
    ensures
        r == upper_first(c),
        'a' <= c <= 'z' ==> r as int == c as int - 32,
        is_ascii_char(c) && !('a' <= c <= 'z') ==> r == c,
{
    c.to_uppercase().next().unwrap()
}

/// The first character of the lower-case mapping of `c`.
///
/// Trusted: calls `char::to_lowercase` and takes the first character. std
/// documents that the iterator yields at least one character (the character
/// itself when it has no lower-case mapping), so `unwrap` cannot fail, and
/// that a one-to-one mapping of the Unicode database is yielded as is: an
/// ASCII upper-case letter becomes its lower-case letter, any other ASCII
/// character stays. The result for other characters is only named.
#[verifier::external_body]
fn to_lower_char(c: char) -> (r: char)
    ensures
        r == lower_first(c),
        'A' <= c <= 'Z' ==> r as int == c as int + 32,
        is_ascii_char(c) && !('A' <= c <= 'Z') ==> r == c,
{
    c.to_lowercase().next().unwrap()
}

/// A copy of a list of offsets.
fn copy_offsets(v: &Vec<Offset>) -> (r: Vec<Offset>)
    ensures
        r@ == v@,
{
    let mut r: Vec<Offset> = Vec::new();
    let mut i: usize = 0;
    while i < v.len()
        invariant
            i <= v.len(),
            r@ == v@.subrange(0, i as int),
        decreases v.len() - i,
    {
        r.push(v[i]);
        i = i + 1;
        assert(r@ =~= v@.subrange(0, i as int));
    }
    assert(v@.subrange(0, v.len() as int) =~= v@);
    r
}

/// A copy of a list of directions.
fn copy_moves(v: &Vec<Vec<Offset>>) -> (r: Vec<Vec<Offset>>)
    ensures
        moves_of(r@) == moves_of(v@),
{
    let mut r: Vec<Vec<Offset>> = Vec::new();
    let mut i: usize = 0;
    while i < v.len()
        invariant
            i <= v.len(),
            r@.len() == i,
            forall|j: int| 0 <= j < i ==> (#[trigger] r@[j])@ == v@[j]@,
        decreases v.len() - i,
    {
        r.push(copy_offsets(&v[i]));
        i = i + 1;
    }
    assert(moves_of(r@) =~= moves_of(v@));
    r
}

impl Offset {
    /// The offsets turned by zero, one, two and three quarter turns.
    pub fn all_axis(offsets: &Vec<Offset>) -> (r: Vec<Vec<Offset>>)
        requires
            all_turnable(offsets@),
        ensures
            moves_of(r@) == axes(offsets@),
    {
        let axis1 = copy_offsets(offsets);
        let mut axis2: Vec<Offset> = Vec::new();
        let mut axis3: Vec<Offset> = Vec::new();
        let mut axis4: Vec<Offset> = Vec::new();
        let mut i: usize = 0;
        while i < offsets.len()
            invariant
                i <= offsets.len(),
                all_turnable(offsets@),
                axis2@ == offsets@.subrange(0, i as int).map_values(|o: Offset| quarter(o)),
                axis3@ == offsets@.subrange(0, i as int).map_values(|o: Offset| half(o)),
                axis4@ == offsets@.subrange(0, i as int).map_values(|o: Offset| three_quarters(o)),
            decreases offsets.len() - i,
        {
            let offset = offsets[i];
            assert(turnable(offsets@[i as int]));
            axis2.push(Offset { col: -offset.row, row: offset.col });
            axis3.push(Offset { col: -offset.col, row: -offset.row });
            axis4.push(Offset { col: offset.row, row: -offset.col });
            i = i + 1;
            assert(axis2@ =~= offsets@.subrange(0, i as int).map_values(|o: Offset| quarter(o)));
            assert(axis3@ =~= offsets@.subrange(0, i as int).map_values(|o: Offset| half(o)));
            assert(axis4@ =~= offsets@.subrange(0, i as int).map_values(
                |o: Offset| three_quarters(o),
            ));
        }
        assert(offsets@.subrange(0, offsets.len() as int) =~= offsets@);
        let mut r: Vec<Vec<Offset>> = Vec::new();
        r.push(axis1);
        r.push(axis2);
        r.push(axis3);
        r.push(axis4);
        assert(moves_of(r@) =~= axes(offsets@));
        r
    }

    /// The offsets turned by a quarter turn.
    pub fn rotate_90_cw(offsets: &Vec<Offset>) -> (r: Vec<Offset>)
        requires
            all_turnable(offsets@),
        ensures
            r@ == offsets@.map_values(|o: Offset| quarter(o)),
    {
        let mut r: Vec<Offset> = Vec::new();
        let mut i: usize = 0;
        while i < offsets.len()
            invariant
                i <= offsets.len(),
                all_turnable(offsets@),
                r@ == offsets@.subrange(0, i as int).map_values(|o: Offset| quarter(o)),
            decreases offsets.len() - i,
        {
            let offset = offsets[i];
            assert(turnable(offsets@[i as int]));
            r.push(Offset { col: -offset.row, row: offset.col });
            i = i + 1;
            assert(r@ =~= offsets@.subrange(0, i as int).map_values(|o: Offset| quarter(o)));
        }
        assert(offsets@.subrange(0, offsets.len() as int) =~= offsets@);
        r
    }
}

/// Turning by a quarter turn twice is a half turn, three times is three
/// quarter turns, and four times gives back the offset.
pub proof fn lemma_quarter_turns(o: Offset)
    requires
        turnable(o),
        o.col < i8::MAX,
        o.row < i8::MAX,
    ensures
        turnable(quarter(o)),
        quarter(quarter(o)) == half(o),
        quarter(half(o)) == three_quarters(o),
        quarter(three_quarters(o)) == o,
{
}

/// Each of the four axes of a list of offsets is the previous one turned by
/// a quarter turn, and turning the last one gives back the list.
pub proof fn lemma_axes_turn(s: Seq<Offset>)
    requires
        forall|i: int| 0 <= i < s.len() ==> turnable(#[trigger] s[i]) && s[i].col < i8::MAX && s[i].row < i8::MAX,
    ensures
        forall|k: int| 0 <= k < 3 ==> #[trigger] axes(s)[k + 1] == axes(s)[k].map_values(|o: Offset| quarter(o)),
        axes(s)[3].map_values(|o: Offset| quarter(o)) == s,
{
    assert forall|i: int| 0 <= i < s.len() implies quarter(quarter(#[trigger] s[i])) == half(s[i])
        && quarter(half(s[i])) == three_quarters(s[i]) && quarter(three_quarters(s[i])) == s[i] by {
        lemma_quarter_turns(s[i]);
    }
    let a = axes(s);
    assert(a[1] =~= a[0].map_values(|o: Offset| quarter(o)));
    assert(a[2] =~= a[1].map_values(|o: Offset| quarter(o)));
    assert(a[3] =~= a[2].map_values(|o: Offset| quarter(o)));
    assert(a[3].map_values(|o: Offset| quarter(o)) =~= s);
}

/// The letter a piece of this colour shows for `c`.
pub open spec fn piece_letter(white: bool, c: char) -> char {
    if white {
        upper_first(c)
    } else {
        lower_first(c)
    }
}

impl Piece {
    /// A piece of the given colour; its letter is `c` in upper case for
    /// white and in lower case for black.
    pub fn new(white: bool, c: char, allowed_moves: Vec<Vec<Offset>>) -> (p: Piece)
        ensures
            p.white == white,
            p.c == piece_letter(white, c),
            p.allowed_moves == allowed_moves,
            white && 'a' <= c <= 'z' ==> p.c as int == c as int - 32,
            !white && 'A' <= c <= 'Z' ==> p.c as int == c as int + 32,
            is_ascii_char(c) && !('a' <= c <= 'z') && !('A' <= c <= 'Z') ==> p.c == c,
            white && 'A' <= c <= 'Z' ==> p.c == c,
            !white && 'a' <= c <= 'z' ==> p.c == c,
    {
        let piece = Piece {
            white,
            c: if white {
                to_upper_char(c)
            } else {
                to_lower_char(c)
            },
            allowed_moves,
        };
        piece
    }

    /// The same kind of piece for the other side.
    pub fn just_inverse_color(to_inverse: &Piece) -> (p: Piece)
        ensures
            p.white == !to_inverse.white,
            p.c == piece_letter(!to_inverse.white, to_inverse.c),
            moves_of(p.allowed_moves@) == moves_of(to_inverse.allowed_moves@),
            !to_inverse.white && 'a' <= to_inverse.c <= 'z' ==> p.c as int == to_inverse.c as int - 32,
            to_inverse.white && 'A' <= to_inverse.c <= 'Z' ==> p.c as int == to_inverse.c as int + 32,
            is_ascii_char(to_inverse.c) && !('a' <= to_inverse.c <= 'z') && !('A' <= to_inverse.c
                <= 'Z') ==> p.c == to_inverse.c,
    {
        Piece::new(!to_inverse.white, to_inverse.c, copy_moves(&to_inverse.allowed_moves))
    }

    /// The colour and the letter of the piece, as the debugging output shows them.
    pub fn describe(&self) -> (s: String)
        ensures
            s@ == bool_text(self.white) + ", "@ + seq![self.c],
    {
        let mut s = bool_string(self.white);
        append_str(&mut s, ", ");
        push_char(&mut s, self.c);
        s
    }

    /// A copy of this piece.
    pub fn copy(&self) -> (p: Piece)
        ensures
            p.white == self.white,
            p.c == self.c,
            moves_of(p.allowed_moves@) == moves_of(self.allowed_moves@),
    {
        Piece { white: self.white, c: self.c, allowed_moves: copy_moves(&self.allowed_moves) }
    }
}

/// Whether a coordinate lies on the board.
pub fn within_bounds(coord: usize) -> (r: bool)
    ensures
        r == (coord < BOARD_SIDE),
{
    coord < BOARD_SIDE
}

/// An offset small enough that adding it to a board coordinate stays in an `i8`.
pub open spec fn small_offset(o: Offset) -> bool {
    -120 <= o.col <= 120 && -120 <= o.row <= 120
}

/// The pieces known to the analysis: their letters are all different and
/// their moves are small offsets.
pub open spec fn table_wf(t: Seq<Piece>) -> bool {
    &&& forall|i: int, j: int| 0 <= i < t.len() && 0 <= j < t.len() && i != j ==> #[trigger] t[i].c != #[trigger] t[j].c
    &&& forall|i: int, d: int, k: int|
        0 <= i < t.len() && 0 <= d < t[i].allowed_moves@.len() && 0 <= k < t[i].allowed_moves@[d]@.len()
            ==> small_offset(#[trigger] t[i].allowed_moves@[d]@[k])
}

/// Some piece of the table shows the letter `c`.
pub open spec fn has_piece(t: Seq<Piece>, c: char) -> bool {
    exists|i: int| 0 <= i < t.len() && #[trigger] t[i].c == c
}

/// The piece of the table that shows the letter `c`.
pub open spec fn piece_for(t: Seq<Piece>, c: char) -> Piece {
    t[choose|i: int| 0 <= i < t.len() && #[trigger] t[i].c == c]
}

/// The board of 64 squares, row by row, knows only pieces of the table.
pub open spec fn board_wf(t: Seq<Piece>, base: Seq<char>) -> bool {
    &&& base.len() == 64
    &&& forall|s: int| 0 <= s < 64 ==> has_piece(t, #[trigger] base[s])
}

/// Whether a row and a column lie on the board.
pub open spec fn on_board(r: int, c: int) -> bool {
    0 <= r < 8 && 0 <= c < 8
}

/// The row reached from square `s` by offset `o`.
pub open spec fn step_row(s: int, o: Offset) -> int {
    s / 8 + o.row
}

/// The column reached from square `s` by offset `o`.
pub open spec fn step_col(s: int, o: Offset) -> int {
    s % 8 + o.col
}

/// A square holding this letter stops a ray: any piece but a king.
pub open spec fn stops(ch: char) -> bool {
    ch != '.' && ch != 'K' && ch != 'k'
}

/// No square before step `k` of the direction `dir` from square `s` stops the ray.
pub open spec fn ray_open(base: Seq<char>, s: int, dir: Seq<Offset>, k: int) -> bool {
    forall|j: int|
        0 <= j < k ==> !(on_board(step_row(s, #[trigger] dir[j]), step_col(s, dir[j])) && stops(
            base[step_row(s, dir[j]) * 8 + step_col(s, dir[j])],
        ))
}

/// The piece on square `s` threatens square (`r`, `c`) by step `k` of its
/// direction `d`, for the side whose layer is `white_layer`: the step lands
/// there, nothing stops the ray before it, the piece belongs to the other
/// side, and the square is empty or holds a piece of the other side too.
pub open spec fn hit(t: Seq<Piece>, base: Seq<char>, s: int, d: int, k: int, white_layer: bool, r: int, c: int) -> bool {
    let p = piece_for(t, base[s]);
    let mv = p.allowed_moves@;
    &&& 0 <= d < mv.len()
    &&& 0 <= k < mv[d]@.len()
    &&& step_row(s, mv[d]@[k]) == r
    &&& step_col(s, mv[d]@[k]) == c
    &&& on_board(r, c)
    &&& ray_open(base, s, mv[d]@, k)
    &&& p.white != white_layer
    &&& (base[r * 8 + c] == '.' || piece_for(t, base[r * 8 + c]).white != p.white)
}

/// Square `s` is (`r`, `c`) and holds a piece other than a king: no king may step there.
pub open spec fn own_mark(base: Seq<char>, s: int, r: int, c: int) -> bool {
    s == r * 8 + c && stops(base[s])
}

/// What square `s` forbids at (`r`, `c`) in the layer `white_layer`.
pub open spec fn square_marks(t: Seq<Piece>, base: Seq<char>, s: int, white_layer: bool, r: int, c: int) -> bool {
    own_mark(base, s, r, c) || exists|d: int, k: int| #[trigger] hit(t, base, s, d, k, white_layer, r, c)
}

/// One of the first `n` squares forbids (`r`, `c`) in the layer `white_layer`.
pub open spec fn marked(t: Seq<Piece>, base: Seq<char>, n: int, white_layer: bool, r: int, c: int) -> bool {
    exists|s: int| 0 <= s < n && #[trigger] square_marks(t, base, s, white_layer, r, c)
}

/// The layer of the squares that the king of one side may stand on.
pub open spec fn allowed_layer(t: Seq<Piece>, base: Seq<char>, white_layer: bool) -> Seq<Seq<bool>> {
    Seq::new(8, |r: int| Seq::new(8, |c: int| !marked(t, base, 64, white_layer, r, c)))
}

/// The cells of a layer held as vectors.
pub open spec fn grid_of(v: Seq<Vec<bool>>) -> Seq<Seq<bool>> {
    Seq::new(v.len(), |i: int| v[i]@)
}

/// A layer of 8 rows of 8 cells.
pub open spec fn grid8(v: Seq<Vec<bool>>) -> bool {
    v.len() == 8 && forall|r: int| 0 <= r < 8 ==> (#[trigger] v[r])@.len() == 8
}

/// The index of the last square before `n` that holds `ch`, or -1.
pub open spec fn last_square(base: Seq<char>, ch: char, n: int) -> int
    decreases n,
{
    if n <= 0 {
        -1
    } else if base[n - 1] == ch {
        n - 1
    } else {
        last_square(base, ch, n - 1)
    }
}

/// Where the king with letter `ch` stands: its last square, or the corner
/// (0, 0) when there is none.
pub open spec fn king_position(base: Seq<char>, ch: char) -> Offset {
    position_of(last_square(base, ch, 64))
}

/// The row and column of square `s`, or (0, 0) for no square.
pub open spec fn position_of(s: int) -> Offset {
    if s < 0 {
        Offset { col: 0, row: 0 }
    } else {
        Offset { col: (s % 8) as i8, row: (s / 8) as i8 }
    }
}

/// A king with these moves, standing at `pos`, can be saved in `layer`: its
/// square is allowed, or one of the squares it can step to on the board is.
pub open spec fn saved(moves: Seq<Seq<Offset>>, pos: Offset, layer: Seq<Seq<bool>>) -> bool {
    layer[pos.row as int][pos.col as int] || exists|d: int, k: int|
        0 <= d < moves.len() && 0 <= k < moves[d].len() && on_board(
            pos.row + (#[trigger] moves[d][k]).row,
            pos.col + moves[d][k].col,
        ) && layer[pos.row + moves[d][k].row][pos.col + moves[d][k].col]
}

/// A king whose own square is not threatened can be saved, whatever its
/// moves and wherever it can step.
pub proof fn lemma_free_square_saves(moves: Seq<Seq<Offset>>, pos: Offset, layer: Seq<Seq<bool>>)
    requires
        layer[pos.row as int][pos.col as int],
    ensures
        saved(moves, pos, layer),
{
}

/// A king that is threatened where it stands, and can step to no square on
/// the board that is not threatened, cannot be saved.
pub proof fn lemma_trapped_king_lost(moves: Seq<Seq<Offset>>, pos: Offset, layer: Seq<Seq<bool>>)
    requires
        !layer[pos.row as int][pos.col as int],
        forall|d: int, k: int|
            0 <= d < moves.len() && 0 <= k < moves[d].len() && on_board(
                pos.row + (#[trigger] moves[d][k]).row,
                pos.col + moves[d][k].col,
            ) ==> !layer[pos.row + moves[d][k].row][pos.col + moves[d][k].col],
    ensures
        !saved(moves, pos, layer),
{
}

/// The answer: `N` when both kings or neither can be saved, otherwise the
/// side whose king can be saved.
pub open spec fn verdict(white_saved: bool, black_saved: bool) -> char {
    if white_saved == black_saved {
        'N'
    } else if black_saved {
        'B'
    } else {
        'W'
    }
}

/// The winner of the board `base`, given the pieces of `t`.
pub open spec fn winner(t: Seq<Piece>, base: Seq<char>) -> char {
    verdict(
        saved(moves_of(piece_for(t, 'K').allowed_moves@), king_position(base, 'K'), allowed_layer(t, base, true)),
        saved(moves_of(piece_for(t, 'k').allowed_moves@), king_position(base, 'k'), allowed_layer(t, base, false)),
    )
}

/// The index of the piece that shows `c`.
fn find_piece(pieces: &Vec<Piece>, c: char) -> (i: usize)
    requires
        table_wf(pieces@),
        has_piece(pieces@, c),
    ensures
        i < pieces@.len(),
        pieces@[i as int].c == c,
        pieces@[i as int] == piece_for(pieces@, c),
{
    let mut i: usize = 0;
    while i < pieces.len()
        invariant
            i <= pieces@.len(),
            table_wf(pieces@),
            has_piece(pieces@, c),
            forall|j: int| 0 <= j < i ==> (#[trigger] pieces@[j]).c != c,
        decreases pieces.len() - i,
    {
        if pieces[i].c == c {
            assert(pieces@[i as int].c == c);
            let ghost w = choose|j: int| 0 <= j < pieces@.len() && #[trigger] pieces@[j].c == c;
            assert(pieces@[w].c == pieces@[i as int].c);
            assert(w == i);
            return i;
        }
        i = i + 1;
    }
    assert(false);
    0
}

/// Whether the king, standing at `king_pos`, can be saved in `layer`: its
/// square is not threatened, or it can step to a square that is not.
pub fn can_be_saved(king: Piece, king_pos: Offset, layer: &mut Vec<Vec<bool>>, base_layer: &mut Vec<char>) -> (r: bool)
    requires
        grid8(old(layer)@),
        0 <= king_pos.row < 8,
        0 <= king_pos.col < 8,
        forall|d: int, k: int|
            0 <= d < king.allowed_moves@.len() && 0 <= k < king.allowed_moves@[d]@.len()
                ==> small_offset(#[trigger] king.allowed_moves@[d]@[k]),
    ensures
        final(layer)@ == old(layer)@,
        final(base_layer)@ == old(base_layer)@,
        r == saved(moves_of(king.allowed_moves@), king_pos, grid_of(old(layer)@)),
{
    let ghost mv = moves_of(king.allowed_moves@);
    let ghost g = grid_of(layer@);
    let not_threaten = layer[king_pos.row as usize][king_pos.col as usize];
    let mut adjacent_free = false;
    let mut d: usize = 0;
    while d < king.allowed_moves.len() && !adjacent_free
        invariant
            grid8(layer@),
            g == grid_of(layer@),
            mv == moves_of(king.allowed_moves@),
            0 <= king_pos.row < 8,
            0 <= king_pos.col < 8,
            d <= king.allowed_moves@.len(),
            forall|d2: int, k: int|
                0 <= d2 < king.allowed_moves@.len() && 0 <= k < king.allowed_moves@[d2]@.len()
                    ==> small_offset(#[trigger] king.allowed_moves@[d2]@[k]),
            adjacent_free ==> exists|d2: int, k: int|
                0 <= d2 < mv.len() && 0 <= k < mv[d2].len() && on_board(
                    king_pos.row + (#[trigger] mv[d2][k]).row,
                    king_pos.col + mv[d2][k].col,
                ) && g[king_pos.row + mv[d2][k].row][king_pos.col + mv[d2][k].col],
            !adjacent_free ==> forall|d2: int, k: int|
                0 <= d2 < d && 0 <= k < mv[d2].len() && on_board(
                    king_pos.row + (#[trigger] mv[d2][k]).row,
                    king_pos.col + mv[d2][k].col,
                ) ==> !g[king_pos.row + mv[d2][k].row][king_pos.col + mv[d2][k].col],
        decreases king.allowed_moves@.len() - d,
    {
        let offsets = &king.allowed_moves[d];
        let mut k: usize = 0;
        while k < offsets.len() && !adjacent_free
            invariant
                grid8(layer@),
                g == grid_of(layer@),
                mv == moves_of(king.allowed_moves@),
                0 <= king_pos.row < 8,
                0 <= king_pos.col < 8,
                d < king.allowed_moves@.len(),
                *offsets == king.allowed_moves@[d as int],
                k <= offsets@.len(),
                forall|d2: int, k2: int|
                    0 <= d2 < king.allowed_moves@.len() && 0 <= k2 < king.allowed_moves@[d2]@.len()
                        ==> small_offset(#[trigger] king.allowed_moves@[d2]@[k2]),
                adjacent_free ==> exists|d2: int, k2: int|
                    0 <= d2 < mv.len() && 0 <= k2 < mv[d2].len() && on_board(
                        king_pos.row + (#[trigger] mv[d2][k2]).row,
                        king_pos.col + mv[d2][k2].col,
                    ) && g[king_pos.row + mv[d2][k2].row][king_pos.col + mv[d2][k2].col],
                !adjacent_free ==> forall|d2: int, k2: int|
                    ((0 <= d2 < d && 0 <= k2 < mv[d2].len()) || (d2 == d && 0 <= k2 < k)) && on_board(
                        king_pos.row + (#[trigger] mv[d2][k2]).row,
                        king_pos.col + mv[d2][k2].col,
                    ) ==> !g[king_pos.row + mv[d2][k2].row][king_pos.col + mv[d2][k2].col],
            decreases offsets@.len() - k,
        {
            let offset = offsets[k];
            assert(mv[d as int][k as int] == offset);
            assert(small_offset(king.allowed_moves@[d as int]@[k as int]));
            let rr: i8 = king_pos.row + offset.row;
            let cc: i8 = king_pos.col + offset.col;
            proof {
                if rr < 0 {
                    assert((rr as usize) >= 8) by (bit_vector)
                        requires
                            rr < 0,
                    ;
                }
                if cc < 0 {
                    assert((cc as usize) >= 8) by (bit_vector)
                        requires
                            cc < 0,
                    ;
                }
            }
            if within_bounds(rr as usize) && within_bounds(cc as usize) {
                if layer[rr as usize][cc as usize] {
                    adjacent_free = true;
                }
            }
            k = k + 1;
        }
        d = d + 1;
    }
    not_threaten || adjacent_free
}

/// A ray that is stopped before step `k` stays stopped at every later step.
proof fn lemma_ray_closed(base: Seq<char>, s: int, dir: Seq<Offset>, k: int, k2: int)
    requires
        !ray_open(base, s, dir, k),
        k <= k2,
    ensures
        !ray_open(base, s, dir, k2),
{
    let j = choose|j: int|
        0 <= j < k && (on_board(step_row(s, #[trigger] dir[j]), step_col(s, dir[j])) && stops(
            base[step_row(s, dir[j]) * 8 + step_col(s, dir[j])],
        ));
    assert(0 <= j < k2);
}

/// Marks the squares that direction `d` of `piece`, standing on square `s`,
/// threatens, in the layer of the other side.
fn mark_direction(
    base_layer: &Vec<char>,
    pieces: &Vec<Piece>,
    s: usize,
    piece: &Piece,
    d: usize,
    white_allowed: &mut Vec<Vec<bool>>,
    black_allowed: &mut Vec<Vec<bool>>,
)
    requires
        table_wf(pieces@),
        board_wf(pieces@, base_layer@),
        s < 64,
        *piece == piece_for(pieces@, base_layer@[s as int]),
        d < piece.allowed_moves@.len(),
        grid8(old(white_allowed)@),
        grid8(old(black_allowed)@),
    ensures
        grid8(final(white_allowed)@),
        grid8(final(black_allowed)@),
        forall|r: int, c: int|
            0 <= r < 8 && 0 <= c < 8 ==> #[trigger] final(white_allowed)@[r]@[c] == (old(white_allowed)@[r]@[c]
                && !(exists|k: int| #[trigger] hit(pieces@, base_layer@, s as int, d as int, k, true, r, c))),
        forall|r: int, c: int|
            0 <= r < 8 && 0 <= c < 8 ==> #[trigger] final(black_allowed)@[r]@[c] == (old(black_allowed)@[r]@[c]
                && !(exists|k: int| #[trigger] hit(pieces@, base_layer@, s as int, d as int, k, false, r, c))),
{
    let ghost t = pieces@;
    let ghost base = base_layer@;
    let ghost w0 = white_allowed@;
    let ghost b0 = black_allowed@;
    let offsets = &piece.allowed_moves[d];
    let ghost dir = offsets@;
    let row: i8 = (s / 8) as i8;
    let col: i8 = (s % 8) as i8;
    let mut k: usize = 0;
    let mut open = true;
    proof {
        assert(has_piece(t, base[s as int]));
        let pi = choose|i: int| 0 <= i < t.len() && #[trigger] t[i].c == base[s as int];
        assert(t[pi] == *piece);
        assert forall|k2: int| 0 <= k2 < dir.len() implies small_offset(#[trigger] dir[k2]) by {
            assert(dir[k2] == t[pi].allowed_moves@[d as int]@[k2]);
        }
    }
    while k < offsets.len() && open
        invariant
            t == pieces@,
            base == base_layer@,
            table_wf(t),
            board_wf(t, base),
            s < 64,
            row == s / 8,
            col == s % 8,
            *piece == piece_for(t, base[s as int]),
            d < piece.allowed_moves@.len(),
            *offsets == piece.allowed_moves@[d as int],
            dir == offsets@,
            forall|k2: int| 0 <= k2 < dir.len() ==> small_offset(#[trigger] dir[k2]),
            k <= dir.len(),
            grid8(white_allowed@),
            grid8(black_allowed@),
            grid8(w0),
            grid8(b0),
            forall|r: int, c: int|
                0 <= r < 8 && 0 <= c < 8 ==> #[trigger] white_allowed@[r]@[c] == (w0[r]@[c]
                    && !(exists|k2: int| 0 <= k2 < k && #[trigger] hit(t, base, s as int, d as int, k2, true, r, c))),
            forall|r: int, c: int|
                0 <= r < 8 && 0 <= c < 8 ==> #[trigger] black_allowed@[r]@[c] == (b0[r]@[c]
                    && !(exists|k2: int| 0 <= k2 < k && #[trigger] hit(t, base, s as int, d as int, k2, false, r, c))),
            open ==> ray_open(base, s as int, dir, k as int),
            !open ==> !ray_open(base, s as int, dir, k as int),
        decreases dir.len() - k,
    {
        let offset = offsets[k];
        assert(small_offset(dir[k as int]));
        let ct: i8 = col + offset.col;
        let rt: i8 = row + offset.row;
        proof {
            if rt < 0 {
                assert((rt as usize) >= 8) by (bit_vector)
                    requires
                        rt < 0,
                ;
            }
            if ct < 0 {
                assert((ct as usize) >= 8) by (bit_vector)
                    requires
                        ct < 0,
                ;
            }
        }
        let col_threat = ct as usize;
        let row_threat = rt as usize;
        let ghost w_before = white_allowed@;
        let ghost b_before = black_allowed@;
        if within_bounds(col_threat) && within_bounds(row_threat) {
            let ch = base_layer[row_threat * 8 + col_threat];
            assert(has_piece(t, base[row_threat * 8 + col_threat]));
            let there = find_piece(pieces, ch);
            let piece_there = &pieces[there];
            if piece_there.c == '.' || piece_there.white != piece.white {
                if piece.white {
                    black_allowed[row_threat][col_threat] = false;
                } else {
                    white_allowed[row_threat][col_threat] = false;
                }
            }
            if piece_there.c != '.' && piece_there.c != 'K' && piece_there.c != 'k' {
                open = false;
            }
            proof {
                let r0 = rt as int;
                let c0 = ct as int;
                assert(step_row(s as int, dir[k as int]) == r0);
                assert(step_col(s as int, dir[k as int]) == c0);
                assert forall|r: int, c: int|
                    0 <= r < 8 && 0 <= c < 8 implies #[trigger] white_allowed@[r]@[c] == (w0[r]@[c]
                        && !(exists|k2: int| 0 <= k2 < k + 1 && #[trigger] hit(t, base, s as int, d as int, k2, true, r, c))) by {
                    if exists|k2: int| 0 <= k2 < k + 1 && #[trigger] hit(t, base, s as int, d as int, k2, true, r, c) {
                        let k2 = choose|k2: int| 0 <= k2 < k + 1 && #[trigger] hit(t, base, s as int, d as int, k2, true, r, c);
                        if k2 < k {
                        } else {
                            assert(r == r0 && c == c0);
                        }
                    } else {
                        if r == r0 && c == c0 && piece.white == false && (ch == '.' || piece_there.white != piece.white) {
                            assert(hit(t, base, s as int, d as int, k as int, true, r, c));
                        }
                    }
                }
                assert forall|r: int, c: int|
                    0 <= r < 8 && 0 <= c < 8 implies #[trigger] black_allowed@[r]@[c] == (b0[r]@[c]
                        && !(exists|k2: int| 0 <= k2 < k + 1 && #[trigger] hit(t, base, s as int, d as int, k2, false, r, c))) by {
                    if exists|k2: int| 0 <= k2 < k + 1 && #[trigger] hit(t, base, s as int, d as int, k2, false, r, c) {
                        let k2 = choose|k2: int| 0 <= k2 < k + 1 && #[trigger] hit(t, base, s as int, d as int, k2, false, r, c);
                        if k2 < k {
                        } else {
                            assert(r == r0 && c == c0);
                        }
                    } else {
                        if r == r0 && c == c0 && piece.white == true && (ch == '.' || piece_there.white != piece.white) {
                            assert(hit(t, base, s as int, d as int, k as int, false, r, c));
                        }
                    }
                }
                if !open {
                    assert(!ray_open(base, s as int, dir, k + 1));
                } else if open {
                    assert(ray_open(base, s as int, dir, k + 1));
                }
            }
        } else {
            proof {
                assert(!on_board(step_row(s as int, dir[k as int]), step_col(s as int, dir[k as int])));
                assert forall|r: int, c: int|
                    0 <= r < 8 && 0 <= c < 8 implies #[trigger] white_allowed@[r]@[c] == (w0[r]@[c]
                        && !(exists|k2: int| 0 <= k2 < k + 1 && #[trigger] hit(t, base, s as int, d as int, k2, true, r, c))) by {
                    if exists|k2: int| 0 <= k2 < k + 1 && #[trigger] hit(t, base, s as int, d as int, k2, true, r, c) {
                        let k2 = choose|k2: int| 0 <= k2 < k + 1 && #[trigger] hit(t, base, s as int, d as int, k2, true, r, c);
                        assert(k2 < k);
                    }
                }
                assert forall|r: int, c: int|
                    0 <= r < 8 && 0 <= c < 8 implies #[trigger] black_allowed@[r]@[c] == (b0[r]@[c]
                        && !(exists|k2: int| 0 <= k2 < k + 1 && #[trigger] hit(t, base, s as int, d as int, k2, false, r, c))) by {
                    if exists|k2: int| 0 <= k2 < k + 1 && #[trigger] hit(t, base, s as int, d as int, k2, false, r, c) {
                        let k2 = choose|k2: int| 0 <= k2 < k + 1 && #[trigger] hit(t, base, s as int, d as int, k2, false, r, c);
                        assert(k2 < k);
                    }
                }
                assert(ray_open(base, s as int, dir, k + 1) == ray_open(base, s as int, dir, k as int));
            }
        }
        k = k + 1;
    }
    proof {
        assert forall|r: int, c: int, k2: int|
            0 <= r < 8 && 0 <= c < 8 && k <= k2 implies !#[trigger] hit(t, base, s as int, d as int, k2, true, r, c)
                && !hit(t, base, s as int, d as int, k2, false, r, c) by {
            if k2 < dir.len() {
                assert(!open);
                lemma_ray_closed(base, s as int, dir, k as int, k2);
            }
        }
    }
}

/// The squares forbidden after `n + 1` squares are those forbidden after
/// `n` squares and those square `n` forbids.
proof fn lemma_marked_step(t: Seq<Piece>, base: Seq<char>, n: int, wl: bool, r: int, c: int)
    requires
        0 <= n,
    ensures
        marked(t, base, n + 1, wl, r, c) == (marked(t, base, n, wl, r, c) || square_marks(t, base, n, wl, r, c)),
{
    if marked(t, base, n + 1, wl, r, c) {
        let s = choose|s: int| 0 <= s < n + 1 && #[trigger] square_marks(t, base, s, wl, r, c);
        if s < n {
            assert(marked(t, base, n, wl, r, c));
        }
    }
    if marked(t, base, n, wl, r, c) {
        let s = choose|s: int| 0 <= s < n && #[trigger] square_marks(t, base, s, wl, r, c);
        assert(0 <= s < n + 1);
    }
    if square_marks(t, base, n, wl, r, c) {
        assert(0 <= n < n + 1);
    }
}

/// The last square holding a letter lies before `n`.
proof fn lemma_last_square_range(base: Seq<char>, ch: char, n: int)
    requires
        0 <= n,
    ensures
        -1 <= last_square(base, ch, n) < n,
    decreases n,
{
    if n > 0 {
        lemma_last_square_range(base, ch, n - 1);
    }
}

/// The position of a square of the board, or of no square, is on the board.
proof fn lemma_position_on_board(s: int)
    requires
        -1 <= s < 64,
    ensures
        0 <= position_of(s).row < 8,
        0 <= position_of(s).col < 8,
{
}

/// A layer where every square is allowed.
fn full_layer() -> (v: Vec<Vec<bool>>)
    ensures
        grid8(v@),
        forall|r: int, c: int| 0 <= r < 8 && 0 <= c < 8 ==> #[trigger] v@[r]@[c],
{
    let mut v: Vec<Vec<bool>> = Vec::new();
    let mut r: usize = 0;
    while r < BOARD_SIDE
        invariant
            r <= BOARD_SIDE,
            v@.len() == r,
            forall|i: int| 0 <= i < r ==> (#[trigger] v@[i])@.len() == 8,
            forall|i: int, c: int| 0 <= i < r && 0 <= c < 8 ==> #[trigger] v@[i]@[c],
        decreases BOARD_SIDE - r,
    {
        let mut row: Vec<bool> = Vec::new();
        let mut c: usize = 0;
        while c < BOARD_SIDE
            invariant
                c <= BOARD_SIDE,
                row@.len() == c,
                forall|j: int| 0 <= j < c ==> #[trigger] row@[j],
            decreases BOARD_SIDE - c,
        {
            row.push(true);
            c = c + 1;
        }
        v.push(row);
        r = r + 1;
    }
    v
}

/// A copy of the board.
fn copy_chars(v: &Vec<char>) -> (r: Vec<char>)
    ensures
        r@ == v@,
{
    let mut r: Vec<char> = Vec::new();
    let mut i: usize = 0;
    while i < v.len()
        invariant
            i <= v.len(),
            r@ == v@.subrange(0, i as int),
        decreases v.len() - i,
    {
        r.push(v[i]);
        i = i + 1;
        assert(r@ =~= v@.subrange(0, i as int));
    }
    assert(v@.subrange(0, v.len() as int) =~= v@);
    r
}

/// The winner of the board `base_layer` (64 letters, row by row): `W` or
/// `B` when only that side's king can be saved, `N` otherwise.
///
/// Every piece marks, in the layer of the other side, the squares it
/// threatens along its directions; a ray stops at the first piece that is not
/// a king. Every piece but a king also forbids its own square to both kings.
pub fn find_winner(base_layer: &Vec<char>, pieces: &Vec<Piece>) -> (r: char)
    requires
        table_wf(pieces@),
        board_wf(pieces@, base_layer@),
        has_piece(pieces@, 'K'),
        has_piece(pieces@, 'k'),
    ensures
        r == winner(pieces@, base_layer@),
{
    let ghost t = pieces@;
    let ghost base = base_layer@;
    let mut white_allowed = full_layer();
    let mut black_allowed = full_layer();
    let mut white_pos = Offset { row: 0, col: 0 };
    let mut black_pos = Offset { row: 0, col: 0 };
    let mut i: usize = 0;
    while i < 64
        invariant
            t == pieces@,
            base == base_layer@,
            table_wf(t),
            board_wf(t, base),
            i <= 64,
            grid8(white_allowed@),
            grid8(black_allowed@),
            forall|r: int, c: int|
                0 <= r < 8 && 0 <= c < 8 ==> #[trigger] white_allowed@[r]@[c] == !marked(t, base, i as int, true, r, c),
            forall|r: int, c: int|
                0 <= r < 8 && 0 <= c < 8 ==> #[trigger] black_allowed@[r]@[c] == !marked(t, base, i as int, false, r, c),
            white_pos == position_of(last_square(base, 'K', i as int)),
            black_pos == position_of(last_square(base, 'k', i as int)),
        decreases 64 - i,
    {
        let row: i8 = (i / 8) as i8;
        let col: i8 = (i % 8) as i8;
        assert(has_piece(t, base[i as int]));
        let p_idx = find_piece(pieces, base_layer[i]);
        let piece = &pieces[p_idx];
        if piece.c == 'K' {
            white_pos.row = row;
            white_pos.col = col;
        } else if piece.c == 'k' {
            black_pos.row = row;
            black_pos.col = col;
        } else if piece.c != '.' {
            black_allowed[row as usize][col as usize] = false;
            white_allowed[row as usize][col as usize] = false;
        }
        proof {
            assert forall|r: int, c: int|
                0 <= r < 8 && 0 <= c < 8 implies #[trigger] white_allowed@[r]@[c] == !(marked(t, base, i as int, true, r, c)
                    || own_mark(base, i as int, r, c)) by {
            }
            assert forall|r: int, c: int|
                0 <= r < 8 && 0 <= c < 8 implies #[trigger] black_allowed@[r]@[c] == !(marked(t, base, i as int, false, r, c)
                    || own_mark(base, i as int, r, c)) by {
            }
        }
        let mut d: usize = 0;
        while d < piece.allowed_moves.len()
            invariant
                t == pieces@,
                base == base_layer@,
                table_wf(t),
                board_wf(t, base),
                i < 64,
                *piece == piece_for(t, base[i as int]),
                d <= piece.allowed_moves@.len(),
                grid8(white_allowed@),
                grid8(black_allowed@),
                forall|r: int, c: int|
                    0 <= r < 8 && 0 <= c < 8 ==> #[trigger] white_allowed@[r]@[c] == !(marked(t, base, i as int, true, r, c)
                        || own_mark(base, i as int, r, c) || exists|d2: int, k: int|
                        0 <= d2 < d && #[trigger] hit(t, base, i as int, d2, k, true, r, c)),
                forall|r: int, c: int|
                    0 <= r < 8 && 0 <= c < 8 ==> #[trigger] black_allowed@[r]@[c] == !(marked(t, base, i as int, false, r, c)
                        || own_mark(base, i as int, r, c) || exists|d2: int, k: int|
                        0 <= d2 < d && #[trigger] hit(t, base, i as int, d2, k, false, r, c)),
            decreases piece.allowed_moves@.len() - d,
        {
            let ghost w_before = white_allowed@;
            let ghost b_before = black_allowed@;
            mark_direction(base_layer, pieces, i, piece, d, &mut white_allowed, &mut black_allowed);
            proof {
                assert forall|r: int, c: int|
                    0 <= r < 8 && 0 <= c < 8 implies #[trigger] white_allowed@[r]@[c] == !(marked(t, base, i as int, true, r, c)
                        || own_mark(base, i as int, r, c) || exists|d2: int, k: int|
                        0 <= d2 < d + 1 && #[trigger] hit(t, base, i as int, d2, k, true, r, c)) by {
                    if exists|d2: int, k: int| 0 <= d2 < d + 1 && #[trigger] hit(t, base, i as int, d2, k, true, r, c) {
                        let (d2, k) = choose|d2: int, k: int| 0 <= d2 < d + 1 && #[trigger] hit(t, base, i as int, d2, k, true, r, c);
                        if d2 < d {
                            assert(exists|d3: int, k3: int| 0 <= d3 < d && #[trigger] hit(t, base, i as int, d3, k3, true, r, c));
                        } else {
                            assert(exists|k3: int| #[trigger] hit(t, base, i as int, d as int, k3, true, r, c));
                        }
                    }
                    if exists|k3: int| #[trigger] hit(t, base, i as int, d as int, k3, true, r, c) {
                        let k3 = choose|k3: int| #[trigger] hit(t, base, i as int, d as int, k3, true, r, c);
                        assert(0 <= d < d + 1 && hit(t, base, i as int, d as int, k3, true, r, c));
                    }
                    if exists|d3: int, k3: int| 0 <= d3 < d && #[trigger] hit(t, base, i as int, d3, k3, true, r, c) {
                        let (d3, k3) = choose|d3: int, k3: int| 0 <= d3 < d && #[trigger] hit(t, base, i as int, d3, k3, true, r, c);
                        assert(0 <= d3 < d + 1 && hit(t, base, i as int, d3, k3, true, r, c));
                    }
                }
                assert forall|r: int, c: int|
                    0 <= r < 8 && 0 <= c < 8 implies #[trigger] black_allowed@[r]@[c] == !(marked(t, base, i as int, false, r, c)
                        || own_mark(base, i as int, r, c) || exists|d2: int, k: int|
                        0 <= d2 < d + 1 && #[trigger] hit(t, base, i as int, d2, k, false, r, c)) by {
                    if exists|d2: int, k: int| 0 <= d2 < d + 1 && #[trigger] hit(t, base, i as int, d2, k, false, r, c) {
                        let (d2, k) = choose|d2: int, k: int| 0 <= d2 < d + 1 && #[trigger] hit(t, base, i as int, d2, k, false, r, c);
                        if d2 < d {
                            assert(exists|d3: int, k3: int| 0 <= d3 < d && #[trigger] hit(t, base, i as int, d3, k3, false, r, c));
                        } else {
                            assert(exists|k3: int| #[trigger] hit(t, base, i as int, d as int, k3, false, r, c));
                        }
                    }
                    if exists|k3: int| #[trigger] hit(t, base, i as int, d as int, k3, false, r, c) {
                        let k3 = choose|k3: int| #[trigger] hit(t, base, i as int, d as int, k3, false, r, c);
                        assert(0 <= d < d + 1 && hit(t, base, i as int, d as int, k3, false, r, c));
                    }
                    if exists|d3: int, k3: int| 0 <= d3 < d && #[trigger] hit(t, base, i as int, d3, k3, false, r, c) {
                        let (d3, k3) = choose|d3: int, k3: int| 0 <= d3 < d && #[trigger] hit(t, base, i as int, d3, k3, false, r, c);
                        assert(0 <= d3 < d + 1 && hit(t, base, i as int, d3, k3, false, r, c));
                    }
                }
            }
            d = d + 1;
        }
        proof {
            assert forall|r: int, c: int|
                0 <= r < 8 && 0 <= c < 8 implies #[trigger] white_allowed@[r]@[c] == !marked(t, base, i + 1, true, r, c) by {
                lemma_marked_step(t, base, i as int, true, r, c);
                if exists|d2: int, k: int| #[trigger] hit(t, base, i as int, d2, k, true, r, c) {
                    let (d2, k) = choose|d2: int, k: int| #[trigger] hit(t, base, i as int, d2, k, true, r, c);
                    assert(0 <= d2 < d && hit(t, base, i as int, d2, k, true, r, c));
                }
            }
            assert forall|r: int, c: int|
                0 <= r < 8 && 0 <= c < 8 implies #[trigger] black_allowed@[r]@[c] == !marked(t, base, i + 1, false, r, c) by {
                lemma_marked_step(t, base, i as int, false, r, c);
                if exists|d2: int, k: int| #[trigger] hit(t, base, i as int, d2, k, false, r, c) {
                    let (d2, k) = choose|d2: int, k: int| #[trigger] hit(t, base, i as int, d2, k, false, r, c);
                    assert(0 <= d2 < d && hit(t, base, i as int, d2, k, false, r, c));
                }
            }
        }
        i = i + 1;
    }
    let white_king_idx = find_piece(pieces, 'K');
    let black_king_idx = find_piece(pieces, 'k');
    let white_king = pieces[white_king_idx].copy();
    let black_king = pieces[black_king_idx].copy();
    let mut base_copy = copy_chars(base_layer);
    proof {
        assert forall|r: int| 0 <= r < 8 implies #[trigger] grid_of(white_allowed@)[r] =~= allowed_layer(t, base, true)[r] by {
            assert forall|c: int| 0 <= c < 8 implies grid_of(white_allowed@)[r][c] == allowed_layer(t, base, true)[r][c] by {
                assert(white_allowed@[r]@[c] == !marked(t, base, 64, true, r, c));
            }
        }
        assert forall|r: int| 0 <= r < 8 implies #[trigger] grid_of(black_allowed@)[r] =~= allowed_layer(t, base, false)[r] by {
            assert forall|c: int| 0 <= c < 8 implies grid_of(black_allowed@)[r][c] == allowed_layer(t, base, false)[r][c] by {
                assert(black_allowed@[r]@[c] == !marked(t, base, 64, false, r, c));
            }
        }
        assert(grid_of(white_allowed@) =~= allowed_layer(t, base, true));
        assert(grid_of(black_allowed@) =~= allowed_layer(t, base, false));
        assert forall|d: int, k: int|
            0 <= d < white_king.allowed_moves@.len() && 0 <= k < white_king.allowed_moves@[d]@.len()
                implies small_offset(#[trigger] white_king.allowed_moves@[d]@[k]) by {
            let a = white_king.allowed_moves@;
            let b = pieces@[white_king_idx as int].allowed_moves@;
            assert(moves_of(a).len() == moves_of(b).len());
            assert(moves_of(a)[d] == moves_of(b)[d]);
            assert(a[d]@ == b[d]@);
            assert(white_king.allowed_moves@[d]@[k] == pieces@[white_king_idx as int].allowed_moves@[d]@[k]);
            assert(small_offset(t[white_king_idx as int].allowed_moves@[d]@[k]));
        }
        assert forall|d: int, k: int|
            0 <= d < black_king.allowed_moves@.len() && 0 <= k < black_king.allowed_moves@[d]@.len()
                implies small_offset(#[trigger] black_king.allowed_moves@[d]@[k]) by {
            let a = black_king.allowed_moves@;
            let b = pieces@[black_king_idx as int].allowed_moves@;
            assert(moves_of(a).len() == moves_of(b).len());
            assert(moves_of(a)[d] == moves_of(b)[d]);
            assert(a[d]@ == b[d]@);
            assert(black_king.allowed_moves@[d]@[k] == pieces@[black_king_idx as int].allowed_moves@[d]@[k]);
            assert(small_offset(t[black_king_idx as int].allowed_moves@[d]@[k]));
        }
    }
    proof {
        lemma_last_square_range(base, 'K', 64);
        lemma_last_square_range(base, 'k', 64);
        lemma_position_on_board(last_square(base, 'K', 64));
        lemma_position_on_board(last_square(base, 'k', 64));
    }
    let can_white_be_saved = can_be_saved(white_king, white_pos, &mut white_allowed, &mut base_copy);
    let can_black_be_saved = can_be_saved(black_king, black_pos, &mut black_allowed, &mut base_copy);
    if (can_white_be_saved && can_black_be_saved) || (!can_white_be_saved && !can_black_be_saved) {
        'N'
    } else if can_black_be_saved {
        'B'
    } else {
        'W'
    }
}

/// The offset of `c` columns and `r` rows.
pub open spec fn off(c: int, r: int) -> Offset {
    Offset { col: c as i8, row: r as i8 }
}

/// The offsets one to seven rows up.
pub open spec fn up_ray() -> Seq<Offset> {
    Seq::new(7, |i: int| Offset { col: 0, row: (i + 1) as i8 })
}

/// The offsets one to seven squares up and to the right.
pub open spec fn diag_ray() -> Seq<Offset> {
    Seq::new(7, |i: int| Offset { col: (i + 1) as i8, row: (i + 1) as i8 })
}

/// One direction per offset, each of a single step.
pub open spec fn steps(s: Seq<Offset>) -> Seq<Seq<Offset>> {
    Seq::new(s.len(), |i: int| seq![s[i]])
}

/// The king's steps: the three squares of the row below and of the row above.
pub open spec fn king_steps() -> Seq<Seq<Offset>> {
    steps(
        seq![
            off(0, -1),
            off(-1, -1),
            off(1, -1),
            off(0, 1),
            off(-1, 1),
            off(1, 1),
        ],
    )
}

/// The letters of the standard pieces, in the order of the table.
pub open spec fn standard_letter(k: int) -> char {
    if k == 0 {
        'p'
    } else if k == 1 {
        'P'
    } else if k == 2 {
        'K'
    } else if k == 3 {
        'R'
    } else if k == 4 {
        'B'
    } else if k == 5 {
        'Q'
    } else if k == 6 {
        'N'
    } else if k == 7 {
        'r'
    } else if k == 8 {
        'k'
    } else if k == 9 {
        'b'
    } else if k == 10 {
        'q'
    } else if k == 11 {
        'n'
    } else {
        '.'
    }
}

/// The colours of the standard pieces: the empty square counts as white.
pub open spec fn standard_white(k: int) -> bool {
    !(k == 0 || (7 <= k <= 11))
}

/// The directions of the standard pieces. Pawns threaten the three squares
/// ahead of them (down for black, up for white); rooks, bishops and queens
/// move along their rays; knights along the eight L shapes.
pub open spec fn standard_moves(k: int) -> Seq<Seq<Offset>> {
    if k == 0 {
        steps(seq![off(0, -1), off(-1, -1), off(1, -1)])
    } else if k == 1 {
        steps(seq![off(0, 1), off(-1, 1), off(1, 1)])
    } else if k == 2 || k == 8 {
        king_steps()
    } else if k == 3 || k == 7 {
        axes(up_ray())
    } else if k == 4 || k == 9 {
        axes(diag_ray())
    } else if k == 5 || k == 10 {
        axes(diag_ray()) + axes(up_ray())
    } else if k == 6 || k == 11 {
        axes(seq![off(1, -2)]) + axes(seq![off(-1, -2)])
    } else {
        Seq::empty()
    }
}

/// Number of pieces in the standard table.
pub const NB_PIECES: usize = 13;

/// Directions of single steps, one per offset.
fn single_steps(offsets: &Vec<Offset>) -> (r: Vec<Vec<Offset>>)
    ensures
        moves_of(r@) == steps(offsets@),
{
    let mut r: Vec<Vec<Offset>> = Vec::new();
    let mut i: usize = 0;
    while i < offsets.len()
        invariant
            i <= offsets.len(),
            r@.len() == i,
            forall|j: int| 0 <= j < i ==> (#[trigger] r@[j])@ == seq![offsets@[j]],
        decreases offsets.len() - i,
    {
        let mut one: Vec<Offset> = Vec::new();
        one.push(offsets[i]);
        r.push(one);
        i = i + 1;
    }
    assert(moves_of(r@) =~= steps(offsets@));
    r
}

/// The directions of `a` followed by those of `b`.
fn concat_moves(a: &Vec<Vec<Offset>>, b: &Vec<Vec<Offset>>) -> (r: Vec<Vec<Offset>>)
    ensures
        moves_of(r@) == moves_of(a@) + moves_of(b@),
{
    let mut r = copy_moves(a);
    let mut i: usize = 0;
    while i < b.len()
        invariant
            i <= b.len(),
            moves_of(r@) == moves_of(a@) + moves_of(b@).subrange(0, i as int),
        decreases b.len() - i,
    {
        let ghost before = r@;
        r.push(copy_offsets(&b[i]));
        i = i + 1;
        assert(moves_of(r@) =~= moves_of(before).push(b@[i - 1]@));
        assert(moves_of(r@) =~= moves_of(a@) + moves_of(b@).subrange(0, i as int));
    }
    assert(moves_of(b@).subrange(0, b.len() as int) =~= moves_of(b@));
    r
}

/// A ray of seven offsets, the `i`-th being `i` times (`dc`, `dr`).
fn ray(dc: i8, dr: i8) -> (r: Vec<Offset>)
    requires
        0 <= dc <= 1,
        0 <= dr <= 1,
    ensures
        r@ == Seq::new(7, |i: int| Offset { col: (dc * (i + 1)) as i8, row: (dr * (i + 1)) as i8 }),
{
    let mut r: Vec<Offset> = Vec::new();
    let mut i: i8 = 1;
    while i < 8
        invariant
            1 <= i <= 8,
            0 <= dc <= 1,
            0 <= dr <= 1,
            r@ == Seq::new((i - 1) as nat, |j: int| Offset { col: (dc * (j + 1)) as i8, row: (dr * (j + 1)) as i8 }),
        decreases 8 - i,
    {
        assert(0 <= dc * i <= 7 && 0 <= dr * i <= 7) by (nonlinear_arith)
            requires
                0 <= dc <= 1,
                0 <= dr <= 1,
                1 <= i < 8,
        ;
        r.push(Offset { col: dc * i, row: dr * i });
        i = i + 1;
        assert(r@ =~= Seq::new((i - 1) as nat, |j: int| Offset { col: (dc * (j + 1)) as i8, row: (dr * (j + 1)) as i8 }));
    }
    r
}

/// Offsets with coordinates between -7 and 7.
pub open spec fn short_offsets(s: Seq<Offset>) -> bool {
    forall|i: int| 0 <= i < s.len() ==> -7 <= (#[trigger] s[i]).col <= 7 && -7 <= s[i].row <= 7
}

/// Turning short offsets keeps them short.
proof fn lemma_axes_short(s: Seq<Offset>)
    requires
        short_offsets(s),
    ensures
        forall|d: int| 0 <= d < 4 ==> short_offsets(#[trigger] axes(s)[d]),
        all_turnable(s),
{
}

/// The standard pieces: black and white pawns, the white king, rook, bishop,
/// queen and knight, the same black pieces, and the empty square.
pub fn standard_pieces() -> (pieces: Vec<Piece>)
    ensures
        pieces@.len() == NB_PIECES,
        forall|k: int|
            0 <= k < NB_PIECES ==> (#[trigger] pieces@[k]).c == standard_letter(k) && pieces@[k].white
                == standard_white(k) && moves_of(pieces@[k].allowed_moves@) == standard_moves(k),
        table_wf(pieces@),
        has_piece(pieces@, 'K'),
        has_piece(pieces@, 'k'),
        has_piece(pieces@, '.'),
{
    let up = ray(0, 1);
    let diag_up_right = ray(1, 1);
    assert(up@ =~= up_ray());
    assert(diag_up_right@ =~= diag_ray());
    let mut l: Vec<Offset> = Vec::new();
    l.push(Offset { col: 1, row: -2 });
    let mut rev_l: Vec<Offset> = Vec::new();
    rev_l.push(Offset { col: -1, row: -2 });
    proof {
        lemma_axes_short(up@);
        lemma_axes_short(diag_up_right@);
        lemma_axes_short(l@);
        lemma_axes_short(rev_l@);
    }
    let mut black_pawn_steps: Vec<Offset> = Vec::new();
    black_pawn_steps.push(Offset { col: 0, row: -1 });
    black_pawn_steps.push(Offset { col: -1, row: -1 });
    black_pawn_steps.push(Offset { col: 1, row: -1 });
    let mut white_pawn_steps: Vec<Offset> = Vec::new();
    white_pawn_steps.push(Offset { col: 0, row: 1 });
    white_pawn_steps.push(Offset { col: -1, row: 1 });
    white_pawn_steps.push(Offset { col: 1, row: 1 });
    let mut king_offsets: Vec<Offset> = Vec::new();
    king_offsets.push(Offset { col: 0, row: -1 });
    king_offsets.push(Offset { col: -1, row: -1 });
    king_offsets.push(Offset { col: 1, row: -1 });
    king_offsets.push(Offset { col: 0, row: 1 });
    king_offsets.push(Offset { col: -1, row: 1 });
    king_offsets.push(Offset { col: 1, row: 1 });
    let black_pawn = Piece::new(false, 'p', single_steps(&black_pawn_steps));
    let white_pawn = Piece::new(true, 'p', single_steps(&white_pawn_steps));
    let white_king = Piece::new(true, 'k', single_steps(&king_offsets));
    let white_rook = Piece::new(true, 'r', Offset::all_axis(&up));
    let white_bishop = Piece::new(true, 'b', Offset::all_axis(&diag_up_right));
    let white_queen = Piece::new(
        true,
        'Q',
        concat_moves(&white_bishop.allowed_moves, &white_rook.allowed_moves),
    );
    let white_knight = Piece::new(true, 'N', concat_moves(&Offset::all_axis(&l), &Offset::all_axis(&rev_l)));
    let black_rook = Piece::just_inverse_color(&white_rook);
    let black_king = Piece::just_inverse_color(&white_king);
    let black_bishop = Piece::just_inverse_color(&white_bishop);
    let black_queen = Piece::just_inverse_color(&white_queen);
    let black_knight = Piece::just_inverse_color(&white_knight);
    let empty = Piece::new(true, '.', Vec::new());
    let mut pieces: Vec<Piece> = Vec::new();
    pieces.push(black_pawn);
    pieces.push(white_pawn);
    pieces.push(white_king);
    pieces.push(white_rook);
    pieces.push(white_bishop);
    pieces.push(white_queen);
    pieces.push(white_knight);
    pieces.push(black_rook);
    pieces.push(black_king);
    pieces.push(black_bishop);
    pieces.push(black_queen);
    pieces.push(black_knight);
    pieces.push(empty);
    proof {
        assert(moves_of(pieces@[12].allowed_moves@) =~= standard_moves(12));
        assert(moves_of(pieces@[2].allowed_moves@) == king_steps()) by {
            assert(king_offsets@ =~= seq![
                off(0, -1),
                off(-1, -1),
                off(1, -1),
                off(0, 1),
                off(-1, 1),
                off(1, 1),
            ]);
        }
        assert(black_pawn_steps@ =~= seq![off(0, -1), off(-1, -1), off(1, -1)]);
        assert(white_pawn_steps@ =~= seq![off(0, 1), off(-1, 1), off(1, 1)]);
        assert(l@ =~= seq![off(1, -2)]);
        assert(rev_l@ =~= seq![off(-1, -2)]);
        assert forall|k: int| 0 <= k < NB_PIECES implies (#[trigger] pieces@[k]).c == standard_letter(k)
            && pieces@[k].white == standard_white(k) && moves_of(pieces@[k].allowed_moves@) == standard_moves(k) by {
        }
        assert forall|k: int| 0 <= k < NB_PIECES implies short_offsets_all(moves_of(#[trigger] pieces@[k].allowed_moves@)) by {
            lemma_standard_short(k);
        }
        assert forall|i: int, d: int, k: int|
            0 <= i < pieces@.len() && 0 <= d < pieces@[i].allowed_moves@.len() && 0 <= k < pieces@[i].allowed_moves@[d]@.len()
                implies small_offset(#[trigger] pieces@[i].allowed_moves@[d]@[k]) by {
            assert(short_offsets_all(moves_of(pieces@[i].allowed_moves@)));
            assert(moves_of(pieces@[i].allowed_moves@)[d] == pieces@[i].allowed_moves@[d]@);
            assert(short_offsets(moves_of(pieces@[i].allowed_moves@)[d]));
        }
        assert(pieces@[2].c == 'K');
        assert(pieces@[8].c == 'k');
        assert(pieces@[12].c == '.');
    }
    pieces
}

/// Every direction holds short offsets.
pub open spec fn short_offsets_all(m: Seq<Seq<Offset>>) -> bool {
    forall|d: int| 0 <= d < m.len() ==> short_offsets(#[trigger] m[d])
}

/// The standard pieces move by short offsets.
proof fn lemma_standard_short(k: int)
    ensures
        short_offsets_all(standard_moves(k)),
{
    lemma_axes_short(up_ray());
    lemma_axes_short(diag_ray());
    lemma_axes_short(seq![off(1, -2)]);
    lemma_axes_short(seq![off(-1, -2)]);
    let m = standard_moves(k);
    assert forall|d: int| 0 <= d < m.len() implies short_offsets(#[trigger] m[d]) by {
        if k == 5 || k == 10 {
            if d < 4 {
                assert(m[d] == axes(diag_ray())[d]);
            } else {
                assert(m[d] == axes(up_ray())[d - 4]);
            }
        } else if k == 6 || k == 11 {
            if d < 4 {
                assert(m[d] == axes(seq![off(1, -2)])[d]);
            } else {
                assert(m[d] == axes(seq![off(-1, -2)])[d - 4]);
            }
        }
    }
}

} // verus!
