//! Spelling a phrase on a track of letter rings.
//!
//! The terrain is a circular track of `NB_ZONES` zones; each zone holds a
//! rune, a ring of `NB_RUNES` letters (a space, then `a` to `z`). The player
//! stands on one zone. `<` and `>` move the player one zone down or up the
//! track, `-` and `+` turn the rune under the player one letter down or up,
//! and `.` reads the letter of that rune. A phrase is spelled one letter at a
//! time: for every letter the solver picks the zone whose rune is cheapest to
//! reach and to turn to the letter.
use vstd::prelude::*;
use vstd::arithmetic::div_mod::*;
use vstd::string::*;
use vstd::array::*;
use crate::text::{append_repeated, append_str, repeat_char};

verus! {

/// How many of the cheapest transitions are kept for each letter.
pub const POSSIBILITIES_TO_CONSIDER: usize = 4;

/// The code of the letter `a`.
pub const A: isize = 97;

/// Number of zones on the track.
pub const NB_ZONES: usize = 30;

/// Number of letters on a rune: the space and the 26 letters.
pub const NB_RUNES: usize = 27;

/// A command character that turns a ring one step.
#[derive(Clone, Copy, Debug)]
pub struct Roll {
    pub c: char,
}

/// Turns a rune one letter up.
pub fn rune_up() -> (r: Roll)
    ensures
        r.c == '+',
{
    Roll { c: '+' }
}

/// Turns a rune one letter down.
pub fn rune_down() -> (r: Roll)
    ensures
        r.c == '-',
{
    Roll { c: '-' }
}

/// Moves the player one zone up.
pub fn zone_up() -> (r: Roll)
    ensures
        r.c == '>',
{
    Roll { c: '>' }
}

/// Moves the player one zone down.
pub fn zone_down() -> (r: Roll)
    ensures
        r.c == '<',
{
    Roll { c: '<' }
}

/// A circular counter: `current` is a position among `top` positions.
#[derive(Clone, Copy, Debug)]
pub struct Ring {
    pub top: isize,
    pub current: isize,
}

/// A number of repetitions of one roll.
#[derive(Clone, Copy, Debug)]
pub struct Move {
    pub times: usize,
    pub roll: Roll,
}

/// The terrain: one rune per zone, and the zone the player stands on.
#[derive(Clone, Copy, Debug)]
pub struct Terrain {
    pub runes: [Ring; 30],
    pub zones: Ring,
}

/// A candidate step: go to zone `rune_index` and turn its rune to `letter_i`.
#[derive(Clone, Copy, Debug)]
pub struct Transition {
    pub rune_index: usize,
    pub letter_i: usize,
    pub zone_move: Move,
    pub rune_move: Move,
}

/// A candidate step with the terrains it leads to and what they cost.
#[derive(Debug)]
pub struct LookAhead {
    pub seed: Transition,
    pub terrains_costs: Vec<(Terrain, usize)>,
}

/// Steps needed to turn a ring down from `current` to `target`, wrapping once.
pub open spec fn dist_down(current: int, target: int, top: int) -> int {
    if current - target < 0 {
        current - target + top
    } else {
        current - target
    }
}

/// Steps needed to turn a ring up from `current` to `target`, wrapping once.
pub open spec fn dist_up(current: int, target: int, top: int) -> int {
    if target - current < 0 {
        target - current + top
    } else {
        target - current
    }
}

/// Whether going up is strictly shorter than going down.
pub open spec fn goes_up(ring: Ring, target: int) -> bool {
    dist_up(ring.current as int, target, ring.top as int) < dist_down(
        ring.current as int,
        target,
        ring.top as int,
    )
}

/// The move that brings `ring` to `target`: the shorter direction, down on a tie.
pub open spec fn ring_move(ring: Ring, target: int, roll_down: Roll, roll_up: Roll) -> Move {
    if goes_up(ring, target) {
        Move {
            times: dist_up(ring.current as int, target, ring.top as int) as usize,
            roll: roll_up,
        }
    } else {
        Move {
            times: dist_down(ring.current as int, target, ring.top as int) as usize,
            roll: roll_down,
        }
    }
}

/// The distances `set_to` computes, and the wrap-around it adds to a
/// negative one, fit in an `isize`.
pub open spec fn set_to_fits(ring: Ring, target: int) -> bool {
    let down = ring.current - target;
    let up = target - ring.current;
    &&& isize::MIN <= down <= isize::MAX
    &&& isize::MIN <= up <= isize::MAX
    &&& down < 0 ==> isize::MIN <= down + ring.top <= isize::MAX
    &&& up < 0 ==> isize::MIN <= up + ring.top <= isize::MAX
}

/// A terrain as the solver keeps it when it aims at spellable characters:
/// 30 runes of 27 letters on a track of 30 zones, the player on a zone, and
/// every rune at a letter index of at most `NB_RUNES`.
pub open spec fn terrain_ok(t: Terrain) -> bool {
    &&& t.zones.top == NB_ZONES
    &&& 0 <= t.zones.current < NB_ZONES
    &&& forall|i: int|
        0 <= i < NB_ZONES ==> (#[trigger] t.runes[i]).top == NB_RUNES && 0 <= t.runes[i].current
            <= NB_RUNES
}

/// A terrain whose every position lies inside its ring: 30 runes of 27
/// letters on a track of 30 zones.
pub open spec fn terrain_wf(t: Terrain) -> bool {
    &&& t.zones.top == NB_ZONES
    &&& 0 <= t.zones.current < NB_ZONES
    &&& forall|i: int|
        0 <= i < NB_ZONES ==> (#[trigger] t.runes[i]).top == NB_RUNES && 0 <= t.runes[i].current
            < NB_RUNES
}

/// The spec roll characters.
pub open spec fn rune_up_roll() -> Roll {
    Roll { c: '+' }
}

pub open spec fn rune_down_roll() -> Roll {
    Roll { c: '-' }
}

pub open spec fn zone_up_roll() -> Roll {
    Roll { c: '>' }
}

pub open spec fn zone_down_roll() -> Roll {
    Roll { c: '<' }
}

/// The transition that goes to zone `i` and turns its rune to `letter_i`.
pub open spec fn candidate(t: Terrain, letter_i: int, i: int) -> Transition {
    Transition {
        letter_i: letter_i as usize,
        rune_index: i as usize,
        zone_move: ring_move(t.zones, i, zone_down_roll(), zone_up_roll()),
        rune_move: ring_move(t.runes[i], letter_i, rune_down_roll(), rune_up_roll()),
    }
}

/// The cost of a transition: the number of commands it writes, the read aside.
pub open spec fn spec_score(tr: Transition) -> int {
    tr.zone_move.times + tr.rune_move.times
}

/// Candidate `i` is preferred to candidate `j`: cheaper, or as cheap with a
/// lower zone index.
pub open spec fn better(t: Terrain, letter_i: int, i: int, j: int) -> bool {
    let si = spec_score(candidate(t, letter_i, i));
    let sj = spec_score(candidate(t, letter_i, j));
    si < sj || (si == sj && i < j)
}

/// Zone `i` holds the preferred candidate among all zones.
pub open spec fn is_best(t: Terrain, letter_i: int, i: int) -> bool {
    &&& 0 <= i < NB_ZONES
    &&& forall|j: int| 0 <= j < NB_ZONES && j != i ==> better(t, letter_i, i, j)
}

/// The text a transition writes: the zone rolls, then the rune rolls.
pub open spec fn transition_text(tr: Transition) -> Seq<char> {
    repeat_char(tr.zone_move.roll.c, tr.zone_move.times as nat) + repeat_char(
        tr.rune_move.roll.c,
        tr.rune_move.times as nat,
    )
}

/// The terrain after a transition: the player on its zone, whose rune shows its letter.
pub open spec fn next_terrain(tr: Transition, t: Terrain) -> Terrain {
    Terrain {
        runes: spec_array_update(
            t.runes,
            tr.rune_index as int,
            Ring { top: t.runes[tr.rune_index as int].top, current: tr.letter_i as isize },
        ),
        zones: Ring { top: t.zones.top, current: tr.rune_index as isize },
    }
}

/// The letter index of a character: its ASCII lower case minus `a - 1`,
/// clamped to 0..=255 (a space gives 0).
pub open spec fn letter_index(c: char) -> int {
    let v = ascii_lower_code(c) - (A - 1);
    if v < 0 {
        0
    } else if v > 255 {
        255
    } else {
        v
    }
}

/// The code of the ASCII lower case of a character.
pub open spec fn ascii_lower_code(c: char) -> int {
    if 'A' <= c <= 'Z' {
        c as int + 32
    } else {
        c as int
    }
}

/// A character that a rune can show: one whose letter index is below
/// `NB_RUNES` (the space, the letters, and every character below `a` that is
/// not a capital letter, which count as the space).
pub open spec fn readable(c: char) -> bool {
    letter_index(c) < NB_RUNES
}

/// A character the solver can aim at: a readable one, or `{`, whose letter
/// index `NB_RUNES` lies just past the last letter; a rune turned to it shows
/// the space once more.
pub open spec fn spellable(c: char) -> bool {
    letter_index(c) <= NB_RUNES
}

/// The terrain at the start: every rune on the space, the player on zone 0.
pub open spec fn initial_terrain() -> Terrain {
    Terrain {
        runes: spec_array_fill_for_copy_type::<Ring, 30>(Ring { top: NB_RUNES as isize, current: 0 }),
        zones: Ring { top: NB_ZONES as isize, current: 0 },
    }
}

/// The index of the preferred zone for a letter.
pub open spec fn best_index(t: Terrain, letter_i: int) -> int {
    choose|i: int| is_best(t, letter_i, i)
}

/// The text written and the terrain reached after spelling the first `n`
/// characters of `phrase`, each letter followed by the read command `.`.
pub open spec fn spell_prefix(phrase: Seq<char>, n: nat) -> (Seq<char>, Terrain)
    decreases n,
{
    if n == 0 {
        (Seq::empty(), initial_terrain())
    } else {
        let (text, t) = spell_prefix(phrase, (n - 1) as nat);
        let letter = letter_index(phrase[n - 1]);
        let tr = candidate(t, letter, best_index(t, letter));
        (text + transition_text(tr) + seq!['.'], next_terrain(tr, t))
    }
}

impl Ring {
    /// The shorter way to turn this ring to `target`; the ring itself is left
    /// as it is. On a tie the ring is turned down.
    ///
    /// When the ring's position and the target lie inside the ring, the move
    /// reaches the target, and it takes at most half a turn.
    pub fn set_to(&mut self, target: isize, roll_down: &Roll, roll_up: &Roll) -> (m: Move)
        requires
            set_to_fits(*old(self), target as int),
        ensures
            *final(self) == *old(self),
            m == ring_move(*old(self), target as int, *roll_down, *roll_up),
            0 <= old(self).current < old(self).top && 0 <= target < old(self).top ==> {
                &&& m.times as int <= old(self).top / 2
                &&& goes_up(*old(self), target as int) ==> (old(self).current + m.times)
                    % old(self).top as int == target
                &&& !goes_up(*old(self), target as int) ==> (old(self).current - m.times)
                    % old(self).top as int == target
            },
    {
        let mut dist_down: (isize, &Roll) = (self.current - target, roll_down);
        let mut dist_up: (isize, &Roll) = (target - self.current, roll_up);
        if dist_down.0 < 0 {
            dist_down.0 = dist_down.0 + self.top;
        }
        if dist_up.0 < 0 {
            dist_up.0 = dist_up.0 + self.top;
        }
        let m = if dist_up.0 < dist_down.0 {
            Move { times: dist_up.0 as usize, roll: *dist_up.1 }
        } else {
            Move { times: dist_down.0 as usize, roll: *dist_down.1 }
        };
        proof {
            let top = self.top as int;
            let cur = self.current as int;
            let tg = target as int;
            if 0 <= cur < top && 0 <= tg < top {
                if tg < cur {
                    lemma_mod_add_multiples_vanish(tg, top);
                    lemma_small_mod(tg as nat, top as nat);
                } else {
                    lemma_small_mod(tg as nat, top as nat);
                    lemma_mod_add_multiples_vanish(tg - top, top);
                }
            }
        }
        m
    }
}

impl Terrain {
    /// The starting terrain: every rune on the space, the player on zone 0.
    pub fn new() -> (t: Terrain)
        ensures
            t == initial_terrain(),
            terrain_wf(t),
            terrain_ok(t),
    {
        let t = Terrain {
            runes: [Ring { top: NB_RUNES as isize, current: 0 }; 30],
            zones: Ring { top: NB_ZONES as isize, current: 0 },
        };
        assert(terrain_wf(t));
        t
    }
}

impl Transition {
    /// The number of commands the transition writes before the read.
    pub fn score(&self) -> (s: usize)
        requires
            self.zone_move.times + self.rune_move.times <= usize::MAX,
        ensures
            s == spec_score(*self),
    {
        self.zone_move.times + self.rune_move.times
    }

    /// The commands of the transition: zone rolls first, then rune rolls.
    pub fn to_string(&self) -> (s: String)
        ensures
            s@ == transition_text(*self),
    {
        let mut z = String::new();
        append_repeated(&mut z, self.zone_move.roll.c, self.zone_move.times);
        append_repeated(&mut z, self.rune_move.roll.c, self.rune_move.times);
        assert(z@ =~= transition_text(*self));
        z
    }
}

impl LookAhead {
    /// A look-ahead that starts from `base` with the cost of `seed`.
    pub fn new(seed: &Transition, base: Terrain) -> (l: LookAhead)
        requires
            seed.zone_move.times + seed.rune_move.times <= usize::MAX,
        ensures
            l.seed == *seed,
            l.terrains_costs@ == seq![(base, spec_score(*seed) as usize)],
    {
        let mut terrains_costs: Vec<(Terrain, usize)> = Vec::new();
        terrains_costs.push((base, seed.score()));
        LookAhead { seed: *seed, terrains_costs }
    }
}

/// The letter index of the character at `i` in `phrase`.
pub fn get_char_index_at(i: usize, phrase: &String) -> (r: isize)
    requires
        i < phrase@.len(),
    ensures
        r as int == letter_index(phrase@[i as int]),
{
    let c: char = phrase.as_str().get_char(i);
    let code: u32 = c as u32;
    let lower: isize = if c >= 'A' && c <= 'Z' {
        code as isize + 32
    } else {
        code as isize
    };
    let v: isize = lower - (A - 1);
    if v < 0 {
        0
    } else if v > 255 {
        255
    } else {
        v
    }
}

/// The transition to zone `i`, built as the solver builds it.
fn make_candidate(terrain: &Terrain, letter_i: isize, i: usize) -> (tr: Transition)
    requires
        terrain_ok(*terrain),
        0 <= letter_i <= NB_RUNES,
        i < NB_ZONES,
    ensures
        tr == candidate(*terrain, letter_i as int, i as int),
        tr.zone_move.times < NB_ZONES,
        tr.rune_move.times <= NB_RUNES,
{
    let mut zones = terrain.zones;
    let mut rune = terrain.runes[i];
    let zd = zone_down();
    let zu = zone_up();
    let rd = rune_down();
    let ru = rune_up();
    let zone_move = zones.set_to(i as isize, &zd, &zu);
    let rune_move = rune.set_to(letter_i, &rd, &ru);
    Transition { letter_i: letter_i as usize, rune_index: i, zone_move, rune_move }
}

/// The `POSSIBILITIES_TO_CONSIDER` preferred transitions towards the letter
/// `letter_i`, cheapest first; among transitions of equal cost, the lower zone
/// index comes first.
pub fn best_transitions(terrain: &Terrain, letter_i: isize) -> (res: [Transition; 4])
    requires
        terrain_ok(*terrain),
        0 <= letter_i <= NB_RUNES,
    ensures
        forall|k: int|
            0 <= k < 4 ==> (#[trigger] res[k]).rune_index < NB_ZONES && res[k] == candidate(
                *terrain,
                letter_i as int,
                res[k].rune_index as int,
            ),
        forall|k1: int, k2: int|
            0 <= k1 < k2 < 4 ==> better(
                *terrain,
                letter_i as int,
                #[trigger] res[k1].rune_index as int,
                #[trigger] res[k2].rune_index as int,
            ),
        forall|j: int|
            0 <= j < NB_ZONES && (forall|k: int| 0 <= k < 4 ==> j != #[trigger] res[k].rune_index)
                ==> #[trigger] better(*terrain, letter_i as int, res[3].rune_index as int, j),
{
    let ghost t = *terrain;
    let ghost l = letter_i as int;
    let mut transitions: Vec<Transition> = Vec::new();
    let mut i: usize = 0;
    while i < NB_ZONES
        invariant
            i <= NB_ZONES,
            terrain_ok(*terrain),
            0 <= letter_i <= NB_RUNES,
            t == *terrain,
            l == letter_i as int,
            transitions@.len() == i,
            forall|k: int| 0 <= k < i ==> #[trigger] transitions@[k] == candidate(t, l, k),
            forall|k: int|
                0 <= k < i ==> (#[trigger] transitions@[k]).zone_move.times < NB_ZONES
                    && transitions@[k].rune_move.times <= NB_RUNES,
        decreases NB_ZONES - i,
    {
        let tr = make_candidate(terrain, letter_i, i);
        assert(tr == candidate(t, l, i as int));
        transitions.push(tr);
        assert(transitions@[i as int] == candidate(t, l, i as int));
        i = i + 1;
    }
    let mut chosen: Vec<Transition> = Vec::new();
    let mut k: usize = 0;
    while k < POSSIBILITIES_TO_CONSIDER
        invariant
            k <= POSSIBILITIES_TO_CONSIDER,
            t == *terrain,
            l == letter_i as int,
            transitions@.len() == NB_ZONES,
            forall|m: int| 0 <= m < NB_ZONES ==> #[trigger] transitions@[m] == candidate(t, l, m),
            forall|m: int|
                0 <= m < NB_ZONES ==> (#[trigger] transitions@[m]).zone_move.times < NB_ZONES
                    && transitions@[m].rune_move.times <= NB_RUNES,
            chosen@.len() == k,
            forall|m: int|
                0 <= m < k ==> (#[trigger] chosen@[m]).rune_index < NB_ZONES && chosen@[m]
                    == candidate(t, l, chosen@[m].rune_index as int),
            forall|m1: int, m2: int|
                0 <= m1 < m2 < k ==> better(
                    t,
                    l,
                    #[trigger] chosen@[m1].rune_index as int,
                    #[trigger] chosen@[m2].rune_index as int,
                ),
            k > 0 ==> forall|j: int|
                0 <= j < NB_ZONES && (forall|m: int| 0 <= m < k ==> j != #[trigger] chosen@[m].rune_index)
                    ==> #[trigger] better(t, l, chosen@[k - 1].rune_index as int, j),
        decreases POSSIBILITIES_TO_CONSIDER - k,
    {
        // The next transition in order is the preferred one among those that
        // come after the last one chosen.
        let mut best: usize = NB_ZONES;
        let mut j: usize = 0;
        while j < NB_ZONES
            invariant
                j <= NB_ZONES,
                k < POSSIBILITIES_TO_CONSIDER,
                t == *terrain,
                l == letter_i as int,
                transitions@.len() == NB_ZONES,
                forall|m: int| 0 <= m < NB_ZONES ==> #[trigger] transitions@[m] == candidate(t, l, m),
                forall|m: int|
                    0 <= m < NB_ZONES ==> (#[trigger] transitions@[m]).zone_move.times < NB_ZONES
                        && transitions@[m].rune_move.times <= NB_RUNES,
                chosen@.len() == k,
                forall|m: int|
                    0 <= m < k ==> (#[trigger] chosen@[m]).rune_index < NB_ZONES,
                best == NB_ZONES || best < j,
                best < NB_ZONES ==> (k == 0 || better(t, l, chosen@[k - 1].rune_index as int, best as int)),
                forall|m: int|
                    0 <= m < j && #[trigger] comes_after(t, l, chosen@, k as int, m)
                        ==> best < NB_ZONES && (m == best || better(t, l, best as int, m)),
            decreases NB_ZONES - j,
        {
            let after_last = if k == 0 {
                true
            } else {
                let last = &chosen[k - 1];
                let prev = &transitions[last.rune_index];
                let cand = &transitions[j];
                prev.score() < cand.score() || (prev.score() == cand.score() && last.rune_index < j)
            };
            assert(after_last == comes_after(t, l, chosen@, k as int, j as int));
            let ghost old_best = best;
            if after_last {
                if best == NB_ZONES {
                    best = j;
                } else {
                    let b = &transitions[best];
                    let cand = &transitions[j];
                    if cand.score() < b.score() {
                        best = j;
                        assert(better(t, l, j as int, old_best as int));
                    } else {
                        assert(better(t, l, best as int, j as int));
                    }
                }
            }
            assert forall|m: int|
                0 <= m < j + 1 && #[trigger] comes_after(t, l, chosen@, k as int, m)
                implies best < NB_ZONES && (m == best || better(t, l, best as int, m)) by {
                if m < j {
                    assert(old_best < NB_ZONES && (m == old_best || better(t, l, old_best as int, m)));
                }
            }
            j = j + 1;
        }
        proof {
            // Some zone comes after the last one chosen: at most three were chosen.
            if k > 0 {
                let idx = chosen@.map_values(|tr: Transition| tr.rune_index as int);
                lemma_free_zone(idx, k as int);
                let m0 = choose|m: int| 0 <= m < 4 && #[trigger] not_chosen(idx, k as int, m);
                assert forall|q: int| 0 <= q < k implies m0 != #[trigger] chosen@[q].rune_index by {
                    assert(m0 != idx[q]);
                }
                assert(better(t, l, chosen@[k - 1].rune_index as int, m0));
                assert(comes_after(t, l, chosen@, k as int, m0));
            } else {
                assert(comes_after(t, l, chosen@, k as int, 0));
            }
        }
        assert(best < NB_ZONES);
        let ghost before = chosen@;
        chosen.push(transitions[best]);
        proof {
            assert(chosen@[k as int] == candidate(t, l, best as int));
            assert forall|j: int|
                0 <= j < NB_ZONES && (forall|m: int| 0 <= m < k + 1 ==> j != #[trigger] chosen@[m].rune_index)
                implies #[trigger] better(t, l, chosen@[k as int].rune_index as int, j) by {
                assert(j != chosen@[k as int].rune_index);
                if k > 0 {
                    assert forall|m: int| 0 <= m < k implies j != #[trigger] before[m].rune_index by {
                        assert(before[m] == chosen@[m]);
                        assert(j != chosen@[m].rune_index);
                    }
                    assert(better(t, l, before[k - 1].rune_index as int, j));
                }
                assert(comes_after(t, l, before, k as int, j));
            }
            assert forall|m1: int, m2: int|
                0 <= m1 < m2 < k + 1 implies better(
                    t,
                    l,
                    #[trigger] chosen@[m1].rune_index as int,
                    #[trigger] chosen@[m2].rune_index as int,
                ) by {
                assert(chosen@[m1] == before[m1]);
                if m2 < k {
                    assert(chosen@[m2] == before[m2]);
                } else if m1 < k - 1 {
                    assert(better(t, l, before[m1].rune_index as int, before[k - 1].rune_index as int));
                }
            }
        }
        k = k + 1;
    }
    let res = [chosen[0], chosen[1], chosen[2], chosen[3]];
    assert(res@ =~= chosen@);
    assert forall|j: int|
        0 <= j < NB_ZONES && (forall|m: int| 0 <= m < 4 ==> j != #[trigger] res[m].rune_index)
        implies #[trigger] better(t, l, res[3].rune_index as int, j) by {
        assert forall|m: int| 0 <= m < 4 implies j != #[trigger] chosen@[m].rune_index by {
            assert(res[m] == chosen@[m]);
        }
        assert(better(t, l, chosen@[k - 1].rune_index as int, j));
        assert(res[3] == chosen@[3]);
    }
    res
}

/// Zone `m` comes after the last of the `k` zones chosen so far, in the
/// order of preference.
spec fn comes_after(t: Terrain, l: int, chosen: Seq<Transition>, k: int, m: int) -> bool {
    k == 0 || better(t, l, chosen[k - 1].rune_index as int, m)
}

/// Zone `m` is none of the first `k` chosen zones.
spec fn not_chosen(idx: Seq<int>, k: int, m: int) -> bool {
    forall|q: int| 0 <= q < k ==> m != #[trigger] idx[q]
}

/// Among the zones 0 to 3, one is not among fewer than four chosen zones.
proof fn lemma_free_zone(idx: Seq<int>, k: int)
    requires
        0 <= k < 4,
        idx.len() == k,
    ensures
        exists|m: int| 0 <= m < 4 && #[trigger] not_chosen(idx, k, m),
{
    if forall|q: int| 0 <= q < k ==> 0 != #[trigger] idx[q] {
        assert(not_chosen(idx, k, 0));
    } else if forall|q: int| 0 <= q < k ==> 1 != #[trigger] idx[q] {
        assert(not_chosen(idx, k, 1));
    } else if forall|q: int| 0 <= q < k ==> 2 != #[trigger] idx[q] {
        assert(not_chosen(idx, k, 2));
    } else {
        let q0 = choose|q: int| 0 <= q < k && 0 == idx[q];
        let q1 = choose|q: int| 0 <= q < k && 1 == idx[q];
        let q2 = choose|q: int| 0 <= q < k && 2 == idx[q];
        assert(forall|q: int| 0 <= q < k ==> 3 != #[trigger] idx[q]);
        assert(not_chosen(idx, k, 3));
    }
}

/// The terrain after `transition`: the player stands on its zone and that
/// zone's rune shows its letter.
pub fn get_next_state(transition: &Transition, origin: &Terrain) -> (next: Terrain)
    requires
        transition.rune_index < NB_ZONES,
        transition.letter_i <= isize::MAX,
    ensures
        next == next_terrain(*transition, *origin),
{
    let mut next_state: Terrain = Terrain { runes: origin.runes, zones: origin.zones };
    next_state.zones.current = transition.rune_index as isize;
    let idx: usize = next_state.zones.current as usize;
    let mut ring = next_state.runes[idx];
    ring.current = transition.letter_i as isize;
    next_state.runes[idx] = ring;
    assert(next_state.runes =~= next_terrain(*transition, *origin).runes);
    next_state
}

} // verus!

verus! {

/// Only one zone holds the preferred candidate.
pub proof fn lemma_best_unique(t: Terrain, letter_i: int, i: int, j: int)
    requires
        is_best(t, letter_i, i),
        is_best(t, letter_i, j),
    ensures
        i == j,
{
    if i != j {
        assert(better(t, letter_i, i, j));
        assert(better(t, letter_i, j, i));
    }
}

/// A move towards a letter keeps the terrain well formed.
pub proof fn lemma_next_terrain_wf(t: Terrain, letter_i: int, i: int)
    requires
        terrain_wf(t),
        0 <= letter_i < NB_RUNES,
        0 <= i < NB_ZONES,
    ensures
        terrain_wf(next_terrain(candidate(t, letter_i, i), t)),
{
    let n = next_terrain(candidate(t, letter_i, i), t);
    assert forall|z: int| 0 <= z < NB_ZONES implies (#[trigger] n.runes[z]).top == NB_RUNES && 0
        <= n.runes[z].current < NB_RUNES by {
        if z != i {
            assert(n.runes[z] == t.runes[z]);
        }
    }
}

/// A move towards a spellable letter keeps the terrain as the solver keeps it.
proof fn lemma_next_terrain_ok(t: Terrain, letter_i: int, i: int)
    requires
        terrain_ok(t),
        0 <= letter_i <= NB_RUNES,
        0 <= i < NB_ZONES,
    ensures
        terrain_ok(next_terrain(candidate(t, letter_i, i), t)),
{
    let n = next_terrain(candidate(t, letter_i, i), t);
    assert forall|z: int| 0 <= z < NB_ZONES implies (#[trigger] n.runes[z]).top == NB_RUNES && 0
        <= n.runes[z].current <= NB_RUNES by {
        if z != i {
            assert(n.runes[z] == t.runes[z]);
        }
    }
}

/// The text for the character at `phrase_index` and the terrain it leads
/// to: the preferred transition towards that character's letter.
pub fn get_move(phrase_index: usize, phrase: &String, terrain: Terrain) -> (r: (String, Terrain))
    requires
        phrase_index < phrase@.len(),
        terrain_ok(terrain),
        spellable(phrase@[phrase_index as int]),
    ensures
        ({
            let l = letter_index(phrase@[phrase_index as int]);
            let tr = candidate(terrain, l, best_index(terrain, l));
            &&& r.0@ == transition_text(tr)
            &&& r.1 == next_terrain(tr, terrain)
        }),
        terrain_ok(r.1),
{
    let letter_i = get_char_index_at(phrase_index, phrase);
    let seeds = best_transitions(&terrain, letter_i);
    let mut look_ahead: Vec<LookAhead> = Vec::new();
    let mut k: usize = 0;
    while k < POSSIBILITIES_TO_CONSIDER
        invariant
            k <= POSSIBILITIES_TO_CONSIDER,
            look_ahead@.len() == k,
            forall|m: int| 0 <= m < k ==> (#[trigger] look_ahead@[m]).seed == seeds[m],
            forall|m: int|
                0 <= m < 4 ==> (#[trigger] seeds[m]).zone_move.times < NB_ZONES
                    && seeds[m].rune_move.times <= NB_RUNES,
        decreases POSSIBILITIES_TO_CONSIDER - k,
    {
        look_ahead.push(LookAhead::new(&seeds[k], terrain));
        k = k + 1;
    }
    let selected: &LookAhead = &look_ahead[0];
    let ghost l = letter_i as int;
    let ghost r0 = seeds[0].rune_index as int;
    proof {
        assert forall|j: int| 0 <= j < NB_ZONES && j != r0 implies better(terrain, l, r0, j) by {
            if j == seeds[1].rune_index || j == seeds[2].rune_index || j == seeds[3].rune_index {
            } else {
                assert(forall|m: int| 0 <= m < 4 ==> j != #[trigger] seeds[m].rune_index);
                assert(better(terrain, l, seeds[3].rune_index as int, j));
                assert(better(terrain, l, r0, seeds[3].rune_index as int));
            }
        }
        assert(is_best(terrain, l, r0));
        lemma_best_unique(terrain, l, r0, best_index(terrain, l));
        lemma_next_terrain_ok(terrain, l, r0);
    }
    (selected.seed.to_string(), get_next_state(&selected.seed, &terrain))
}

/// The commands that spell `magic_phrase`: for every character, the
/// preferred transition towards its letter followed by the read command `.`.
pub fn spell_phrase(magic_phrase: &String) -> (r: String)
    requires
        forall|i: int| 0 <= i < magic_phrase@.len() ==> spellable(#[trigger] magic_phrase@[i]),
    ensures
        r@ == spell_prefix(magic_phrase@, magic_phrase@.len()).0,
{
    let mut index: usize = 0;
    let mut target_string: String = String::new();
    let mut terrain = Terrain::new();
    let count: usize = magic_phrase.as_str().unicode_len();
    while index < count
        invariant
            count == magic_phrase@.len(),
            index <= count,
            forall|i: int| 0 <= i < magic_phrase@.len() ==> spellable(#[trigger] magic_phrase@[i]),
            terrain_ok(terrain),
            (target_string@, terrain) == spell_prefix(magic_phrase@, index as nat),
        decreases count - index,
    {
        let mvt = get_move(index, magic_phrase, terrain);
        terrain = mvt.1;
        append_str(&mut target_string, mvt.0.as_str());
        append_str(&mut target_string, ".");
        proof {
            reveal_strlit(".");
        }
        index = index + 1;
    }
    target_string
}

} // verus!

verus! {

/// What one command does on the terrain, and the letter index it reads, if
/// any: `>` and `<` move the player one zone up or down the track, `+` and
/// `-` turn the rune under the player one letter up or down, `.` reads the
/// letter of that rune. Both the track and the runes wrap around.
pub open spec fn exec_command(c: char, t: Terrain) -> (Seq<int>, Terrain) {
    let z = t.zones.current as int;
    let rune = t.runes[z];
    if c == '>' {
        (Seq::empty(), Terrain { runes: t.runes, zones: Ring { top: t.zones.top, current: ((z + 1) % NB_ZONES as int) as isize } })
    } else if c == '<' {
        (Seq::empty(), Terrain { runes: t.runes, zones: Ring { top: t.zones.top, current: ((z - 1) % NB_ZONES as int) as isize } })
    } else if c == '+' {
        (
            Seq::empty(),
            Terrain {
                runes: spec_array_update(t.runes, z, Ring { top: rune.top, current: ((rune.current + 1) % NB_RUNES as int) as isize }),
                zones: t.zones,
            },
        )
    } else if c == '-' {
        (
            Seq::empty(),
            Terrain {
                runes: spec_array_update(t.runes, z, Ring { top: rune.top, current: ((rune.current - 1) % NB_RUNES as int) as isize }),
                zones: t.zones,
            },
        )
    } else if c == '.' {
        (seq![rune.current as int], t)
    } else {
        (Seq::empty(), t)
    }
}

/// What a sequence of commands reads, and the terrain it leaves.
pub open spec fn run(cmds: Seq<char>, t: Terrain) -> (Seq<int>, Terrain)
    decreases cmds.len(),
{
    if cmds.len() == 0 {
        (Seq::empty(), t)
    } else {
        let (o1, t1) = exec_command(cmds[0], t);
        let (o2, t2) = run(cmds.drop_first(), t1);
        (o1 + o2, t2)
    }
}

/// Running two sequences of commands one after the other.
pub proof fn lemma_run_append(a: Seq<char>, b: Seq<char>, t: Terrain)
    ensures
        run(a + b, t) == ({
            let (o1, t1) = run(a, t);
            let (o2, t2) = run(b, t1);
            (o1 + o2, t2)
        }),
    decreases a.len(),
{
    if a.len() == 0 {
        assert(a + b =~= b);
        assert(run(a, t).0 + run(b, t).0 =~= run(b, t).0);
    } else {
        assert((a + b)[0] == a[0]);
        assert((a + b).drop_first() =~= a.drop_first() + b);
        let t1 = exec_command(a[0], t).1;
        lemma_run_append(a.drop_first(), b, t1);
        let o0 = exec_command(a[0], t).0;
        let ra = run(a.drop_first(), t1);
        let rb = run(b, ra.1);
        assert(o0 + (ra.0 + rb.0) =~= (o0 + ra.0) + rb.0);
    }
}

/// `((a % m) + k) % m == (a + k) % m`.
proof fn lemma_mod_shift(a: int, k: int, m: int)
    requires
        0 < m,
    ensures
        ((a % m) + k) % m == (a + k) % m,
{
    lemma_add_mod_noop(a, k, m);
    lemma_add_mod_noop_right(a % m, k, m);
    lemma_mod_twice(a, m);
}

/// Moving the player `n` zones one at a time moves it by `n`, wrapping around.
proof fn lemma_run_zone_rolls(c: char, n: nat, t: Terrain)
    requires
        c == '>' || c == '<',
        terrain_wf(t),
    ensures
        run(repeat_char(c, n), t) == (
            Seq::<int>::empty(),
            Terrain {
                runes: t.runes,
                zones: Ring {
                    top: t.zones.top,
                    current: ((if c == '>' {
                        t.zones.current + n
                    } else {
                        t.zones.current - n
                    }) % NB_ZONES as int) as isize,
                },
            },
        ),
    decreases n,
{
    let z = t.zones.current as int;
    if n == 0 {
        lemma_small_mod(z as nat, NB_ZONES as nat);
        assert(repeat_char(c, n) =~= Seq::<char>::empty());
    } else {
        let t1 = exec_command(c, t).1;
        assert(repeat_char(c, n)[0] == c);
        assert(repeat_char(c, n).drop_first() =~= repeat_char(c, (n - 1) as nat));
        lemma_mod_bound(if c == '>' { z + 1 } else { z - 1 }, NB_ZONES as int);
        assert(terrain_wf(t1));
        lemma_run_zone_rolls(c, (n - 1) as nat, t1);
        if c == '>' {
            lemma_mod_shift(z + 1, n - 1, NB_ZONES as int);
        } else {
            lemma_mod_shift(z - 1, -(n - 1), NB_ZONES as int);
        }
        assert(Seq::<int>::empty() + Seq::<int>::empty() =~= Seq::<int>::empty());
    }
}

/// Turning the rune under the player `n` letters one at a time turns it by
/// `n`, wrapping around.
proof fn lemma_run_rune_rolls(c: char, n: nat, t: Terrain)
    requires
        c == '+' || c == '-',
        terrain_wf(t),
    ensures
        run(repeat_char(c, n), t) == (
            Seq::<int>::empty(),
            Terrain {
                runes: spec_array_update(
                    t.runes,
                    t.zones.current as int,
                    Ring {
                        top: t.runes[t.zones.current as int].top,
                        current: ((if c == '+' {
                            t.runes[t.zones.current as int].current + n
                        } else {
                            t.runes[t.zones.current as int].current - n
                        }) % NB_RUNES as int) as isize,
                    },
                ),
                zones: t.zones,
            },
        ),
    decreases n,
{
    let z = t.zones.current as int;
    let cur = t.runes[z].current as int;
    if n == 0 {
        lemma_small_mod(cur as nat, NB_RUNES as nat);
        assert(repeat_char(c, n) =~= Seq::<char>::empty());
        assert(spec_array_update(t.runes, z, Ring { top: t.runes[z].top, current: cur as isize }) =~= t.runes);
    } else {
        let t1 = exec_command(c, t).1;
        assert(repeat_char(c, n)[0] == c);
        assert(repeat_char(c, n).drop_first() =~= repeat_char(c, (n - 1) as nat));
        let next = if c == '+' { cur + 1 } else { cur - 1 };
        lemma_mod_bound(next, NB_RUNES as int);
        assert forall|i: int| 0 <= i < NB_ZONES implies (#[trigger] t1.runes[i]).top == NB_RUNES && 0 <= t1.runes[i].current < NB_RUNES by {
            if i != z {
                assert(t1.runes[i] == t.runes[i]);
            }
        }
        assert(terrain_wf(t1));
        lemma_run_rune_rolls(c, (n - 1) as nat, t1);
        if c == '+' {
            lemma_mod_shift(cur + 1, n - 1, NB_RUNES as int);
        } else {
            lemma_mod_shift(cur - 1, -(n - 1), NB_RUNES as int);
        }
        let fin = run(repeat_char(c, n), t).1;
        let expected = spec_array_update(
            t.runes,
            z,
            Ring { top: t.runes[z].top, current: ((if c == '+' { cur + n } else { cur - n }) % NB_RUNES as int) as isize },
        );
        assert(fin.runes =~= expected);
        assert(Seq::<int>::empty() + Seq::<int>::empty() =~= Seq::<int>::empty());
    }
}

/// The move of a ring towards a target inside it reaches the target.
pub proof fn lemma_ring_move_reaches(ring: Ring, target: int, roll_down: Roll, roll_up: Roll)
    requires
        0 <= ring.current < ring.top,
        0 <= target < ring.top,
    ensures
        ({
            let m = ring_move(ring, target, roll_down, roll_up);
            &&& goes_up(ring, target) ==> (ring.current + m.times) % ring.top as int == target
            &&& !goes_up(ring, target) ==> (ring.current - m.times) % ring.top as int == target
            &&& 0 <= m.times < ring.top
        }),
{
    let top = ring.top as int;
    let tg = target;
    if tg < ring.current {
        lemma_mod_add_multiples_vanish(tg, top);
        lemma_small_mod(tg as nat, top as nat);
    } else {
        lemma_small_mod(tg as nat, top as nat);
        lemma_mod_add_multiples_vanish(tg - top, top);
    }
}

/// Running the commands of a transition brings the terrain to the state
/// the transition leads to, and reads nothing.
pub proof fn lemma_run_transition(t: Terrain, letter_i: int, i: int)
    requires
        terrain_wf(t),
        0 <= letter_i < NB_RUNES,
        0 <= i < NB_ZONES,
    ensures
        run(transition_text(candidate(t, letter_i, i)), t) == (
            Seq::<int>::empty(),
            next_terrain(candidate(t, letter_i, i), t),
        ),
{
    let tr = candidate(t, letter_i, i);
    let zone_text = repeat_char(tr.zone_move.roll.c, tr.zone_move.times as nat);
    let rune_text = repeat_char(tr.rune_move.roll.c, tr.rune_move.times as nat);
    lemma_ring_move_reaches(t.zones, i, zone_down_roll(), zone_up_roll());
    lemma_run_append(zone_text, rune_text, t);
    lemma_run_zone_rolls(tr.zone_move.roll.c, tr.zone_move.times as nat, t);
    let t1 = run(zone_text, t).1;
    assert(t1.zones.current == i);
    assert(terrain_wf(t1));
    assert(t1.runes == t.runes);
    lemma_ring_move_reaches(t.runes[i], letter_i, rune_down_roll(), rune_up_roll());
    lemma_run_rune_rolls(tr.rune_move.roll.c, tr.rune_move.times as nat, t1);
    let t2 = run(rune_text, t1).1;
    assert(t2.runes =~= next_terrain(tr, t).runes);
    assert(Seq::<int>::empty() + Seq::<int>::empty() =~= Seq::<int>::empty());
}

/// Some zone holds the preferred candidate among the first `n` zones.
proof fn lemma_best_among(t: Terrain, letter_i: int, n: int) -> (i: int)
    requires
        1 <= n <= NB_ZONES,
    ensures
        0 <= i < n,
        forall|j: int| 0 <= j < n && j != i ==> better(t, letter_i, i, j),
    decreases n,
{
    if n == 1 {
        0
    } else {
        let b = lemma_best_among(t, letter_i, n - 1);
        if better(t, letter_i, n - 1, b) {
            assert forall|j: int| 0 <= j < n && j != n - 1 implies #[trigger] better(t, letter_i, n - 1, j) by {
                if j != b {
                    assert(better(t, letter_i, b, j));
                }
            }
            n - 1
        } else {
            assert forall|j: int| 0 <= j < n && j != b implies better(t, letter_i, b, j) by {
                if j != n - 1 {
                    assert(better(t, letter_i, b, j));
                }
            }
            b
        }
    }
}

/// Some zone holds the preferred candidate.
pub proof fn lemma_best_exists(t: Terrain, letter_i: int)
    ensures
        is_best(t, letter_i, best_index(t, letter_i)),
{
    let i = lemma_best_among(t, letter_i, NB_ZONES as int);
    assert(is_best(t, letter_i, i));
}

/// The terrain after spelling any prefix of a phrase is well formed.
pub proof fn lemma_spell_prefix_wf(phrase: Seq<char>, n: nat)
    requires
        n <= phrase.len(),
        forall|i: int| 0 <= i < phrase.len() ==> readable(#[trigger] phrase[i]),
    ensures
        terrain_wf(spell_prefix(phrase, n).1),
    decreases n,
{
    if n == 0 {
        assert forall|z: int| 0 <= z < NB_ZONES implies (#[trigger] initial_terrain().runes[z]).top == NB_RUNES
            && 0 <= initial_terrain().runes[z].current < NB_RUNES by {
        }
    } else {
        lemma_spell_prefix_wf(phrase, (n - 1) as nat);
        let t = spell_prefix(phrase, (n - 1) as nat).1;
        let l = letter_index(phrase[n - 1]);
        assert(readable(phrase[n - 1]));
        lemma_best_exists(t, l);
        lemma_next_terrain_wf(t, l, best_index(t, l));
    }
}

/// Spelling reads back the phrase: running the commands written for the
/// first `n` characters of a phrase, from the starting terrain, reads the
/// letter index of each of these characters in turn and ends on the terrain
/// the spelling reached.
pub proof fn lemma_spelled_prefix_reads_back(phrase: Seq<char>, n: nat)
    requires
        n <= phrase.len(),
        forall|i: int| 0 <= i < phrase.len() ==> readable(#[trigger] phrase[i]),
    ensures
        run(spell_prefix(phrase, n).0, initial_terrain()) == (
            Seq::new(n, |k: int| letter_index(phrase[k])),
            spell_prefix(phrase, n).1,
        ),
    decreases n,
{
    if n == 0 {
        assert(Seq::new(0, |k: int| letter_index(phrase[k])) =~= Seq::<int>::empty());
    } else {
        lemma_spelled_prefix_reads_back(phrase, (n - 1) as nat);
        lemma_spell_prefix_wf(phrase, (n - 1) as nat);
        let (text, t) = spell_prefix(phrase, (n - 1) as nat);
        let l = letter_index(phrase[n - 1]);
        assert(readable(phrase[n - 1]));
        lemma_best_exists(t, l);
        let i = best_index(t, l);
        let tr = candidate(t, l, i);
        lemma_run_transition(t, l, i);
        let t2 = next_terrain(tr, t);
        lemma_run_append(text, transition_text(tr), initial_terrain());
        lemma_run_append(text + transition_text(tr), seq!['.'], initial_terrain());
        assert(seq!['.'].drop_first() =~= Seq::<char>::empty());
        assert(t2.zones.current == i);
        assert(t2.runes[i].current == l);
        assert(run(Seq::<char>::empty(), t2) == (Seq::<int>::empty(), t2));
        assert(run(seq!['.'], t2).0 =~= seq![l]);
        assert(Seq::new(n, |k: int| letter_index(phrase[k])) =~= Seq::new((n - 1) as nat, |k: int| letter_index(phrase[k]))
            + Seq::<int>::empty() + seq![l]);
    }
}

/// Spelling a phrase reads it back: running the commands `spell_phrase`
/// writes, from the starting terrain, reads the letter index of every
/// character of the phrase in order.
pub proof fn lemma_spelled_phrase_reads_back(phrase: Seq<char>)
    requires
        forall|i: int| 0 <= i < phrase.len() ==> readable(#[trigger] phrase[i]),
    ensures
        run(spell_prefix(phrase, phrase.len()).0, initial_terrain()).0 == phrase.map_values(|c: char| letter_index(c)),
{
    lemma_spelled_prefix_reads_back(phrase, phrase.len());
    assert(Seq::new(phrase.len(), |k: int| letter_index(phrase[k])) =~= phrase.map_values(|c: char| letter_index(c)));
}

} // verus!
