//! Choosing a witch's command in a potion-brewing contest.
//!
//! A witch holds up to `MAX_INGREDIENTS` ingredients of `INGREDIENTS_TIER`
//! tiers. Spells turn ingredients into others and are exhausted once cast;
//! resting refreshes them; brewing a potion consumes its ingredients and
//! earns its price. Every turn the witch weighs her best brew, her best cast
//! and a rest, and issues the command with the highest score.
use vstd::prelude::*;
use vstd::string::*;
use crate::text::{append_signed, append_str, bool_string, bool_text, signed_decimal};

verus! {

/// Number of ingredient tiers.
pub const INGREDIENTS_TIER: usize = 4;

/// Number of ingredients a witch can hold.
pub const MAX_INGREDIENTS: usize = 10;

/// The kinds of command.
#[allow(non_camel_case_types)]
#[derive(Clone, Copy, Debug, PartialEq, Eq, Structural)]
pub enum Action {
    BREW,
    REST,
    CAST,
    WAIT,
}

/// A command with the score it was chosen by.
#[derive(Clone, Copy, Debug)]
pub struct Command {
    pub action: Action,
    pub id: i32,
    pub score: i32,
}

/// An amount for every ingredient tier: an inventory, or what a recipe adds
/// (positive) and takes (negative).
#[derive(Clone, Copy, Debug)]
pub struct Delta {
    pub val: [i32; 4],
}

/// A witch: her inventory and her rupees.
#[derive(Clone, Copy, Debug)]
pub struct Player {
    pub ingredients: Delta,
    pub score: i32,
}

/// A spell of the witch.
#[derive(Clone, Copy, Debug)]
pub struct Spell {
    pub id: i32,
    pub delta: Delta,
    pub exhausted: bool,
}

/// A client order.
#[derive(Clone, Copy, Debug)]
pub struct Potion {
    pub id: i32,
    pub price: i32,
    pub delta: Delta,
}

/// Bound on every amount, price and score the contest uses, so that the
/// arithmetic on them stays inside an `i32`.
pub open spec fn bounded(v: int) -> bool {
    -0x100_0000 <= v <= 0x100_0000
}

/// Every amount of a delta is bounded.
pub open spec fn delta_bounded(d: Delta) -> bool {
    forall|i: int| 0 <= i < 4 ==> bounded(#[trigger] d.val[i] as int)
}

/// The witch holds what `delta` takes: no tier would go below zero.
pub open spec fn spec_has_ingredients(p: Player, delta: Delta) -> bool {
    forall|i: int| 0 <= i < 4 ==> p.ingredients.val[i] + delta.val[i] >= 0
}

/// The number of ingredients after applying `delta`.
pub open spec fn total_after(p: Player, delta: Delta) -> int {
    (p.ingredients.val[0] + delta.val[0]) + (p.ingredients.val[1] + delta.val[1]) + (
    p.ingredients.val[2] + delta.val[2]) + (p.ingredients.val[3] + delta.val[3])
}

/// The running total that `has_space_for` adds up over the first `n` tiers,
/// each tier's amount converted to a `usize`.
pub open spec fn space_total(p: Player, delta: Delta, n: int) -> int
    decreases n,
{
    if n <= 0 {
        0
    } else {
        space_total(p, delta, n - 1) + ((p.ingredients.val[n - 1] + delta.val[n - 1]) as usize) as int
    }
}

/// The amounts of `p` and `delta` add up inside an `i32`.
pub open spec fn sums_fit(p: Player, delta: Delta) -> bool {
    forall|i: int|
        0 <= i < 4 ==> i32::MIN <= #[trigger] (p.ingredients.val[i] + delta.val[i]) <= i32::MAX
}

/// The sums `has_ingredients` adds up fit in an `i32`: each tier's, as long
/// as every tier before it holds enough.
pub open spec fn checked_sums_fit(p: Player, delta: Delta) -> bool {
    forall|i: int|
        0 <= i < 4 && (forall|j: int| 0 <= j < i ==> p.ingredients.val[j] + delta.val[j] >= 0) ==> i32::MIN
            <= #[trigger] (p.ingredients.val[i] + delta.val[i]) <= i32::MAX
}

/// The running totals `has_space_for` adds up fit in a `usize`.
pub open spec fn space_fits(p: Player, delta: Delta) -> bool {
    forall|n: int| 0 <= n <= 4 ==> #[trigger] space_total(p, delta, n) <= usize::MAX
}

/// The spell can be cast now: it is not exhausted, the witch holds what it
/// takes, and what it leaves fits in her inventory.
pub open spec fn spec_castable(me: Player, spell: Spell) -> bool {
    !spell.exhausted && spec_has_ingredients(me, spell.delta) && total_after(me, spell.delta)
        <= MAX_INGREDIENTS
}

/// The base value of a spell: one, plus for every tier what the spell adds
/// there capped by the room left; a tier over-full resets the value to -10.
pub open spec fn spell_base(spell: Spell, me: Player, n: int) -> int
    decreases n,
{
    if n <= 0 {
        1
    } else {
        let room_left = 10 - me.ingredients.val[n - 1];
        let v = spell_base(spell, me, n - 1) + if room_left < spell.delta.val[n - 1] {
            room_left
        } else {
            spell.delta.val[n - 1] as int
        };
        if room_left < 0 {
            -10
        } else {
            v
        }
    }
}

/// What one potion the witch cannot brew adds to a spell's value: its value
/// once for every tier the witch lacks and the spell produces.
pub open spec fn potion_bonus(spell: Spell, me: Player, pair: (i32, Potion), n: int) -> int
    decreases n,
{
    if n <= 0 {
        0
    } else {
        potion_bonus(spell, me, pair, n - 1) + if me.ingredients.val[n - 1] + pair.1.delta.val[n - 1] < 0
            && spell.delta.val[n - 1] > 0 {
            pair.0 as int
        } else {
            0
        }
    }
}

/// What the potions before `n` that the witch cannot brew add to a spell's value.
pub open spec fn spell_bonus(spell: Spell, me: Player, ranked: Seq<(i32, Potion)>, n: int) -> int
    decreases n,
{
    if n <= 0 {
        0
    } else {
        spell_bonus(spell, me, ranked, n - 1) + if !spec_has_ingredients(me, ranked[n - 1].1.delta) {
            potion_bonus(spell, me, ranked[n - 1], 4)
        } else {
            0
        }
    }
}

/// The sum of the absolute values of the first `n` potion values.
pub open spec fn abs_total(ranked: Seq<(i32, Potion)>, n: int) -> int
    decreases n,
{
    if n <= 0 {
        0
    } else {
        abs_total(ranked, n - 1) + abs_value(ranked[n - 1].0)
    }
}

/// The context value of a spell: its base value plus what the potions the
/// witch cannot brew add.
pub open spec fn spell_context(spell: Spell, my_base: int, me: Player, ranked: Seq<(i32, Potion)>) -> int {
    my_base + spell_bonus(spell, me, ranked, ranked.len() as int)
}

/// Values for scoring spells and potions.
pub trait Score {
    /// The inputs for which `base_value` stays inside an `i32`.
    spec fn base_value_ok(&self, me: &Player) -> bool;

    /// What `base_value` returns.
    spec fn base_value_spec(&self, me: &Player, enemy: &Player) -> int;

    /// The inputs for which `context_value` stays inside an `i32`.
    spec fn context_value_ok(&self, my_base: i32, me: &Player, enemy: &Player, ranked_potions: Seq<(i32, Potion)>) -> bool;

    /// What `context_value` returns.
    spec fn context_value_spec(&self, my_base: i32, me: &Player, enemy: &Player, ranked_potions: Seq<(i32, Potion)>) -> int;

    /// The value of the item on its own.
    fn base_value(&self, me: &Player, enemy: &Player) -> (r: i32)
        requires
            self.base_value_ok(me),
        ensures
            r as int == self.base_value_spec(me, enemy),
    ;

    /// The value of the item given the orders in play.
    fn context_value(&self, my_base: i32, me: &Player, enemy: &Player, ranked_potions: &Vec<(i32, Potion)>) -> (r: i32)
        requires
            self.context_value_ok(my_base, me, enemy, ranked_potions@),
        ensures
            r as int == self.context_value_spec(my_base, me, enemy, ranked_potions@),
    ;
}

/// The partial base values of a spell stay bounded.
proof fn lemma_spell_base_bounded(spell: Spell, me: Player, n: int)
    requires
        delta_bounded(spell.delta),
        delta_bounded(me.ingredients),
        0 <= n <= 4,
    ensures
        -10 - n * 0x100_0010 <= spell_base(spell, me, n) <= 1 + n * 0x100_0010,
        -0x500_0000 <= spell_base(spell, me, n) <= 0x500_0000,
    decreases n,
{
    if n > 0 {
        lemma_spell_base_bounded(spell, me, n - 1);
        assert(bounded(spell.delta.val[n - 1] as int));
        assert(bounded(me.ingredients.val[n - 1] as int));
    }
}

/// A potion's bonus is bounded by four times its value.
proof fn lemma_potion_bonus_bounded(spell: Spell, me: Player, pair: (i32, Potion), n: int)
    requires
        0 <= n <= 4,
    ensures
        -(n * abs_value(pair.0)) <= potion_bonus(spell, me, pair, n) <= n * abs_value(pair.0),
    decreases n,
{
    let a = abs_value(pair.0);
    if n > 0 {
        lemma_potion_bonus_bounded(spell, me, pair, n - 1);
        assert((n - 1) * a + a == n * a) by (nonlinear_arith);
    } else {
        assert(n * a == 0) by (nonlinear_arith)
            requires
                n == 0,
        ;
    }
}

/// The absolute value of a price or value.
pub open spec fn abs_value(v: i32) -> int {
    if v < 0 {
        -v
    } else {
        v as int
    }
}

/// The bonus of the first potions is bounded by four times their absolute total.
proof fn lemma_spell_bonus_bounded(spell: Spell, me: Player, ranked: Seq<(i32, Potion)>, n: int)
    requires
        0 <= n <= ranked.len(),
    ensures
        -4 * abs_total(ranked, n) <= spell_bonus(spell, me, ranked, n) <= 4 * abs_total(ranked, n),
        0 <= abs_total(ranked, n),
    decreases n,
{
    if n > 0 {
        lemma_spell_bonus_bounded(spell, me, ranked, n - 1);
        lemma_potion_bonus_bounded(spell, me, ranked[n - 1], 4);
    }
}

impl Score for Spell {
    open spec fn base_value_ok(&self, me: &Player) -> bool {
        delta_bounded(self.delta) && delta_bounded(me.ingredients)
    }

    open spec fn base_value_spec(&self, me: &Player, enemy: &Player) -> int {
        spell_base(*self, *me, 4)
    }

    open spec fn context_value_ok(&self, my_base: i32, me: &Player, enemy: &Player, ranked_potions: Seq<(i32, Potion)>) -> bool {
        &&& delta_bounded(me.ingredients)
        &&& forall|i: int| 0 <= i < ranked_potions.len() ==> delta_bounded(#[trigger] ranked_potions[i].1.delta)
        &&& abs_value(my_base) + 4 * abs_total(ranked_potions, ranked_potions.len() as int) <= i32::MAX
    }

    open spec fn context_value_spec(&self, my_base: i32, me: &Player, enemy: &Player, ranked_potions: Seq<(i32, Potion)>) -> int {
        spell_context(*self, my_base as int, *me, ranked_potions)
    }

    /// One, plus for every tier what the spell adds there capped by the room
    /// left in the inventory; a tier already over-full resets the value to -10.
    fn base_value(&self, me: &Player, enemy: &Player) -> (r: i32) {
        let mut basic_val: i32 = 1;
        let mut i: usize = 0;
        while i < INGREDIENTS_TIER
            invariant
                i <= INGREDIENTS_TIER,
                delta_bounded(self.delta),
                delta_bounded(me.ingredients),
                basic_val as int == spell_base(*self, *me, i as int),
            decreases INGREDIENTS_TIER - i,
        {
            proof {
                lemma_spell_base_bounded(*self, *me, i as int);
                assert(bounded(self.delta.val[i as int] as int));
                assert(bounded(me.ingredients.val[i as int] as int));
            }
            let room_left: i32 = 10 - me.ingredients.val[i];
            basic_val = basic_val + room_left.min(self.delta.val[i]);
            if room_left < 0 {
                basic_val = -10;
            }
            i = i + 1;
        }
        basic_val
    }

    /// The base value plus, for every order the witch cannot brew, its value
    /// once for each tier she lacks and the spell produces.
    fn context_value(&self, my_base: i32, me: &Player, enemy: &Player, ranked_potions: &Vec<(i32, Potion)>) -> (r: i32) {
        let ghost ranked = ranked_potions@;
        let mut adjusted_val: i32 = my_base;
        let mut n: usize = 0;
        while n < ranked_potions.len()
            invariant
                ranked == ranked_potions@,
                n <= ranked.len(),
                self.context_value_ok(my_base, me, enemy, ranked),
                adjusted_val as int == my_base + spell_bonus(*self, *me, ranked, n as int),
            decreases ranked.len() - n,
        {
            let pair = &ranked_potions[n];
            proof {
                assert(delta_bounded(ranked[n as int].1.delta));
            }
            if !me.has_ingredients(&pair.1.delta) {
                let mut i: usize = 0;
                while i < INGREDIENTS_TIER
                    invariant
                        ranked == ranked_potions@,
                        n < ranked.len(),
                        *pair == ranked[n as int],
                        i <= INGREDIENTS_TIER,
                        self.context_value_ok(my_base, me, enemy, ranked),
                        adjusted_val as int == my_base + spell_bonus(*self, *me, ranked, n as int)
                            + potion_bonus(*self, *me, *pair, i as int),
                    decreases INGREDIENTS_TIER - i,
                {
                    proof {
                        lemma_spell_bonus_bounded(*self, *me, ranked, n as int);
                        lemma_potion_bonus_bounded(*self, *me, *pair, i as int);
                        lemma_abs_total_step(ranked, n as int);
                        assert(delta_bounded(ranked[n as int].1.delta));
                        assert(bounded(me.ingredients.val[i as int] as int));
                        assert(bounded(pair.1.delta.val[i as int] as int));
                        let a = abs_value(pair.0);
                        assert(a * i + a <= 4 * a) by (nonlinear_arith)
                            requires
                                i < 4,
                                a >= 0,
                        ;
                        assert(abs_value(my_base) + 4 * abs_total(ranked, ranked.len() as int) <= i32::MAX);
                    }
                    let needed: bool = (me.ingredients.val[i] + pair.1.delta.val[i]) < 0;
                    if needed && self.delta.val[i] > 0 {
                        adjusted_val = adjusted_val + pair.0;
                    }
                    i = i + 1;
                }
            }
            n = n + 1;
        }
        adjusted_val
    }
}

/// The absolute total grows by the next value.
proof fn lemma_abs_total_step(ranked: Seq<(i32, Potion)>, n: int)
    requires
        0 <= n < ranked.len(),
    ensures
        abs_total(ranked, n + 1) == abs_total(ranked, n) + abs_value(ranked[n].0),
        abs_total(ranked, n + 1) <= abs_total(ranked, ranked.len() as int),
{
    lemma_abs_total_mono(ranked, n + 1, ranked.len() as int);
}

/// The absolute total never decreases.
proof fn lemma_abs_total_mono(ranked: Seq<(i32, Potion)>, a: int, b: int)
    requires
        0 <= a <= b <= ranked.len(),
    ensures
        abs_total(ranked, a) <= abs_total(ranked, b),
    decreases b - a,
{
    if a < b {
        lemma_abs_total_mono(ranked, a, b - 1);
    }
}

impl Score for Potion {
    open spec fn base_value_ok(&self, me: &Player) -> bool {
        true
    }

    open spec fn base_value_spec(&self, me: &Player, enemy: &Player) -> int {
        self.price as int
    }

    open spec fn context_value_ok(&self, my_base: i32, me: &Player, enemy: &Player, ranked_potions: Seq<(i32, Potion)>) -> bool {
        me.score > enemy.score ==> i32::MIN <= my_base * 2 <= i32::MAX
    }

    open spec fn context_value_spec(&self, my_base: i32, me: &Player, enemy: &Player, ranked_potions: Seq<(i32, Potion)>) -> int {
        if me.score > enemy.score {
            my_base * 2
        } else {
            my_base as int
        }
    }

    /// The price of the order.
    fn base_value(&self, me: &Player, enemy: &Player) -> (r: i32) {
        self.price
    }

    /// Twice the base value while the witch leads, the base value otherwise.
    fn context_value(&self, my_base: i32, me: &Player, enemy: &Player, ranked_potions: &Vec<(i32, Potion)>) -> (r: i32) {
        if me.score > enemy.score {
            my_base * 2
        } else {
            my_base
        }
    }
}

impl Player {
    /// Whether the witch holds what `delta` takes.
    pub fn has_ingredients(&self, delta: &Delta) -> (r: bool)
        requires
            checked_sums_fit(*self, *delta),
        ensures
            r == spec_has_ingredients(*self, *delta),
    {
        let mut i: usize = 0;
        while i < INGREDIENTS_TIER
            invariant
                i <= INGREDIENTS_TIER,
                checked_sums_fit(*self, *delta),
                forall|j: int| 0 <= j < i ==> self.ingredients.val[j] + delta.val[j] >= 0,
            decreases INGREDIENTS_TIER - i,
        {
            assert(i32::MIN <= self.ingredients.val[i as int] + delta.val[i as int] <= i32::MAX);
            if self.ingredients.val[i] + delta.val[i] < 0 {
                return false;
            }
            i = i + 1;
        }
        true
    }

    /// Whether the inventory after `delta` holds at most `MAX_INGREDIENTS`
    /// ingredients. Each tier's amount is converted to a `usize` before it is
    /// added up, so a tier below zero counts as a huge amount.
    pub fn has_space_for(&self, delta: &Delta) -> (r: bool)
        requires
            sums_fit(*self, *delta),
            space_fits(*self, *delta),
        ensures
            r == (space_total(*self, *delta, 4) <= MAX_INGREDIENTS),
            spec_has_ingredients(*self, *delta) ==> (r == (total_after(*self, *delta) <= MAX_INGREDIENTS)),
    {
        let mut total: usize = 0;
        let mut i: usize = 0;
        while i < INGREDIENTS_TIER
            invariant
                i <= INGREDIENTS_TIER,
                sums_fit(*self, *delta),
                forall|n: int| 0 <= n <= 4 ==> #[trigger] space_total(*self, *delta, n) <= usize::MAX,
                total as int == space_total(*self, *delta, i as int),
            decreases INGREDIENTS_TIER - i,
        {
            assert(i32::MIN <= self.ingredients.val[i as int] + delta.val[i as int] <= i32::MAX);
            assert(space_total(*self, *delta, i + 1) <= usize::MAX);
            total = total + (self.ingredients.val[i] + delta.val[i]) as usize;
            i = i + 1;
        }
        proof {
            assert(space_total(*self, *delta, 1) == space_total(*self, *delta, 0) + ((self.ingredients.val[0] + delta.val[0]) as usize) as int);
            assert(space_total(*self, *delta, 2) == space_total(*self, *delta, 1) + ((self.ingredients.val[1] + delta.val[1]) as usize) as int);
            assert(space_total(*self, *delta, 3) == space_total(*self, *delta, 2) + ((self.ingredients.val[2] + delta.val[2]) as usize) as int);
            assert(space_total(*self, *delta, 4) == space_total(*self, *delta, 3) + ((self.ingredients.val[3] + delta.val[3]) as usize) as int);
            if spec_has_ingredients(*self, *delta) {
                assert(self.ingredients.val[0] + delta.val[0] >= 0);
                assert(self.ingredients.val[1] + delta.val[1] >= 0);
                assert(self.ingredients.val[2] + delta.val[2] >= 0);
                assert(self.ingredients.val[3] + delta.val[3] >= 0);
                assert(space_total(*self, *delta, 4) == total_after(*self, *delta));
            }
        }
        total <= MAX_INGREDIENTS
    }
}

/// With bounded amounts the sums fit, and so do the running totals of a
/// spell the witch holds the ingredients for.
proof fn lemma_bounded_sums(me: Player, delta: Delta)
    requires
        delta_bounded(me.ingredients),
        delta_bounded(delta),
    ensures
        sums_fit(me, delta),
        checked_sums_fit(me, delta),
        spec_has_ingredients(me, delta) ==> space_fits(me, delta),
{
    assert(bounded(me.ingredients.val[0] as int) && bounded(delta.val[0] as int));
    assert(bounded(me.ingredients.val[1] as int) && bounded(delta.val[1] as int));
    assert(bounded(me.ingredients.val[2] as int) && bounded(delta.val[2] as int));
    assert(bounded(me.ingredients.val[3] as int) && bounded(delta.val[3] as int));
    if spec_has_ingredients(me, delta) {
        assert(me.ingredients.val[0] + delta.val[0] >= 0);
        assert(me.ingredients.val[1] + delta.val[1] >= 0);
        assert(me.ingredients.val[2] + delta.val[2] >= 0);
        assert(me.ingredients.val[3] + delta.val[3] >= 0);
        assert(space_total(me, delta, 0) == 0);
        assert(space_total(me, delta, 1) == me.ingredients.val[0] + delta.val[0]);
        assert(space_total(me, delta, 2) == space_total(me, delta, 1) + me.ingredients.val[1] + delta.val[1]);
        assert(space_total(me, delta, 3) == space_total(me, delta, 2) + me.ingredients.val[2] + delta.val[2]);
        assert(space_total(me, delta, 4) == space_total(me, delta, 3) + me.ingredients.val[3] + delta.val[3]);
    }
}

/// Whether the witch can cast the spell now: it is not exhausted, she holds
/// what it takes, and what it leaves fits in her inventory.
pub fn castable(me: &Player, spell: &Spell) -> (r: bool)
    requires
        !spell.exhausted ==> checked_sums_fit(*me, spell.delta),
        !spell.exhausted && spec_has_ingredients(*me, spell.delta) ==> space_fits(*me, spell.delta),
    ensures
        r == spec_castable(*me, *spell),
{
    if spell.exhausted {
        return false;
    }
    if !me.has_ingredients(&spell.delta) {
        return false;
    }
    proof {
        assert forall|i: int| 0 <= i < 4 implies i32::MIN <= #[trigger] (me.ingredients.val[i] + spell.delta.val[i])
            <= i32::MAX by {
            assert(me.ingredients.val[i] + spell.delta.val[i] >= 0);
            assert(forall|j: int| 0 <= j < i ==> me.ingredients.val[j] + spell.delta.val[j] >= 0);
        }
    }
    me.has_space_for(&spell.delta)
}

/// The value of spell `i`: its context value given its base value.
pub open spec fn spell_value(spells: Seq<Spell>, i: int, me: Player, ranked: Seq<(i32, Potion)>) -> int {
    spell_context(spells[i], spell_base(spells[i], me, 4), me, ranked)
}

/// The orders paired with their base value, their price.
pub open spec fn ranked_of(potions: Seq<Potion>) -> Seq<(i32, Potion)> {
    potions.map_values(|p: Potion| (p.price, p))
}

/// The summed values of the exhausted spells among the first `n`.
pub open spec fn rest_total(spells: Seq<Spell>, me: Player, ranked: Seq<(i32, Potion)>, n: int) -> int
    decreases n,
{
    if n <= 0 {
        0
    } else {
        rest_total(spells, me, ranked, n - 1) + if spells[n - 1].exhausted {
            spell_value(spells, n - 1, me, ranked)
        } else {
            0
        }
    }
}

/// The spell with its exhausted flag set to `exhausted`.
pub open spec fn with_exhausted(s: Spell, exhausted: bool) -> Spell {
    Spell { id: s.id, delta: s.delta, exhausted }
}

/// A spell's value depends on its amounts only.
proof fn lemma_value_by_delta(s1: Spell, s2: Spell, me: Player, ranked: Seq<(i32, Potion)>, n: int)
    requires
        s1.delta == s2.delta,
    ensures
        spell_base(s1, me, n) == spell_base(s2, me, n),
        spell_bonus(s1, me, ranked, n) == spell_bonus(s2, me, ranked, n),
    decreases n,
{
    if n > 0 {
        lemma_value_by_delta(s1, s2, me, ranked, n - 1);
        lemma_potion_bonus_by_delta(s1, s2, me, ranked[n - 1], 4);
    }
}

proof fn lemma_potion_bonus_by_delta(s1: Spell, s2: Spell, me: Player, p: (i32, Potion), n: int)
    requires
        s1.delta == s2.delta,
    ensures
        potion_bonus(s1, me, p, n) == potion_bonus(s2, me, p, n),
    decreases n,
{
    if n > 0 {
        lemma_potion_bonus_by_delta(s1, s2, me, p, n - 1);
    }
}

/// Resting scores an exhausted spell as casting would: the rest score of an
/// exhausted spell alone is the score the cast command gives that spell when
/// it is fresh and castable.
pub proof fn lemma_rest_scores_as_cast(s: Spell, me: Player, ranked: Seq<(i32, Potion)>)
    requires
        spec_castable(me, with_exhausted(s, false)),
        i32::MIN <= spell_value(seq![with_exhausted(s, false)], 0, me, ranked) <= i32::MAX,
    ensures
        rest_total(seq![with_exhausted(s, true)], me, ranked, 1) == cast_command(
            seq![with_exhausted(s, false)],
            me,
            ranked,
        ).score as int,
{
    let fresh = seq![with_exhausted(s, false)];
    let tired = seq![with_exhausted(s, true)];
    lemma_value_by_delta(fresh[0], tired[0], me, ranked, 4);
    lemma_value_by_delta(fresh[0], tired[0], me, ranked, ranked.len() as int);
    assert(spell_value(fresh, 0, me, ranked) == spell_value(tired, 0, me, ranked));
    assert(cast_choice(fresh, me, ranked, 1, 0));
    let i = choose|i: int| #[trigger] cast_choice(fresh, me, ranked, 1, i);
    assert(i == 0);
    assert(rest_total(seq![with_exhausted(s, true)], me, ranked, 0) == 0);
}

/// The rest score adds up spell by spell: each exhausted spell adds its own
/// rest score, the score it has alone; a fresh spell adds nothing.
pub proof fn lemma_rest_adds_up(spells: Seq<Spell>, me: Player, ranked: Seq<(i32, Potion)>, n: int)
    requires
        0 < n <= spells.len(),
    ensures
        rest_total(spells, me, ranked, n) == rest_total(spells, me, ranked, n - 1) + rest_total(
            seq![spells[n - 1]],
            me,
            ranked,
            1,
        ),
{
    assert(rest_total(seq![spells[n - 1]], me, ranked, 0) == 0);
    assert(seq![spells[n - 1]][0] == spells[n - 1]);
}

/// Spell `i` is the one to cast among the first `n`: castable, of the
/// lowest value among the castable ones, and the last of that value.
pub open spec fn cast_choice(spells: Seq<Spell>, me: Player, ranked: Seq<(i32, Potion)>, n: int, i: int) -> bool {
    &&& 0 <= i < n
    &&& spec_castable(me, spells[i])
    &&& forall|j: int|
        0 <= j < n && spec_castable(me, #[trigger] spells[j]) ==> spell_value(spells, i, me, ranked)
            <= spell_value(spells, j, me, ranked)
    &&& forall|j: int|
        i < j < n && spec_castable(me, #[trigger] spells[j]) ==> spell_value(spells, j, me, ranked)
            != spell_value(spells, i, me, ranked)
}

/// Order `i` is the one to brew among the first `n`: brewable, of the
/// lowest price among the brewable ones, and the last of that price.
pub open spec fn brew_choice(potions: Seq<Potion>, me: Player, n: int, i: int) -> bool {
    &&& 0 <= i < n
    &&& spec_has_ingredients(me, potions[i].delta)
    &&& forall|j: int|
        0 <= j < n && spec_has_ingredients(me, (#[trigger] potions[j]).delta) ==> potions[i].price
            <= potions[j].price
    &&& forall|j: int|
        i < j < n && spec_has_ingredients(me, (#[trigger] potions[j]).delta) ==> potions[j].price
            != potions[i].price
}

/// The command that stands for no possible move: a rest with a score of -999.
pub open spec fn default_command() -> Command {
    Command { action: Action::REST, id: 0, score: -999i32 }
}

/// The cast command: the chosen spell with its value, or the default command.
pub open spec fn cast_command(spells: Seq<Spell>, me: Player, ranked: Seq<(i32, Potion)>) -> Command {
    if exists|i: int| #[trigger] cast_choice(spells, me, ranked, spells.len() as int, i) {
        let i = choose|i: int| #[trigger] cast_choice(spells, me, ranked, spells.len() as int, i);
        Command { action: Action::CAST, id: spells[i].id, score: spell_value(spells, i, me, ranked) as i32 }
    } else {
        default_command()
    }
}

/// The brew command: the chosen order with its price, or the default command.
pub open spec fn brew_command(potions: Seq<Potion>, me: Player) -> Command {
    if exists|i: int| #[trigger] brew_choice(potions, me, potions.len() as int, i) {
        let i = choose|i: int| #[trigger] brew_choice(potions, me, potions.len() as int, i);
        Command { action: Action::BREW, id: potions[i].id, score: potions[i].price }
    } else {
        default_command()
    }
}

/// The command of highest score among brew, cast and rest, the later one on a tie.
pub open spec fn best_of(brew: Command, cast: Command, rest: Command) -> Command {
    let cur = if brew.score <= cast.score {
        cast
    } else {
        brew
    };
    if cur.score <= rest.score {
        rest
    } else {
        cur
    }
}

/// The command of the turn.
pub open spec fn decision(potions: Seq<Potion>, spells: Seq<Spell>, me: Player) -> Command {
    let ranked = ranked_of(potions);
    best_of(
        brew_command(potions, me),
        cast_command(spells, me, ranked),
        Command { action: Action::REST, id: 0, score: rest_total(spells, me, ranked, spells.len() as int) as i32 },
    )
}

/// The inputs for which the turn's arithmetic stays inside an `i32`: all
/// amounts bounded, the prices small enough in total, and the running sum of
/// the exhausted spells' values inside an `i32`.
pub open spec fn turn_ok(potions: Seq<Potion>, spells: Seq<Spell>, me: Player) -> bool {
    &&& delta_bounded(me.ingredients)
    &&& forall|i: int| 0 <= i < potions.len() ==> delta_bounded(#[trigger] potions[i].delta)
    &&& forall|i: int| 0 <= i < spells.len() ==> delta_bounded(#[trigger] spells[i].delta)
    &&& 0x500_0000 + 4 * abs_total(ranked_of(potions), potions.len() as int) <= i32::MAX
    &&& forall|n: int|
        0 <= n <= spells.len() ==> i32::MIN <= #[trigger] rest_total(spells, me, ranked_of(potions), n)
            <= i32::MAX
}

/// Only one spell is the one to cast.
proof fn lemma_cast_choice_unique(spells: Seq<Spell>, me: Player, ranked: Seq<(i32, Potion)>, n: int, i: int, j: int)
    requires
        cast_choice(spells, me, ranked, n, i),
        cast_choice(spells, me, ranked, n, j),
    ensures
        i == j,
{
    assert(spell_value(spells, i, me, ranked) <= spell_value(spells, j, me, ranked));
    assert(spell_value(spells, j, me, ranked) <= spell_value(spells, i, me, ranked));
}

/// Only one order is the one to brew.
proof fn lemma_brew_choice_unique(potions: Seq<Potion>, me: Player, n: int, i: int, j: int)
    requires
        brew_choice(potions, me, n, i),
        brew_choice(potions, me, n, j),
    ensures
        i == j,
{
    assert(potions[i].price <= potions[j].price);
    assert(potions[j].price <= potions[i].price);
}

/// The command of the turn: the best of the cheapest brewable order, the
/// castable spell of lowest value, and a rest scored by the values of the
/// exhausted spells.
pub fn choose_command(potions: &Vec<Potion>, spells: &Vec<Spell>, me: &Player, enemy: &Player) -> (r: Command)
    requires
        turn_ok(potions@, spells@, *me),
    ensures
        r == decision(potions@, spells@, *me),
{
    let ghost ranked = ranked_of(potions@);
    let mut ranked_potions: Vec<(i32, Potion)> = Vec::new();
    let mut i: usize = 0;
    while i < potions.len()
        invariant
            i <= potions@.len(),
            ranked == ranked_of(potions@),
            ranked_potions@ == ranked.subrange(0, i as int),
        decreases potions@.len() - i,
    {
        let p = potions[i];
        ranked_potions.push((p.base_value(me, enemy), p));
        i = i + 1;
        assert(ranked_potions@ =~= ranked.subrange(0, i as int));
    }
    assert(ranked_potions@ =~= ranked);
    let mut context_spell: Vec<(i32, Spell)> = Vec::new();
    let mut k: usize = 0;
    while k < spells.len()
        invariant
            k <= spells@.len(),
            ranked == ranked_of(potions@),
            ranked_potions@ == ranked,
            turn_ok(potions@, spells@, *me),
            context_spell@.len() == k,
            forall|j: int|
                0 <= j < k ==> (#[trigger] context_spell@[j]).1 == spells@[j] && context_spell@[j].0 as int
                    == spell_value(spells@, j, *me, ranked),
        decreases spells@.len() - k,
    {
        let s = spells[k];
        proof {
            assert(delta_bounded(spells@[k as int].delta));
            lemma_spell_base_bounded(s, *me, 4);
            lemma_spell_bonus_bounded(s, *me, ranked, ranked.len() as int);
            assert(forall|j: int| 0 <= j < ranked.len() ==> #[trigger] ranked[j] == (potions@[j].price, potions@[j]));
            assert forall|j: int| 0 <= j < ranked.len() implies delta_bounded(#[trigger] ranked[j].1.delta) by {
                assert(delta_bounded(potions@[j].delta));
            }
        }
        let base = s.base_value(me, enemy);
        let value = s.context_value(base, me, enemy, &ranked_potions);
        context_spell.push((value, s));
        k = k + 1;
    }
    let mut rest_score: i32 = 0;
    let mut m: usize = 0;
    while m < context_spell.len()
        invariant
            m <= context_spell@.len(),
            context_spell@.len() == spells@.len(),
            ranked == ranked_of(potions@),
            turn_ok(potions@, spells@, *me),
            forall|j: int|
                0 <= j < spells@.len() ==> (#[trigger] context_spell@[j]).1 == spells@[j] && context_spell@[j].0 as int
                    == spell_value(spells@, j, *me, ranked),
            rest_score as int == rest_total(spells@, *me, ranked, m as int),
        decreases context_spell@.len() - m,
    {
        assert(i32::MIN <= rest_total(spells@, *me, ranked, m + 1) <= i32::MAX);
        if context_spell[m].1.exhausted {
            rest_score = rest_score + context_spell[m].0;
        }
        m = m + 1;
    }
    let rest_command = Command { action: Action::REST, id: 0, score: rest_score };
    // The castable spell of lowest value, the last one on a tie.
    let mut found_cast = false;
    let mut best_cast: usize = 0;
    let mut m: usize = 0;
    while m < context_spell.len()
        invariant
            m <= context_spell@.len(),
            context_spell@.len() == spells@.len(),
            ranked == ranked_of(potions@),
            turn_ok(potions@, spells@, *me),
            forall|j: int|
                0 <= j < spells@.len() ==> (#[trigger] context_spell@[j]).1 == spells@[j] && context_spell@[j].0 as int
                    == spell_value(spells@, j, *me, ranked),
            found_cast ==> cast_choice(spells@, *me, ranked, m as int, best_cast as int),
            !found_cast ==> forall|j: int| 0 <= j < m ==> !spec_castable(*me, #[trigger] spells@[j]),
        decreases context_spell@.len() - m,
    {
        let pair = &context_spell[m];
        proof {
            assert(delta_bounded(spells@[m as int].delta));
            lemma_bounded_sums(*me, pair.1.delta);
        }
        if castable(me, &pair.1) {
            if !found_cast || pair.0 <= context_spell[best_cast].0 {
                found_cast = true;
                best_cast = m;
            }
        }
        m = m + 1;
    }
    let cast_command = if found_cast {
        Command { action: Action::CAST, id: context_spell[best_cast].1.id, score: context_spell[best_cast].0 }
    } else {
        Command::default()
    };
    proof {
        if found_cast {
            lemma_cast_choice_unique(
                spells@,
                *me,
                ranked,
                spells@.len() as int,
                best_cast as int,
                choose|i: int| #[trigger] cast_choice(spells@, *me, ranked, spells@.len() as int, i),
            );
        } else {
            if exists|i: int| #[trigger] cast_choice(spells@, *me, ranked, spells@.len() as int, i) {
                let i = choose|i: int| #[trigger] cast_choice(spells@, *me, ranked, spells@.len() as int, i);
                assert(!spec_castable(*me, spells@[i]));
            }
        }
    }
    // The brewable order of lowest price, the last one on a tie.
    let mut found_brew = false;
    let mut best_brew: usize = 0;
    let mut m: usize = 0;
    while m < ranked_potions.len()
        invariant
            m <= ranked_potions@.len(),
            ranked_potions@ == ranked,
            ranked == ranked_of(potions@),
            turn_ok(potions@, spells@, *me),
            found_brew ==> brew_choice(potions@, *me, m as int, best_brew as int),
            !found_brew ==> forall|j: int| 0 <= j < m ==> !spec_has_ingredients(*me, (#[trigger] potions@[j]).delta),
        decreases ranked_potions@.len() - m,
    {
        let pair = &ranked_potions[m];
        proof {
            assert(ranked[m as int] == (potions@[m as int].price, potions@[m as int]));
            assert(delta_bounded(potions@[m as int].delta));
            assert(bounded(me.ingredients.val[0] as int) && bounded(pair.1.delta.val[0] as int));
            assert(bounded(me.ingredients.val[1] as int) && bounded(pair.1.delta.val[1] as int));
            assert(bounded(me.ingredients.val[2] as int) && bounded(pair.1.delta.val[2] as int));
            assert(bounded(me.ingredients.val[3] as int) && bounded(pair.1.delta.val[3] as int));
            if found_brew {
                assert(ranked[best_brew as int] == (potions@[best_brew as int].price, potions@[best_brew as int]));
            }
        }
        if me.has_ingredients(&pair.1.delta) {
            if !found_brew || pair.0 <= ranked_potions[best_brew].0 {
                found_brew = true;
                best_brew = m;
            }
        }
        m = m + 1;
    }
    let brew_command = if found_brew {
        proof {
            assert(ranked[best_brew as int] == (potions@[best_brew as int].price, potions@[best_brew as int]));
        }
        Command { action: Action::BREW, id: ranked_potions[best_brew].1.id, score: ranked_potions[best_brew].0 }
    } else {
        Command::default()
    };
    proof {
        if found_brew {
            lemma_brew_choice_unique(
                potions@,
                *me,
                potions@.len() as int,
                best_brew as int,
                choose|i: int| #[trigger] brew_choice(potions@, *me, potions@.len() as int, i),
            );
        } else {
            if exists|i: int| #[trigger] brew_choice(potions@, *me, potions@.len() as int, i) {
                let i = choose|i: int| #[trigger] brew_choice(potions@, *me, potions@.len() as int, i);
                assert(!spec_has_ingredients(*me, potions@[i].delta));
            }
        }
    }
    let mut command = brew_command;
    if command.score <= cast_command.score {
        command = cast_command;
    }
    if command.score <= rest_command.score {
        command = rest_command;
    }
    command
}

/// Whether every amount of `d` is bounded.
fn delta_in_bounds(d: &Delta) -> (r: bool)
    ensures
        r == delta_bounded(*d),
{
    let mut i: usize = 0;
    while i < 4
        invariant
            i <= 4,
            forall|k: int| 0 <= k < i ==> bounded(#[trigger] d.val[k] as int),
        decreases 4 - i,
    {
        if d.val[i] < -0x100_0000 || d.val[i] > 0x100_0000 {
            assert(!bounded(d.val[i as int] as int));
            return false;
        }
        i = i + 1;
    }
    true
}

/// Whether the turn's numbers stay inside the range for which
/// `choose_command` is defined.
pub fn turn_fits(potions: &Vec<Potion>, spells: &Vec<Spell>, me: &Player) -> (r: bool)
    ensures
        r == turn_ok(potions@, spells@, *me),
{
    if !delta_in_bounds(&me.ingredients) {
        return false;
    }
    let mut i: usize = 0;
    while i < potions.len()
        invariant
            i <= potions@.len(),
            forall|k: int| 0 <= k < i ==> delta_bounded(#[trigger] potions@[k].delta),
        decreases potions@.len() - i,
    {
        if !delta_in_bounds(&potions[i].delta) {
            return false;
        }
        i = i + 1;
    }
    let mut i: usize = 0;
    while i < spells.len()
        invariant
            i <= spells@.len(),
            forall|k: int| 0 <= k < i ==> delta_bounded(#[trigger] spells@[k].delta),
        decreases spells@.len() - i,
    {
        if !delta_in_bounds(&spells[i].delta) {
            return false;
        }
        i = i + 1;
    }
    let ghost ranked = ranked_of(potions@);
    let limit: i64 = (0x7fff_ffff - 0x500_0000) / 4;
    let mut total: i64 = 0;
    let mut ranked_potions: Vec<(i32, Potion)> = Vec::new();
    let mut i: usize = 0;
    while i < potions.len()
        invariant
            i <= potions@.len(),
            ranked == ranked_of(potions@),
            ranked_potions@ == ranked.subrange(0, i as int),
            total as int == abs_total(ranked, i as int),
            total <= limit,
            limit == (0x7fff_ffff - 0x500_0000) / 4,
        decreases potions@.len() - i,
    {
        let p = potions[i];
        assert(ranked[i as int] == (p.price, p));
        let a: i64 = if p.price < 0 {
            -(p.price as i64)
        } else {
            p.price as i64
        };
        total = total + a;
        ranked_potions.push((p.price, p));
        i = i + 1;
        assert(ranked_potions@ =~= ranked.subrange(0, i as int));
        if total > limit {
            proof {
                lemma_abs_total_mono(ranked, i as int, potions@.len() as int);
            }
            return false;
        }
    }
    assert(ranked_potions@ =~= ranked);
    let mut rest: i64 = 0;
    let mut k: usize = 0;
    while k < spells.len()
        invariant
            k <= spells@.len(),
            ranked == ranked_of(potions@),
            ranked_potions@ == ranked,
            delta_bounded(me.ingredients),
            forall|j: int| 0 <= j < potions@.len() ==> delta_bounded(#[trigger] potions@[j].delta),
            forall|j: int| 0 <= j < spells@.len() ==> delta_bounded(#[trigger] spells@[j].delta),
            0x500_0000 + 4 * abs_total(ranked, potions@.len() as int) <= i32::MAX,
            rest as int == rest_total(spells@, *me, ranked, k as int),
            forall|n: int| 0 <= n <= k ==> i32::MIN <= #[trigger] rest_total(spells@, *me, ranked, n) <= i32::MAX,
        decreases spells@.len() - k,
    {
        let s = spells[k];
        proof {
            lemma_spell_base_bounded(s, *me, 4);
            lemma_spell_bonus_bounded(s, *me, ranked, ranked.len() as int);
            assert(forall|j: int| 0 <= j < ranked.len() ==> #[trigger] ranked[j] == (potions@[j].price, potions@[j]));
            assert forall|j: int| 0 <= j < ranked.len() implies delta_bounded(#[trigger] ranked[j].1.delta) by {
                assert(delta_bounded(potions@[j].delta));
            }
        }
        let base = s.base_value(me, me);
        let value = s.context_value(base, me, me, &ranked_potions);
        if s.exhausted {
            rest = rest + value as i64;
        }
        k = k + 1;
        assert(rest as int == rest_total(spells@, *me, ranked, k as int));
        if rest < -0x8000_0000 || rest > 0x7fff_ffff {
            return false;
        }
    }
    true
}

impl Default for Command {
    /// A rest with a score of -999: the command no real move loses to.
    fn default() -> (r: Command)
        ensures
            r == default_command(),
    {
        Command { action: Action::REST, id: 0, score: -999 }
    }
}

impl Default for Player {
    /// A witch with an empty inventory and no rupees.
    fn default() -> (r: Player)
        ensures
            r.ingredients.val@ == seq![0i32, 0, 0, 0],
            r.score == 0,
    {
        let r = Player { ingredients: Delta { val: [0, 0, 0, 0] }, score: 0 };
        assert(r.ingredients.val@ =~= seq![0i32, 0, 0, 0]);
        r
    }
}

/// The name of an action as the referee reads it.
pub open spec fn action_name(a: Action) -> Seq<char> {
    match a {
        Action::BREW => "BREW"@,
        Action::CAST => "CAST"@,
        Action::REST => "REST"@,
        Action::WAIT => "WAIT"@,
    }
}

/// The line that issues a command: the action, and for a brew or a cast the
/// id of the order or spell after a space.
pub open spec fn command_line(c: Command) -> Seq<char> {
    match c.action {
        Action::BREW => "BREW"@ + " "@ + signed_decimal(c.id as int),
        Action::CAST => "CAST"@ + " "@ + signed_decimal(c.id as int),
        _ => action_name(c.action),
    }
}

/// How an amount of every tier is written.
pub open spec fn delta_text(d: Delta) -> Seq<char> {
    "*[* "@ + signed_decimal(d.val[0] as int) + " "@ + signed_decimal(d.val[1] as int) + " "@
        + signed_decimal(d.val[2] as int) + " "@ + signed_decimal(d.val[3] as int) + " *]*"@
}

impl Action {
    /// The name of the action as the referee reads it.
    pub fn sysout(&self) -> (s: String)
        ensures
            s@ == action_name(*self),
    {
        match self {
            Action::BREW => String::from_str("BREW"),
            Action::CAST => String::from_str("CAST"),
            Action::REST => String::from_str("REST"),
            Action::WAIT => String::from_str("WAIT"),
        }
    }

    /// The action named by `str`; any other text is a wait.
    pub fn convert(str: &str) -> (a: Action)
        ensures
            a == (if str@ == "BREW"@ {
                Action::BREW
            } else if str@ == "REST"@ {
                Action::REST
            } else if str@ == "CAST"@ {
                Action::CAST
            } else {
                Action::WAIT
            }),
    {
        let given = String::from_str(str);
        if given == String::from_str("BREW") {
            Action::BREW
        } else if given == String::from_str("REST") {
            Action::REST
        } else if given == String::from_str("CAST") {
            Action::CAST
        } else {
            Action::WAIT
        }
    }

    /// The action between exclamation marks, as the debugging output shows it.
    pub fn describe(&self) -> (s: String)
        ensures
            s@ == "!! "@ + action_name(*self) + " !!"@,
    {
        let mut s = String::from_str("!! ");
        let name = self.sysout();
        append_str(&mut s, name.as_str());
        append_str(&mut s, " !!");
        s
    }
}

impl Command {
    /// The line that issues the command.
    pub fn execute(&self) -> (s: String)
        ensures
            s@ == command_line(*self),
    {
        match self.action {
            Action::BREW => {
                let mut s = String::from_str("BREW");
                append_str(&mut s, " ");
                append_signed(&mut s, self.id as i64);
                s
            },
            Action::CAST => {
                let mut s = String::from_str("CAST");
                append_str(&mut s, " ");
                append_signed(&mut s, self.id as i64);
                s
            },
            _ => self.action.sysout(),
        }
    }

    /// The command and its score, as the debugging output shows them.
    pub fn describe(&self) -> (s: String)
        ensures
            s@ == "ACTION: "@ + "!! "@ + action_name(self.action) + " !!"@ + ", SCORE: "@
                + signed_decimal(self.score as int),
    {
        let mut s = String::from_str("ACTION: ");
        let action = self.action.describe();
        append_str(&mut s, action.as_str());
        append_str(&mut s, ", SCORE: ");
        append_signed(&mut s, self.score as i64);
        s
    }
}

impl Delta {
    /// The four amounts, as the debugging output shows them.
    pub fn describe(&self) -> (s: String)
        ensures
            s@ == delta_text(*self),
    {
        let mut s = String::from_str("*[* ");
        append_signed(&mut s, self.val[0] as i64);
        append_str(&mut s, " ");
        append_signed(&mut s, self.val[1] as i64);
        append_str(&mut s, " ");
        append_signed(&mut s, self.val[2] as i64);
        append_str(&mut s, " ");
        append_signed(&mut s, self.val[3] as i64);
        append_str(&mut s, " *]*");
        s
    }
}

impl Spell {
    /// The spell, as the debugging output shows it.
    pub fn describe(&self) -> (s: String)
        ensures
            s@ == "id: "@ + signed_decimal(self.id as int) + " -- delta: "@ + delta_text(self.delta)
                + " -- exhausted: "@ + bool_text(self.exhausted),
    {
        let mut s = String::from_str("id: ");
        append_signed(&mut s, self.id as i64);
        append_str(&mut s, " -- delta: ");
        let d = self.delta.describe();
        append_str(&mut s, d.as_str());
        append_str(&mut s, " -- exhausted: ");
        let b = bool_string(self.exhausted);
        append_str(&mut s, b.as_str());
        s
    }
}

impl Player {
    /// The inventory, as the debugging output shows it.
    pub fn describe(&self) -> (s: String)
        ensures
            s@ == "PP inventory: "@ + delta_text(self.ingredients),
    {
        let mut s = String::from_str("PP inventory: ");
        let d = self.ingredients.describe();
        append_str(&mut s, d.as_str());
        s
    }
}

impl Potion {
    /// The id of the order, written in decimal.
    pub fn output(&self) -> (s: String)
        ensures
            s@ == signed_decimal(self.id as int),
    {
        crate::text::signed_text(self.id as i64)
    }
}

/// The command of the turn is one of the three candidates, and its score
/// is the highest of their scores.
pub proof fn lemma_best_of_highest(brew: Command, cast: Command, rest: Command)
    ensures
        best_of(brew, cast, rest) == brew || best_of(brew, cast, rest) == cast || best_of(brew, cast, rest)
            == rest,
        best_of(brew, cast, rest).score >= brew.score,
        best_of(brew, cast, rest).score >= cast.score,
        best_of(brew, cast, rest).score >= rest.score,
{
}

} // verus!
