//! Bookkeeping for a base-defence contest between two teams of three heroes.
//!
//! The geometry of that contest (positions, distances, wind pushes, threat
//! levels) is floating point and stays with the caller, who measures the
//! distances these rules read; what is kept here is the integer part: the
//! kinds of entities and actions, the decoding of the referee's codes, the
//! actions the heroes weigh and how choosing one re-ranks the others, and the
//! count of spells each role has cast. An action's place on the map is a
//! value of the caller's choosing, which this module carries along.
use vstd::prelude::*;

verus! {

/// Distance from a base within which monsters target it.
pub const BASE_TARGET_DST: i32 = 5000;

/// Range of the wind spell.
pub const WIND_DST: i32 = 1280;

/// Range of the control spell.
pub const CONTROL_DST: i32 = 2200;

/// Mana a spell costs.
pub const SPELL_COST: i32 = 10;

/// Width of the map.
pub const W: i32 = 17630;

/// Height of the map.
pub const H: i32 = 9000;

/// Half the width of the map.
pub const HW: i32 = 8815;

/// Half the height of the map.
pub const HH: i32 = 4500;

/// Distance a hero moves in a turn.
pub const MVT_SPEED: i32 = 800;

/// Distance a monster moves in a turn.
pub const MONSTER_SPEED: i32 = 400;

/// Distance within which a hero damages monsters.
pub const PLAYER_DMG_DST: i32 = 800;

/// Distance within which a monster damages a base.
pub const DST_TO_INFLICT_DMG_TO_BASE: i32 = 300;

/// Damage a hero deals in a turn.
pub const DMG: i32 = 2;

/// Number of heroes per team.
pub const NB_HEROS: i32 = 3;

/// Half the diagonal of the map, rounded down.
pub const HALF_TERRAIN_DST: i32 = 9897;

/// The kind of an entity.
#[derive(Clone, Copy, Debug, PartialEq, Eq, Structural)]
pub enum EntityType {
    Monster,
    MyHero,
    OtherHero,
}

/// The base a monster is heading for.
#[derive(Clone, Copy, Debug, PartialEq, Eq, Structural)]
pub enum ThreatFor {
    Me,
    OtherBase,
    NoBase,
}

/// The kind of an action.
#[derive(Clone, Copy, Debug, PartialEq, Eq, Structural)]
pub enum ActionType {
    Wind,
    Wait,
    Move,
    Control,
    Shield,
}

/// The role of a hero.
#[derive(Clone, Copy, Debug, PartialEq, Eq, Structural)]
pub enum HeroRole {
    Defense,
    Mid,
    Attack,
    NoRole,
}

/// How many spells of each kind a role has cast.
#[derive(Clone, Copy, Debug)]
pub struct Stats {
    pub wind: i32,
    pub shield: i32,
    pub control: i32,
}

/// A team: the health of its base and its mana.
#[derive(Clone, Copy, Debug)]
pub struct Player {
    pub health: i32,
    pub mana: i32,
}

/// An action a hero weighs: its kind and rank, the entity it aims at, the
/// hero that takes it, the health of its target, a note, the hero's role,
/// and its place on the map (where it aims, and where its hero stands).
#[derive(Clone, Debug)]
pub struct Action<P> {
    pub a_type: ActionType,
    pub rank: i32,
    pub place: P,
    pub entity: i32,
    pub player: i32,
    pub target_hp: i32,
    pub text: String,
    pub role: HeroRole,
}

impl<P> Action<P> {
    /// A wind spell of rank `value`, cast by hero `hero` at `place`.
    pub fn new_wind(value: i32, place: P, hero: i32, role: HeroRole) -> (a: Action<P>)
        ensures
            a.a_type == ActionType::Wind,
            a.rank == value,
            a.place == place,
            a.entity == 0,
            a.player == hero,
            a.target_hp == 1,
            a.text@ == "ALL YOUR BASE ARE BELONG TO US"@,
            a.role == role,
    {
        Action {
            a_type: ActionType::Wind,
            rank: value,
            place,
            entity: 0,
            player: hero,
            target_hp: 1,
            text: String::from_str("ALL YOUR BASE ARE BELONG TO US"),
            role,
        }
    }

    /// A shield spell of rank `value`, cast by hero `hero` on entity `target`
    /// of `target_hp` health points.
    pub fn new_shield(value: i32, place: P, target: i32, target_hp: i32, hero: i32, role: HeroRole) -> (a: Action<P>)
        ensures
            a.a_type == ActionType::Shield,
            a.rank == value,
            a.place == place,
            a.entity == target,
            a.player == hero,
            a.target_hp == target_hp,
            a.text@ == "WHAT YOU SAY"@,
            a.role == role,
    {
        Action {
            a_type: ActionType::Shield,
            rank: value,
            place,
            entity: target,
            player: hero,
            target_hp,
            text: String::from_str("WHAT YOU SAY"),
            role,
        }
    }
}

/// The distances the re-ranking reads for one action, measured by the
/// caller: from its hero to the hero of the selected action, from its aim to
/// the aim of the selected action, and from its aim to my base.
#[derive(Clone, Copy, Debug)]
pub struct Reach {
    pub heroes: i32,
    pub aims: i32,
    pub to_base: i32,
}

/// A wind, a control or a shield: an action that costs mana.
pub open spec fn is_spell(a: ActionType) -> bool {
    a == ActionType::Wind || a == ActionType::Control || a == ActionType::Shield
}

/// `v / 2` as Rust divides integers: rounded towards zero.
pub open spec fn halved(v: int) -> int {
    if v >= 0 {
        v / 2
    } else {
        -((-v) / 2)
    }
}

/// `v % 2` as Rust takes remainders: with the sign of `v`.
pub open spec fn rem_two(v: int) -> int {
    if v >= 0 {
        v % 2
    } else {
        -((-v) % 2)
    }
}

/// The turns a hero needs to kill a monster of `hp` health points.
pub open spec fn turns_to_kill(hp: int) -> int {
    halved(hp + rem_two(hp))
}

/// The new rank of action `a` once `selected` was chosen, and the mana left,
/// from the mana `mana` before it: a chosen spell spends mana for every
/// action still weighed, and once too little is left the spells (and, after a
/// control or a shield, every action) drop to -10000; a wind whose hero stands
/// near the chosen hero halves; a control of the same entity as a chosen
/// control drops to -10000; a move that aims near the chosen aim at a monster
/// killed sooner than it reaches the base halves.
pub open spec fn rerank<P>(a: Action<P>, selected: Action<P>, r: Reach, mana: int) -> (int, int) {
    let spell = is_spell(selected.a_type);
    let left = if spell {
        mana - SPELL_COST
    } else {
        mana
    };
    let rank1 = if spell && left < SPELL_COST && (a.a_type == ActionType::Wind || selected.a_type
        == ActionType::Control || selected.a_type == ActionType::Shield) {
        -10000
    } else {
        a.rank as int
    };
    let rank2 = if a.a_type == ActionType::Wind && r.heroes < WIND_DST {
        halved(rank1)
    } else {
        rank1
    };
    let rank3 = if selected.a_type == ActionType::Control && a.a_type == ActionType::Control
        && selected.entity == a.entity {
        -10000
    } else {
        rank2
    };
    let rank4 = if a.a_type == ActionType::Move && r.aims < MVT_SPEED && turns_to_kill(a.target_hp as int)
        < r.to_base - 4 {
        halved(rank3)
    } else {
        rank3
    };
    (rank4, left)
}

/// The re-ranking of `a` stays inside an `i32`.
pub open spec fn rerank_fits<P>(a: Action<P>, selected: Action<P>, r: Reach, mana: int) -> bool {
    &&& is_spell(selected.a_type) ==> mana - SPELL_COST >= i32::MIN
    &&& a.a_type == ActionType::Move && r.aims < MVT_SPEED ==> a.target_hp + rem_two(a.target_hp as int)
        <= i32::MAX && r.to_base - 4 >= i32::MIN
}

/// The actions still weighed after `selected` was chosen, from the first
/// `n` actions, and the mana left: the actions of the chosen hero are
/// dropped, the others re-ranked in their order.
pub open spec fn after_selection<P>(
    acts: Seq<Action<P>>,
    reach: Seq<Reach>,
    selected: Action<P>,
    mana: int,
    n: int,
) -> (Seq<Action<P>>, int)
    decreases n,
{
    if n <= 0 {
        (Seq::empty(), mana)
    } else {
        let (kept, m) = after_selection(acts, reach, selected, mana, n - 1);
        let a = acts[n - 1];
        if a.player == selected.player {
            (kept, m)
        } else {
            let (rank, left) = rerank(a, selected, reach[n - 1], m);
            (kept.push(Action { rank: rank as i32, ..a }), left)
        }
    }
}

/// The re-ranking of the first `n` actions stays inside an `i32`.
pub open spec fn selection_fits<P>(
    acts: Seq<Action<P>>,
    reach: Seq<Reach>,
    selected: Action<P>,
    mana: int,
    n: int,
) -> bool
    decreases n,
{
    n <= 0 || (selection_fits(acts, reach, selected, mana, n - 1) && (acts[n - 1].player == selected.player
        || rerank_fits(acts[n - 1], selected, reach[n - 1], after_selection(acts, reach, selected, mana, n - 1).1)))
}

/// A rank halved, rounded towards zero.
fn half(v: i32) -> (h: i32)
    ensures
        h == halved(v as int),
{
    if v >= 0 {
        v / 2
    } else {
        let w: i64 = -(v as i64);
        -((w / 2) as i32)
    }
}

/// The new rank of `a` and the mana left.
fn rerank_step<P>(a: &Action<P>, selected: &Action<P>, r: Reach, mana: i32) -> (out: (i32, i32))
    requires
        rerank_fits(*a, *selected, r, mana as int),
    ensures
        out.0 as int == rerank(*a, *selected, r, mana as int).0,
        out.1 as int == rerank(*a, *selected, r, mana as int).1,
{
    let spell = selected.a_type == ActionType::Wind || selected.a_type == ActionType::Control
        || selected.a_type == ActionType::Shield;
    let mut left = mana;
    let mut rank = a.rank;
    if spell {
        left = left - SPELL_COST;
        if left < SPELL_COST && (a.a_type == ActionType::Wind || selected.a_type == ActionType::Control
            || selected.a_type == ActionType::Shield) {
            rank = -10000;
        }
    }
    if a.a_type == ActionType::Wind && r.heroes < WIND_DST {
        rank = half(rank);
    }
    if selected.a_type == ActionType::Control && a.a_type == ActionType::Control && selected.entity == a.entity {
        rank = -10000;
    }
    if a.a_type == ActionType::Move && r.aims < MVT_SPEED {
        let turn_to_kill = half(a.target_hp + a.target_hp % DMG);
        let turn_to_reach_base = r.to_base;
        if turn_to_kill < turn_to_reach_base - 4 {
            rank = half(rank);
        }
    }
    (rank, left)
}

/// Drops the actions of the hero of `selected`, which was chosen, and
/// re-ranks the others; `reach` holds, for every action, the distances the
/// re-ranking reads.
pub fn update_on_selected_action<P>(
    actions: &mut Vec<Action<P>>,
    selected: &Action<P>,
    reach: &Vec<Reach>,
    my_state: &mut Player,
)
    requires
        reach@.len() == old(actions)@.len(),
        selection_fits(old(actions)@, reach@, *selected, old(my_state).mana as int, old(actions)@.len() as int),
    ensures
        final(actions)@ == after_selection(
            old(actions)@,
            reach@,
            *selected,
            old(my_state).mana as int,
            old(actions)@.len() as int,
        ).0,
        final(my_state).mana as int == after_selection(
            old(actions)@,
            reach@,
            *selected,
            old(my_state).mana as int,
            old(actions)@.len() as int,
        ).1,
        final(my_state).health == old(my_state).health,
{
    let ghost acts = actions@;
    let ghost mana0 = my_state.mana as int;
    let n = actions.len();
    let mut rest: Vec<Action<P>> = Vec::new();
    std::mem::swap(actions, &mut rest);
    let mut i: usize = 0;
    while rest.len() > 0
        invariant
            n == acts.len(),
            i <= acts.len(),
            reach@.len() == acts.len(),
            rest@ == acts.subrange(i as int, acts.len() as int),
            selection_fits(acts, reach@, *selected, mana0, acts.len() as int),
            actions@ == after_selection(acts, reach@, *selected, mana0, i as int).0,
            my_state.mana as int == after_selection(acts, reach@, *selected, mana0, i as int).1,
            my_state.health == old(my_state).health,
        decreases rest@.len(),
    {
        proof {
            lemma_selection_fits_prefix(acts, reach@, *selected, mana0, acts.len() as int, i + 1);
        }
        let mut a = rest.remove(0);
        assert(a == acts[i as int]);
        if a.player != selected.player {
            let (rank, left) = rerank_step(&a, selected, reach[i], my_state.mana);
            a.rank = rank;
            my_state.mana = left;
            actions.push(a);
        }
        i = i + 1;
        assert(rest@ =~= acts.subrange(i as int, acts.len() as int));
    }
}

/// Two actions that differ at most in their rank.
pub open spec fn same_but_rank<P>(a: Action<P>, b: Action<P>) -> bool {
    &&& a.a_type == b.a_type
    &&& a.place == b.place
    &&& a.entity == b.entity
    &&& a.player == b.player
    &&& a.target_hp == b.target_hp
    &&& a.text == b.text
    &&& a.role == b.role
}

/// Once an action is chosen, no action of its hero is weighed any more;
/// every action still weighed is one of the earlier ones, changed at most in
/// its rank; and choosing an action that is not a spell spends no mana.
pub proof fn lemma_selection_drops_hero<P>(
    acts: Seq<Action<P>>,
    reach: Seq<Reach>,
    selected: Action<P>,
    mana: int,
    n: int,
)
    requires
        0 <= n <= acts.len(),
    ensures
        forall|k: int|
            0 <= k < after_selection(acts, reach, selected, mana, n).0.len() ==> (#[trigger] after_selection(
                acts,
                reach,
                selected,
                mana,
                n,
            ).0[k]).player != selected.player,
        forall|k: int|
            #![trigger after_selection(acts, reach, selected, mana, n).0[k]]
            0 <= k < after_selection(acts, reach, selected, mana, n).0.len() ==> exists|j: int|
                0 <= j < n && same_but_rank(#[trigger] acts[j], after_selection(acts, reach, selected, mana, n).0[k]),
        !is_spell(selected.a_type) ==> after_selection(acts, reach, selected, mana, n).1 == mana,
    decreases n,
{
    if n > 0 {
        lemma_selection_drops_hero(acts, reach, selected, mana, n - 1);
        let prev = after_selection(acts, reach, selected, mana, n - 1).0;
        let cur = after_selection(acts, reach, selected, mana, n).0;
        assert forall|k: int| #![trigger cur[k]] 0 <= k < cur.len() implies exists|j: int|
            0 <= j < n && same_but_rank(#[trigger] acts[j], cur[k]) by {
            if k < prev.len() {
                assert(cur[k] == prev[k]);
                let j = choose|j: int| 0 <= j < n - 1 && same_but_rank(#[trigger] acts[j], prev[k]);
                assert(same_but_rank(acts[j], cur[k]));
            } else {
                assert(same_but_rank(acts[n - 1], cur[k]));
            }
        }
    }
}

/// After a chosen control or shield spends mana below the cost of a spell,
/// no action is worth taking any more: each one drops to -10000 (halved once
/// at most, to -5000, when its hero or its aim stands near the chosen one),
/// and the spell costs `SPELL_COST`.
pub proof fn lemma_low_mana_drops<P>(a: Action<P>, selected: Action<P>, r: Reach, mana: int)
    requires
        selected.a_type == ActionType::Control || selected.a_type == ActionType::Shield,
        mana - SPELL_COST < SPELL_COST,
    ensures
        rerank(a, selected, r, mana).0 == -10000 || rerank(a, selected, r, mana).0 == -5000,
        rerank(a, selected, r, mana).1 == mana - SPELL_COST,
{
}

/// A chosen spell costs `SPELL_COST` for every action still weighed; once a
/// chosen control or shield leaves too little mana from the start, every
/// action still weighed drops to -10000 (or -5000 when halved).
pub proof fn lemma_low_mana_drops_all<P>(
    acts: Seq<Action<P>>,
    reach: Seq<Reach>,
    selected: Action<P>,
    mana: int,
    n: int,
)
    requires
        0 <= n <= acts.len(),
        is_spell(selected.a_type),
    ensures
        after_selection(acts, reach, selected, mana, n).1 == mana - SPELL_COST * after_selection(
            acts,
            reach,
            selected,
            mana,
            n,
        ).0.len(),
        (selected.a_type == ActionType::Control || selected.a_type == ActionType::Shield) && mana
            < 2 * SPELL_COST ==> forall|k: int|
            0 <= k < after_selection(acts, reach, selected, mana, n).0.len() ==> {
                let rank = (#[trigger] after_selection(acts, reach, selected, mana, n).0[k]).rank;
                rank == -10000 || rank == -5000
            },
    decreases n,
{
    if n > 0 {
        lemma_low_mana_drops_all(acts, reach, selected, mana, n - 1);
        let (kept, m) = after_selection(acts, reach, selected, mana, n - 1);
        let a = acts[n - 1];
        if a.player != selected.player {
            let cur = after_selection(acts, reach, selected, mana, n).0;
            if (selected.a_type == ActionType::Control || selected.a_type == ActionType::Shield) && mana < 2
                * SPELL_COST {
                lemma_low_mana_drops(a, selected, reach[n - 1], m);
                assert forall|k: int| 0 <= k < cur.len() implies {
                    let rank = (#[trigger] cur[k]).rank;
                    rank == -10000 || rank == -5000
                } by {
                    if k < kept.len() {
                        assert(cur[k] == kept[k]);
                    }
                }
            }
        }
    }
}

proof fn lemma_selection_fits_prefix<P>(
    acts: Seq<Action<P>>,
    reach: Seq<Reach>,
    selected: Action<P>,
    mana: int,
    n: int,
    m: int,
)
    requires
        m <= n,
        selection_fits(acts, reach, selected, mana, n),
    ensures
        selection_fits(acts, reach, selected, mana, m),
    decreases n - m,
{
    if m < n {
        lemma_selection_fits_prefix(acts, reach, selected, mana, n - 1, m);
    }
}

/// Whether the re-ranking after choosing `selected` stays inside an `i32`,
/// with `mana` to spend.
pub fn selection_in_range<P>(actions: &Vec<Action<P>>, selected: &Action<P>, reach: &Vec<Reach>, mana: i32) -> (r: bool)
    requires
        reach@.len() == actions@.len(),
    ensures
        r == selection_fits(actions@, reach@, *selected, mana as int, actions@.len() as int),
{
    let spell = selected.a_type == ActionType::Wind || selected.a_type == ActionType::Control
        || selected.a_type == ActionType::Shield;
    let mut left: i32 = mana;
    let mut i: usize = 0;
    while i < actions.len()
        invariant
            i <= actions@.len(),
            reach@.len() == actions@.len(),
            spell == is_spell(selected.a_type),
            selection_fits(actions@, reach@, *selected, mana as int, i as int),
            left as int == after_selection(actions@, reach@, *selected, mana as int, i as int).1,
        decreases actions@.len() - i,
    {
        let a = &actions[i];
        if a.player != selected.player {
            let fail = (spell && left < i32::MIN + SPELL_COST) || (a.a_type == ActionType::Move
                && reach[i].aims < MVT_SPEED && (a.target_hp == i32::MAX || reach[i].to_base < i32::MIN + 4));
            if fail {
                proof {
                    assert(!selection_fits(actions@, reach@, *selected, mana as int, i + 1));
                    if selection_fits(actions@, reach@, *selected, mana as int, actions@.len() as int) {
                        lemma_selection_fits_prefix(actions@, reach@, *selected, mana as int, actions@.len() as int, i + 1);
                    }
                }
                return false;
            }
            if spell {
                left = left - SPELL_COST;
            }
        }
        i = i + 1;
    }
    true
}

impl EntityType {
    /// The kind the referee codes as `code`: 0 a monster, 1 one of my
    /// heroes, anything else a hero of the other team.
    pub fn from_code(code: i32) -> (t: EntityType)
        ensures
            t == (if code == 0 {
                EntityType::Monster
            } else if code == 1 {
                EntityType::MyHero
            } else {
                EntityType::OtherHero
            }),
    {
        match code {
            0 => EntityType::Monster,
            1 => EntityType::MyHero,
            _ => EntityType::OtherHero,
        }
    }
}

impl ThreatFor {
    /// The base the referee codes as `code`: 1 mine, 2 the other one,
    /// anything else none.
    pub fn from_code(code: i32) -> (t: ThreatFor)
        ensures
            t == (if code == 1 {
                ThreatFor::Me
            } else if code == 2 {
                ThreatFor::OtherBase
            } else {
                ThreatFor::NoBase
            }),
    {
        match code {
            1 => ThreatFor::Me,
            2 => ThreatFor::OtherBase,
            _ => ThreatFor::NoBase,
        }
    }
}

/// The counts after one more action of kind `a`: a control, wind or shield
/// adds one to its count; any other action changes nothing.
pub open spec fn counted(s: Stats, a: ActionType) -> Stats {
    match a {
        ActionType::Control => Stats { control: (s.control + 1) as i32, ..s },
        ActionType::Wind => Stats { wind: (s.wind + 1) as i32, ..s },
        ActionType::Shield => Stats { shield: (s.shield + 1) as i32, ..s },
        _ => s,
    }
}

/// The count that an action of kind `a` adds to can take one more.
pub open spec fn room_left(s: Stats, a: ActionType) -> bool {
    match a {
        ActionType::Control => s.control < i32::MAX,
        ActionType::Wind => s.wind < i32::MAX,
        ActionType::Shield => s.shield < i32::MAX,
        _ => true,
    }
}

impl Stats {
    /// No spell cast yet.
    pub fn new() -> (s: Stats)
        ensures
            s.wind == 0,
            s.shield == 0,
            s.control == 0,
    {
        Stats { wind: 0, shield: 0, control: 0 }
    }

    /// Counts one more action.
    pub fn process<P>(&mut self, action: &Action<P>)
        requires
            room_left(*old(self), action.a_type),
        ensures
            *final(self) == counted(*old(self), action.a_type),
    {
        match action.a_type {
            ActionType::Control => self.control = self.control + 1,
            ActionType::Wind => self.wind = self.wind + 1,
            ActionType::Shield => self.shield = self.shield + 1,
            _ => {},
        };
    }

    /// Counts one more action for the role that took it: the defense and
    /// attack roles have counts of their own; other roles are not counted.
    pub fn process_action<P>(role: &HeroRole, def_stats: &mut Stats, att_stats: &mut Stats, action: &Action<P>)
        requires
            *role == HeroRole::Defense ==> room_left(*old(def_stats), action.a_type),
            *role == HeroRole::Attack ==> room_left(*old(att_stats), action.a_type),
        ensures
            *final(def_stats) == (if *role == HeroRole::Defense {
                counted(*old(def_stats), action.a_type)
            } else {
                *old(def_stats)
            }),
            *final(att_stats) == (if *role == HeroRole::Attack {
                counted(*old(att_stats), action.a_type)
            } else {
                *old(att_stats)
            }),
    {
        match role {
            HeroRole::Defense => def_stats.process(action),
            HeroRole::Attack => att_stats.process(action),
            _ => {},
        };
    }
}

} // verus!
