use lib::brewing::{castable, choose_command, turn_fits, Action, Command, Delta, Player, Potion, Score, Spell};

fn player(inv: [i32; 4], score: i32) -> Player {
    Player { ingredients: Delta { val: inv }, score }
}

fn spell(id: i32, delta: [i32; 4], exhausted: bool) -> Spell {
    Spell { id, delta: Delta { val: delta }, exhausted }
}

fn potion(id: i32, price: i32, delta: [i32; 4]) -> Potion {
    Potion { id, price, delta: Delta { val: delta } }
}

fn sample() -> (Vec<Potion>, Vec<Spell>, Player, Player) {
    let potions = vec![
        potion(10, 8, [-2, 0, 0, 0]),
        potion(11, 6, [-3, 0, 0, 0]),
        potion(12, 15, [0, -2, 0, 0]),
    ];
    let spells = vec![
        spell(78, [2, 0, 0, 0], false),
        spell(79, [-1, 1, 0, 0], false),
        spell(80, [0, -1, 1, 0], false),
        spell(81, [0, 0, -1, 1], true),
    ];
    (potions, spells, player([3, 0, 0, 0], 0), player([3, 0, 0, 0], 0))
}

#[test]
fn ingredients_and_space() {
    let me = player([3, 0, 0, 0], 0);
    assert!(me.has_ingredients(&Delta { val: [-3, 0, 0, 0] }));
    assert!(!me.has_ingredients(&Delta { val: [-4, 0, 0, 0] }));
    assert!(!me.has_ingredients(&Delta { val: [0, -1, 0, 0] }));
    assert!(me.has_space_for(&Delta { val: [2, 0, 0, 0] }));
    assert!(me.has_space_for(&Delta { val: [7, 0, 0, 0] }));
    assert!(!me.has_space_for(&Delta { val: [2, 2, 2, 2] }));
}

#[test]
fn castable_spells() {
    let me = player([3, 0, 0, 0], 0);
    assert!(castable(&me, &spell(1, [2, 0, 0, 0], false)));
    assert!(!castable(&me, &spell(1, [2, 0, 0, 0], true)));
    assert!(!castable(&me, &spell(1, [0, -1, 1, 0], false)));
    assert!(!castable(&me, &spell(1, [8, 0, 0, 0], false)));
}

#[test]
fn spell_values() {
    let (potions, spells, me, enemy) = sample();
    let ranked: Vec<(i32, Potion)> = potions.iter().map(|p| (p.price, *p)).collect();
    let bases: Vec<i32> = spells.iter().map(|s| s.base_value(&me, &enemy)).collect();
    assert_eq!(bases, vec![3, 1, 1, 1]);
    let values: Vec<i32> = spells
        .iter()
        .zip(bases.iter())
        .map(|(s, b)| s.context_value(*b, &me, &enemy, &ranked))
        .collect();
    assert_eq!(values, vec![3, 16, 1, 1]);
}

#[test]
fn over_full_tier_resets_base_value() {
    let me = player([11, 0, 0, 0], 0);
    let enemy = player([0, 0, 0, 0], 0);
    assert_eq!(spell(1, [1, 1, 0, 0], false).base_value(&me, &enemy), -9);
}

#[test]
fn potion_values() {
    let p = potion(3, 9, [-1, 0, 0, 0]);
    let ahead = player([0, 0, 0, 0], 5);
    let behind = player([0, 0, 0, 0], 1);
    assert_eq!(p.base_value(&ahead, &behind), 9);
    assert_eq!(p.context_value(9, &ahead, &behind, &vec![]), 18);
    assert_eq!(p.context_value(9, &behind, &ahead, &vec![]), 9);
    assert_eq!(p.output(), "3");
}

#[test]
fn cheapest_brewable_potion_wins() {
    let (potions, spells, me, enemy) = sample();
    let c = choose_command(&potions, &spells, &me, &enemy);
    assert_eq!(c.action, Action::BREW);
    assert_eq!(c.id, 11);
    assert_eq!(c.score, 6);
    assert_eq!(c.execute(), "BREW 11");
}

#[test]
fn rest_wins_a_tie_with_cast() {
    let (_, spells, me, enemy) = sample();
    let c = choose_command(&vec![], &spells, &me, &enemy);
    assert_eq!(c.action, Action::REST);
    assert_eq!(c.score, 1);
}

#[test]
fn cast_the_spell_of_lowest_value() {
    let (_, spells, me, enemy) = sample();
    let c = choose_command(&vec![], &spells[0..2].to_vec(), &me, &enemy);
    assert_eq!(c.action, Action::CAST);
    assert_eq!(c.id, 79);
    assert_eq!(c.score, 1);
    assert_eq!(c.execute(), "CAST 79");
}

#[test]
fn last_of_equal_spells_is_cast() {
    let me = player([3, 0, 0, 0], 0);
    let spells = vec![spell(1, [1, 0, 0, 0], false), spell(2, [1, 0, 0, 0], false)];
    let c = choose_command(&vec![], &spells, &me, &me);
    assert_eq!(c.id, 2);
}

#[test]
fn rest_when_nothing_else() {
    let me = player([0, 0, 0, 0], 0);
    let spells = vec![spell(5, [-1, 1, 0, 0], true)];
    let c = choose_command(&vec![potion(9, 10, [-1, 0, 0, 0])], &spells, &me, &me);
    assert_eq!(c.action, Action::REST);
    assert_eq!(c.score, 1);
    assert_eq!(c.execute(), "REST");
}

#[test]
fn action_names() {
    assert_eq!(Action::convert("BREW"), Action::BREW);
    assert_eq!(Action::convert("CAST"), Action::CAST);
    assert_eq!(Action::convert("REST"), Action::REST);
    assert_eq!(Action::convert("WAIT"), Action::WAIT);
    assert_eq!(Action::convert("LEARN"), Action::WAIT);
    assert_eq!(Action::BREW.sysout(), "BREW");
    assert_eq!(Action::WAIT.describe(), "!! WAIT !!");
}

#[test]
fn default_values() {
    let c = Command::default();
    assert_eq!(c.action, Action::REST);
    assert_eq!(c.id, 0);
    assert_eq!(c.score, -999);
    let p = Player::default();
    assert_eq!(p.ingredients.val, [0, 0, 0, 0]);
    assert_eq!(p.score, 0);
}

#[test]
fn debugging_texts() {
    let c = Command { action: Action::BREW, id: 3, score: 17 };
    assert_eq!(c.describe(), "ACTION: !! BREW !!, SCORE: 17");
    assert_eq!(Delta { val: [1, -2, 3, 0] }.describe(), "*[* 1 -2 3 0 *]*");
    assert_eq!(spell(5, [1, 0, 0, 0], false).describe(), "id: 5 -- delta: *[* 1 0 0 0 *]* -- exhausted: false");
    assert_eq!(player([3, 0, 0, 0], 2).describe(), "PP inventory: *[* 3 0 0 0 *]*");
}

#[test]
fn turn_ranges() {
    let (potions, spells, me, _) = sample();
    assert!(turn_fits(&potions, &spells, &me));
    assert!(turn_fits(&vec![], &vec![], &me));
    assert!(!turn_fits(&potions, &spells, &player([0x100_0001, 0, 0, 0], 0)));
    let mut wild = potions.clone();
    wild.push(potion(13, 10, [0, 0, -0x200_0000, 0]));
    assert!(!turn_fits(&wild, &spells, &me));
    let mut rich = potions.clone();
    rich.push(potion(14, 0x2000_0000, [-1, 0, 0, 0]));
    assert!(!turn_fits(&rich, &spells, &me));
    let mut broken = spells.clone();
    broken.push(spell(90, [0, 0, 0, -0x7fff_ffff], true));
    assert!(!turn_fits(&potions, &broken, &me));
    let poor = player([-0x100_0000, -0x100_0000, -0x100_0000, -0x100_0000], 0);
    let many: Vec<Spell> = (0..40).map(|i| spell(i, [0x100_0000, 0x100_0000, 0x100_0000, 0x100_0000], true)).collect();
    assert!(turn_fits(&vec![], &many[..20].to_vec(), &poor));
    assert!(!turn_fits(&vec![], &many, &poor));
}
