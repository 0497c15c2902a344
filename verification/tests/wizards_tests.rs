use lib::wizards::{
    selection_in_range, update_on_selected_action, Action, ActionType, EntityType, HeroRole, Player, Reach, Stats,
    ThreatFor,
};

fn plan(a_type: ActionType, rank: i32, entity: i32, player: i32, target_hp: i32) -> Action<&'static str> {
    Action { a_type, rank, place: "here", entity, player, target_hp, text: String::from("T"), role: HeroRole::Defense }
}

fn far() -> Reach {
    Reach { heroes: 5000, aims: 5000, to_base: 5000 }
}

#[test]
fn stats_count_spells() {
    let mut s = Stats::new();
    assert_eq!((s.wind, s.shield, s.control), (0, 0, 0));
    s.process(&plan(ActionType::Wind, 0, 0, 0, 1));
    s.process(&plan(ActionType::Wind, 0, 0, 0, 1));
    s.process(&plan(ActionType::Control, 0, 0, 0, 1));
    s.process(&plan(ActionType::Shield, 0, 0, 0, 1));
    s.process(&plan(ActionType::Move, 0, 0, 0, 1));
    s.process(&plan(ActionType::Wait, 0, 0, 0, 1));
    assert_eq!((s.wind, s.shield, s.control), (2, 1, 1));
}

#[test]
fn stats_per_role() {
    let mut def = Stats::new();
    let mut att = Stats::new();
    Stats::process_action(&HeroRole::Defense, &mut def, &mut att, &plan(ActionType::Wind, 0, 0, 0, 1));
    Stats::process_action(&HeroRole::Attack, &mut def, &mut att, &plan(ActionType::Control, 0, 0, 0, 1));
    Stats::process_action(&HeroRole::Mid, &mut def, &mut att, &plan(ActionType::Shield, 0, 0, 0, 1));
    assert_eq!((def.wind, def.shield, def.control), (1, 0, 0));
    assert_eq!((att.wind, att.shield, att.control), (0, 0, 1));
}

#[test]
fn referee_codes() {
    assert_eq!(EntityType::from_code(0), EntityType::Monster);
    assert_eq!(EntityType::from_code(1), EntityType::MyHero);
    assert_eq!(EntityType::from_code(2), EntityType::OtherHero);
    assert_eq!(ThreatFor::from_code(1), ThreatFor::Me);
    assert_eq!(ThreatFor::from_code(2), ThreatFor::OtherBase);
    assert_eq!(ThreatFor::from_code(0), ThreatFor::NoBase);
}

#[test]
fn spell_builders() {
    let w = Action::new_wind(42, (1, 2), 7, HeroRole::Attack);
    assert_eq!(w.a_type, ActionType::Wind);
    assert_eq!((w.rank, w.place, w.entity, w.player, w.target_hp), (42, (1, 2), 0, 7, 1));
    assert_eq!(w.text, "ALL YOUR BASE ARE BELONG TO US");
    assert_eq!(w.role, HeroRole::Attack);
    let s = Action::new_shield(9, (3, 4), 12, 20, 1, HeroRole::Defense);
    assert_eq!(s.a_type, ActionType::Shield);
    assert_eq!((s.rank, s.place, s.entity, s.player, s.target_hp), (9, (3, 4), 12, 1, 20));
    assert_eq!(s.text, "WHAT YOU SAY");
    assert_eq!(s.role, HeroRole::Defense);
}

#[test]
fn choosing_drops_the_hero() {
    let mut actions = vec![
        plan(ActionType::Move, 100, 5, 0, 10),
        plan(ActionType::Move, 300, 6, 1, 10),
        plan(ActionType::Wind, 50, 0, 0, 1),
        plan(ActionType::Wait, 7, 0, 2, 1),
    ];
    let selected = actions[1].clone();
    let reach = vec![far(), far(), far(), far()];
    let mut me = Player { health: 3, mana: 50 };
    update_on_selected_action(&mut actions, &selected, &reach, &mut me);
    let left: Vec<(i32, i32)> = actions.iter().map(|a| (a.player, a.rank)).collect();
    assert_eq!(left, vec![(0, 100), (0, 50), (2, 7)]);
    assert_eq!((me.health, me.mana), (3, 50));
}

#[test]
fn a_chosen_spell_spends_mana() {
    let mut actions = vec![
        plan(ActionType::Wind, 40, 0, 0, 1),
        plan(ActionType::Move, 30, 8, 1, 10),
        plan(ActionType::Wind, 20, 0, 2, 1),
    ];
    let selected = plan(ActionType::Wind, 99, 0, 9, 1);
    let reach = vec![far(), far(), far()];
    let mut me = Player { health: 3, mana: 30 };
    update_on_selected_action(&mut actions, &selected, &reach, &mut me);
    let ranks: Vec<i32> = actions.iter().map(|a| a.rank).collect();
    // 30 - 10 = 20 leaves enough for the first wind; 10 then 0 do not.
    assert_eq!(ranks, vec![40, 30, -10000]);
    assert_eq!(me.mana, 0);
}

#[test]
fn near_actions_are_halved() {
    let mut actions = vec![
        plan(ActionType::Wind, -7, 0, 0, 1),
        plan(ActionType::Move, 101, 4, 1, 3),
        plan(ActionType::Move, 101, 4, 2, 3),
        plan(ActionType::Control, 500, 4, 2, 3),
    ];
    let selected = plan(ActionType::Control, 900, 4, 9, 3);
    let reach = vec![
        Reach { heroes: 1000, aims: 5000, to_base: 5000 },
        Reach { heroes: 5000, aims: 700, to_base: 10 },
        Reach { heroes: 5000, aims: 700, to_base: 5 },
        far(),
    ];
    let mut me = Player { health: 3, mana: 1000 };
    update_on_selected_action(&mut actions, &selected, &reach, &mut me);
    let ranks: Vec<i32> = actions.iter().map(|a| a.rank).collect();
    // the wind halves towards zero; the first move needs 2 turns to kill and
    // its monster 10 to reach the base; the second is too close to the base.
    assert_eq!(ranks, vec![-3, 50, 101, -10000]);
    assert_eq!(me.mana, 960);
}

#[test]
fn re_ranking_ranges() {
    let actions = vec![plan(ActionType::Move, 1, 0, 0, i32::MAX)];
    let selected = plan(ActionType::Wait, 0, 0, 9, 1);
    assert!(!selection_in_range(&actions, &selected, &vec![Reach { heroes: 0, aims: 0, to_base: 0 }], 0));
    assert!(selection_in_range(&actions, &selected, &vec![far()], 0));
    let near_base = vec![Reach { heroes: 0, aims: 0, to_base: i32::MIN + 3 }];
    assert!(!selection_in_range(&vec![plan(ActionType::Move, 1, 0, 0, 4)], &selected, &near_base, 0));
    let wind = plan(ActionType::Wind, 0, 0, 9, 1);
    let two = vec![plan(ActionType::Wait, 1, 0, 0, 1), plan(ActionType::Wait, 1, 0, 1, 1)];
    assert!(selection_in_range(&two, &wind, &vec![far(), far()], i32::MIN + 20));
    assert!(!selection_in_range(&two, &wind, &vec![far(), far()], i32::MIN + 19));
    assert!(selection_in_range(&two, &plan(ActionType::Wind, 0, 0, 1, 1), &vec![far(), far()], i32::MIN + 10));
}
