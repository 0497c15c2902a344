use lib::rings::{
    best_transitions, get_char_index_at, get_move, get_next_state, rune_down, rune_up, spell_phrase,
    zone_down, zone_up, LookAhead, Move, Ring, Terrain, Transition, NB_RUNES, NB_ZONES,
};

/// Runs ring commands on a fresh track and returns the letter indexes read.
fn run_commands(cmds: &str) -> Vec<isize> {
    let mut zones: isize = 0;
    let mut runes = [0isize; 30];
    let mut out = Vec::new();
    for c in cmds.chars() {
        match c {
            '>' => zones = (zones + 1).rem_euclid(NB_ZONES as isize),
            '<' => zones = (zones - 1).rem_euclid(NB_ZONES as isize),
            '+' => runes[zones as usize] = (runes[zones as usize] + 1).rem_euclid(NB_RUNES as isize),
            '-' => runes[zones as usize] = (runes[zones as usize] - 1).rem_euclid(NB_RUNES as isize),
            '.' => out.push(runes[zones as usize]),
            _ => panic!("unexpected command"),
        }
    }
    out
}

fn letters(phrase: &str) -> Vec<isize> {
    phrase
        .chars()
        .map(|c| {
            let v = c.to_ascii_lowercase() as isize - 96;
            v.clamp(0, 255)
        })
        .collect()
}

#[test]
fn set_to_goes_up_when_shorter() {
    let mut ring = Ring { top: 27, current: 0 };
    let m = ring.set_to(1, &rune_down(), &rune_up());
    assert_eq!(m.times, 1);
    assert_eq!(m.roll.c, '+');
    assert_eq!(ring.current, 0);
}

#[test]
fn set_to_goes_down_when_shorter() {
    let mut ring = Ring { top: 27, current: 0 };
    let m = ring.set_to(26, &rune_down(), &rune_up());
    assert_eq!(m.times, 1);
    assert_eq!(m.roll.c, '-');
}

#[test]
fn set_to_breaks_ties_downwards() {
    let mut ring = Ring { top: 30, current: 0 };
    let m = ring.set_to(15, &zone_down(), &zone_up());
    assert_eq!(m.times, 15);
    assert_eq!(m.roll.c, '<');
}

#[test]
fn set_to_on_target_does_nothing() {
    let mut ring = Ring { top: 27, current: 5 };
    let m = ring.set_to(5, &rune_down(), &rune_up());
    assert_eq!(m.times, 0);
}

#[test]
fn new_terrain_starts_on_spaces() {
    let t = Terrain::new();
    assert_eq!(t.zones.top, 30);
    assert_eq!(t.zones.current, 0);
    for r in t.runes.iter() {
        assert_eq!(r.top, 27);
        assert_eq!(r.current, 0);
    }
}

#[test]
fn char_index_of_letters_and_spaces() {
    let phrase = String::from("aZ {");
    assert_eq!(get_char_index_at(0, &phrase), 1);
    assert_eq!(get_char_index_at(1, &phrase), 26);
    assert_eq!(get_char_index_at(2, &phrase), 0);
    assert_eq!(get_char_index_at(3, &phrase), 27);
}

#[test]
fn score_and_text_of_a_transition() {
    let tr = Transition {
        rune_index: 2,
        letter_i: 3,
        zone_move: Move { times: 2, roll: zone_up() },
        rune_move: Move { times: 3, roll: rune_up() },
    };
    assert_eq!(tr.score(), 5);
    assert_eq!(tr.to_string(), ">>+++");
    let l = LookAhead::new(&tr, Terrain::new());
    assert_eq!(l.terrains_costs.len(), 1);
    assert_eq!(l.terrains_costs[0].1, 5);
    assert_eq!(l.seed.rune_index, 2);
}

#[test]
fn best_transitions_from_the_start() {
    let t = Terrain::new();
    let best = best_transitions(&t, 1);
    let zones: Vec<usize> = best.iter().map(|tr| tr.rune_index).collect();
    assert_eq!(zones, vec![0, 1, 29, 2]);
    let scores: Vec<usize> = best.iter().map(|tr| tr.score()).collect();
    assert_eq!(scores, vec![1, 2, 2, 3]);
}

#[test]
fn next_state_moves_player_and_rune() {
    let t = Terrain::new();
    let best = best_transitions(&t, 5);
    let next = get_next_state(&best[0], &t);
    assert_eq!(next.zones.current, best[0].rune_index as isize);
    assert_eq!(next.runes[best[0].rune_index].current, 5);
}

#[test]
fn get_move_for_one_letter() {
    let phrase = String::from("A");
    let (text, terrain) = get_move(0, &phrase, Terrain::new());
    assert_eq!(text, "+");
    assert_eq!(terrain.zones.current, 0);
    assert_eq!(terrain.runes[0].current, 1);
}

#[test]
fn spell_phrase_examples() {
    assert_eq!(spell_phrase(&String::from("AB")), "+.+.");
    assert_eq!(spell_phrase(&String::from("Z")), "-.");
    assert_eq!(spell_phrase(&String::from("")), "");
}

#[test]
fn spelled_phrase_reads_back() {
    for phrase in ["MINUS", "HELLO WORLD", "AZ AZ", "GOOD LUCK HAVE FUN", "THREE BLIND MICE"] {
        let cmds = spell_phrase(&String::from(phrase));
        assert_eq!(run_commands(&cmds), letters(phrase));
    }
}

#[test]
fn brace_sits_just_past_z() {
    // `{` has letter index 27: a rune turned to it shows the space again.
    assert_eq!(spell_phrase(&String::from("{")), ".");
    assert_eq!(spell_phrase(&String::from("{A")), ".+.");
    assert_eq!(run_commands(&spell_phrase(&String::from("{A"))), vec![0, 1]);
}
