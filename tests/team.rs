use tmer::team::{Player, Team, SIMILARITY_SCALE};

fn as_f32(score: u64) -> f32 {
    score as f32 / SIMILARITY_SCALE as f32
}

#[test]
fn handle_a_new_team() {
    let t1 = Team::new();
    assert_eq!(*t1.players(), Vec::<Player>::new());
}

#[test]
fn keep_list_of_players_sorted() {
    let mut t1 = Team::from(&["B"]);
    t1.add_player("A");
    assert_eq!(*t1.players(), vec![Player::from("A"), Player::from("B")]);
}

#[test]
fn core_keep_list_of_players_sorted() {
    let t1 = Team::from(&["C", "B", "A"]);
    assert_eq!(
        *t1.players(),
        vec![Player::from("A"), Player::from("B"), Player::from("C")]
    );
}

#[test]
fn different_size_is_zero() {
    let t1 = Team::from(&["A"]);
    let t2 = Team::from(&["A", "B", "C"]);
    assert_eq!(as_f32(t1.similarity(&t2)), 0.0);
    assert_eq!(as_f32(t2.similarity(&t1)), 0.0);
}

#[test]
fn same_is_one() {
    let t1 = Team::from(&["A", "B", "C"]);
    let t2 = Team::from(&["A", "B", "C"]);
    assert_eq!(as_f32(t1.similarity(&t2)), 1.0);
    assert_eq!(as_f32(t2.similarity(&t1)), 1.0);
}

#[test]
fn same_with_different_order_is_one() {
    let t1 = Team::from(&["A", "B", "C"]);
    let t2 = Team::from(&["C", "A", "B"]);
    assert_eq!(as_f32(t1.similarity(&t2)), 1.0);
    assert_eq!(as_f32(t2.similarity(&t1)), 1.0);
}

#[test]
fn completely_different_is_zero() {
    let t1 = Team::from(&["A", "B", "C"]);
    let t2 = Team::from(&["D", "E", "F"]);
    assert_eq!(as_f32(t1.similarity(&t2)), 0.0);
    assert_eq!(as_f32(t2.similarity(&t1)), 0.0);
}

#[test]
fn different_by_two_players_is_one_third() {
    let t1 = Team::from(&["A", "B", "C"]);
    let t2 = Team::from(&["A", "E", "F"]);
    assert_eq!(as_f32(t1.similarity(&t2)), 0.3333333);
    assert_eq!(as_f32(t2.similarity(&t1)), 0.3333333);
}

#[test]
fn team_similarity_exact_scores() {
    let abc = Team::from(&["A", "B", "C"]);
    assert_eq!(abc.similarity(&Team::from(&["A", "B", "C"])), SIMILARITY_SCALE);
    assert_eq!(abc.similarity(&Team::from(&["A", "B", "F"])), 6_666_667);
    assert_eq!(abc.similarity(&Team::from(&["A", "E", "F"])), 3_333_333);
    assert_eq!(abc.similarity(&Team::from(&["D", "E", "F"])), 0);
    assert_eq!(Team::from(&["A"]).similarity(&abc), 0);
    assert_eq!(as_f32(abc.similarity(&Team::from(&["A", "B", "F"]))), 0.6666667);
}

#[test]
fn team_similarity_is_symmetric() {
    let pairs = [
        (Team::from(&["A", "B", "C", "D"]), Team::from(&["D", "X", "A", "Y"])),
        (Team::from(&["A"]), Team::from(&["B", "C"])),
        (Team::from(&["P", "Q"]), Team::from(&["Q", "P"])),
    ];
    for (a, b) in pairs.iter() {
        assert_eq!(a.similarity(b), b.similarity(a));
    }
    assert_eq!(pairs[0].0.similarity(&pairs[0].1), 5_000_000);
}

#[test]
fn two_empty_teams_are_identical() {
    assert_eq!(Team::new().similarity(&Team::new()), SIMILARITY_SCALE);
}

#[test]
fn adding_a_present_player_changes_nothing() {
    let mut t = Team::from(&["B", "A"]);
    t.add_player("B");
    assert_eq!(t.len(), 2);
    assert_eq!(t, Team::from(&["A", "B"]));
    assert!(t.has_player("A"));
    assert!(!t.has_player("C"));
}

#[test]
fn names_sort_by_character() {
    let t = Team::from(&["b", "B", "ab", "a", "10", "9"]);
    let names: Vec<&str> = t.players().iter().map(|p| p.name()).collect();
    assert_eq!(names, vec!["10", "9", "B", "a", "ab", "b"]);
}

#[test]
fn team_text_joins_names_with_commas() {
    assert_eq!(Team::from(&["C", "A", "B"]).to_text(), "A,B,C");
    assert_eq!(Team::new().to_text(), "");
    assert_eq!(Team::from(&["solo"]).to_text(), "solo");
}

#[test]
fn larger_teams_come_first() {
    let big = Team::from(&["Z", "Y"]);
    let small = Team::from(&["A"]);
    assert!(big.precedes(&small));
    assert!(!small.precedes(&big));
    assert!(Team::from(&["A", "B"]).precedes(&Team::from(&["A", "C"])));
    assert!(!Team::from(&["A", "C"]).precedes(&Team::from(&["A", "B"])));
    assert!(big.precedes(&big));
}
