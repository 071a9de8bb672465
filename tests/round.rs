use tmer::round::Round;
use tmer::team::{Team, SIMILARITY_SCALE};

fn as_f32(score: u64) -> f32 {
    score as f32 / SIMILARITY_SCALE as f32
}

#[test]
fn same() {
    let r1 = Round::from(&[Team::from(&["A", "B", "C"])]);
    let r2 = Round::from(&[Team::from(&["A", "B", "C"])]);
    assert_eq!(as_f32(r1.similarity(&r2)), 1.0);
    assert_eq!(as_f32(r2.similarity(&r1)), 1.0);
}

#[test]
fn different() {
    let r1 = Round::from(&[Team::from(&["A", "B", "C"])]);
    let r2 = Round::from(&[Team::from(&["D", "E", "F"])]);
    assert_eq!(as_f32(r1.similarity(&r2)), 0.0);
    assert_eq!(as_f32(r2.similarity(&r1)), 0.0);
}

#[test]
fn different_by_two() {
    let r1 = Round::from(&[Team::from(&["A", "B", "C"])]);
    let r2 = Round::from(&[Team::from(&["A", "E", "F"])]);
    assert_eq!(as_f32(r1.similarity(&r2)), 0.3333333);
    assert_eq!(as_f32(r2.similarity(&r1)), 0.3333333);
}

#[test]
fn same_with_many_teams() {
    let r1 = Round::from(&[Team::from(&["A", "B", "C"]), Team::from(&["1", "2", "3"])]);
    let r2 = Round::from(&[Team::from(&["A", "B", "C"]), Team::from(&["1", "2", "3"])]);
    assert_eq!(as_f32(r1.similarity(&r2)), 1.0);
    assert_eq!(as_f32(r2.similarity(&r1)), 1.0);
}

#[test]
fn same_with_many_teams_order_should_not_matter() {
    let r1 = Round::from(&[Team::from(&["1", "2", "3"]), Team::from(&["A", "B", "C"])]);
    let r2 = Round::from(&[Team::from(&["A", "B", "C"]), Team::from(&["1", "2", "3"])]);
    assert_eq!(as_f32(r1.similarity(&r2)), 1.0);
    assert_eq!(as_f32(r2.similarity(&r1)), 1.0);
}

#[test]
fn round_similarity_exact_scores() {
    let r1 = Round::from(&[Team::from(&["A", "B", "C"])]);
    let r2 = Round::from(&[Team::from(&["A", "B", "F"])]);
    assert_eq!(r1.similarity(&r2), 6_666_667);
    let two = Round::from(&[Team::from(&["A", "B"]), Team::from(&["C", "D"])]);
    let one = Round::from(&[Team::from(&["A", "B", "C", "D"])]);
    assert_eq!(two.similarity(&one), 0);
    assert_eq!(one.similarity(&two), 0);
    let mixed = Round::from(&[Team::from(&["A", "C"]), Team::from(&["B", "D"])]);
    assert_eq!(two.similarity(&mixed), 5_000_000);
    assert_eq!(mixed.similarity(&two), 5_000_000);
}

#[test]
fn round_keeps_canonical_order() {
    let mut r = Round::new();
    r.add_team(Team::from(&["Z"]));
    r.add_team(Team::from(&["B", "A"]));
    r.add_team(Team::from(&["D", "C"]));
    assert_eq!(r.len(), 3);
    assert_eq!(r.to_text(), "A,B\nC,D\nZ");
    let same = Round::from(&[Team::from(&["C", "D"]), Team::from(&["Z"]), Team::from(&["A", "B"])]);
    assert_eq!(r, same);
    assert_eq!(Round::new().to_text(), "");
}

#[test]
fn round_text_lists_teams_by_line() {
    let r = Round::from(&[Team::from(&["A", "B", "C"]), Team::from(&["3", "1", "2"])]);
    assert_eq!(r.to_text(), "1,2,3\nA,B,C");
    assert_eq!(r.teams().len(), 2);
}

#[test]
fn empty_rounds_are_identical() {
    assert_eq!(Round::new().similarity(&Round::new()), SIMILARITY_SCALE);
}
