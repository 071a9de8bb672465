use rand::rngs::StdRng;
use rand::SeedableRng;
use tmer::config::{ConfigError, TmerArgs};
use tmer::partition::generate_round;
use tmer::round::Round;
use tmer::search::{
    choose_round, generate_rounds, history_similarity, optimize_round, SearchConfig,
    DEFAULT_ACCEPTANCE, DEFAULT_ATTEMPT_LIMIT,
};
use tmer::team::{Team, SIMILARITY_SCALE};

fn names(ls: &[&str]) -> Vec<String> {
    ls.iter().map(|s| s.to_string()).collect()
}

fn numbered(n: usize) -> Vec<String> {
    (1..n + 1).map(|x| x.to_string()).collect()
}

#[test]
fn partition_of_ten_into_three_teams_of_three() {
    let ids = numbered(10);
    let r = generate_round(10, 3, 3, &ids);
    let teams = r.teams();
    assert_eq!(teams.len(), 4);
    let sizes: Vec<usize> = teams.iter().map(|t| t.len()).collect();
    assert_eq!(sizes, vec![3, 3, 3, 1]);
    let mut all: Vec<String> = Vec::new();
    for t in teams.iter() {
        for p in t.players().iter() {
            assert!(!all.contains(&p.name().to_string()));
            all.push(p.name().to_string());
        }
    }
    all.sort();
    let mut expected = ids.clone();
    expected.sort();
    assert_eq!(all, expected);
    assert_eq!(r.to_text(), "1,2,3\n4,5,6\n7,8,9\n10");
}

#[test]
fn partition_follows_population_order() {
    let ids = names(&["f", "e", "d", "c", "b", "a"]);
    let r = generate_round(6, 2, 3, &ids);
    assert_eq!(r, Round::from(&[Team::from(&["f", "e", "d"]), Team::from(&["c", "b", "a"])]));
    assert_eq!(r.to_text(), "a,b,c\nd,e,f");
}

#[test]
fn partition_without_remainder_makes_no_empty_team() {
    let ids = numbered(6);
    let r = generate_round(6, 3, 2, &ids);
    assert_eq!(r.len(), 3);
    let r = generate_round(6, 2, 2, &ids);
    assert_eq!(r.len(), 3);
    assert_eq!(r.to_text(), "1,2\n3,4\n5,6");
    let r = generate_round(6, 1, 4, &ids);
    assert_eq!(r.to_text(), "1,2,3,4\n5,6");
}

fn four() -> Vec<String> {
    names(&["a", "b", "c", "d"])
}

#[test]
fn first_round_is_taken_without_search() {
    let orders = vec![names(&["a", "c", "b", "d"]), names(&["a", "b", "c", "d"])];
    let r = choose_round(&orders, 4, 2, 2, &[], &SearchConfig::new());
    assert_eq!(r.to_text(), "a,c\nb,d");
}

#[test]
fn later_rounds_are_scored_against_every_earlier_round() {
    let h1 = generate_round(4, 2, 2, &names(&["a", "b", "c", "d"]));
    let h2 = generate_round(4, 2, 2, &names(&["a", "c", "b", "d"]));
    let history = vec![h1, h2];
    let orders = vec![
        names(&["a", "b", "c", "d"]),
        names(&["a", "d", "b", "c"]),
        names(&["a", "c", "b", "d"]),
    ];
    let cands: Vec<Round> = orders.iter().map(|o| generate_round(4, 2, 2, o)).collect();
    assert_eq!(history_similarity(&history, &cands[0]), 15_000_000);
    assert_eq!(history_similarity(&history, &cands[1]), 10_000_000);
    assert_eq!(history_similarity(&history, &cands[2]), 15_000_000);
    assert_eq!(history_similarity(&history[1..], &cands[0]), history_similarity(&history[1..], &cands[1]));
    let r = choose_round(&orders, 4, 2, 2, &history, &SearchConfig::new());
    assert_eq!(r.to_text(), "a,d\nb,c");
}

#[test]
fn search_keeps_the_first_of_equal_best_candidates() {
    let history = vec![generate_round(4, 2, 2, &four())];
    let orders = vec![
        names(&["a", "c", "b", "d"]),
        names(&["a", "d", "b", "c"]),
        names(&["a", "b", "c", "d"]),
    ];
    let r = choose_round(&orders, 4, 2, 2, &history, &SearchConfig::new());
    assert_eq!(r.to_text(), "a,c\nb,d");
}

#[test]
fn search_stops_at_an_acceptable_candidate() {
    let history = vec![generate_round(4, 2, 2, &four())];
    let orders = vec![
        names(&["a", "b", "c", "d"]),
        names(&["a", "c", "b", "d"]),
        names(&["a", "d", "b", "c"]),
    ];
    let config = SearchConfig { attempt_limit: 10, acceptance: 5_000_000 };
    let r = choose_round(&orders, 4, 2, 2, &history, &config);
    assert_eq!(r.to_text(), "a,c\nb,d");
    let config = SearchConfig { attempt_limit: 1, acceptance: 0 };
    let r = choose_round(&orders, 4, 2, 2, &history, &config);
    assert_eq!(r.to_text(), "a,b\nc,d");
}

#[test]
fn default_search_config() {
    let c = SearchConfig::new();
    assert_eq!(c.attempt_limit, 100);
    assert_eq!(c.attempt_limit, DEFAULT_ATTEMPT_LIMIT);
    assert_eq!(c.acceptance, DEFAULT_ACCEPTANCE);
}

#[test]
fn three_rounds_are_full_partitions() {
    let pop = numbered(10);
    let mut rng = StdRng::seed_from_u64(3);
    let rounds = generate_rounds(&pop, 3, 3, 3, &SearchConfig::new(), &mut rng);
    assert_eq!(rounds.len(), 3);
    for r in rounds.iter() {
        let sizes: Vec<usize> = r.teams().iter().map(|t| t.len()).collect();
        assert_eq!(sizes, vec![3, 3, 3, 1]);
        let mut all: Vec<String> = r
            .teams()
            .iter()
            .flat_map(|t| t.players().iter().map(|p| p.name().to_string()))
            .collect();
        all.sort();
        let mut expected = pop.clone();
        expected.sort();
        assert_eq!(all, expected);
    }
}

#[test]
fn seeded_generation_is_reproducible() {
    let pop = numbered(12);
    let config = SearchConfig::new();
    let mut rng1 = StdRng::seed_from_u64(42);
    let mut rng2 = StdRng::seed_from_u64(42);
    let a = generate_rounds(&pop, 4, 3, 4, &config, &mut rng1);
    let b = generate_rounds(&pop, 4, 3, 4, &config, &mut rng2);
    assert_eq!(a, b);
}

#[test]
fn rounds_are_shuffled() {
    let pop = numbered(20);
    let plain = generate_round(20, 10, 2, &pop);
    let mut rng = StdRng::seed_from_u64(1);
    let r = optimize_round(&pop, 10, 2, &[], &SearchConfig::new(), &mut rng);
    assert_ne!(r, plain);
    assert_eq!(r.len(), 10);
}

#[test]
fn second_round_differs_from_first() {
    let pop = numbered(8);
    let mut rng = StdRng::seed_from_u64(9);
    let rounds = generate_rounds(&pop, 2, 2, 4, &SearchConfig::new(), &mut rng);
    assert!(rounds[1].similarity(&rounds[0]) < SIMILARITY_SCALE);
}

#[test]
fn zero_rounds_make_nothing() {
    let mut rng = StdRng::seed_from_u64(0);
    assert!(generate_rounds(&numbered(4), 0, 2, 2, &SearchConfig::new(), &mut rng).is_empty());
}

#[test]
fn settings_from_team_count() {
    let a = TmerArgs::new(None, numbered(10), Some(3), None).unwrap();
    assert_eq!(a.n_rounds, 1);
    assert_eq!(a.n_players, 10);
    assert_eq!(a.n_teams, 3);
    assert_eq!(a.team_size, 3);
    assert_eq!(a.elements, numbered(10));
}

#[test]
fn settings_from_team_size() {
    let a = TmerArgs::new(Some(4), numbered(10), None, Some(4)).unwrap();
    assert_eq!(a.n_rounds, 4);
    assert_eq!(a.n_teams, 2);
    assert_eq!(a.team_size, 4);
}

#[test]
fn settings_errors() {
    assert_eq!(TmerArgs::new(None, vec![], Some(1), None).unwrap_err(), ConfigError::EmptyPopulation);
    assert_eq!(
        TmerArgs::new(None, names(&["a", "b", "a"]), Some(1), None).unwrap_err(),
        ConfigError::DuplicateParticipant
    );
    assert_eq!(TmerArgs::new(None, numbered(4), None, Some(0)).unwrap_err(), ConfigError::InvalidConfiguration);
    assert_eq!(TmerArgs::new(None, numbered(4), None, Some(5)).unwrap_err(), ConfigError::InvalidConfiguration);
    assert_eq!(TmerArgs::new(None, numbered(4), Some(0), None).unwrap_err(), ConfigError::InvalidConfiguration);
    assert_eq!(TmerArgs::new(None, numbered(4), Some(5), None).unwrap_err(), ConfigError::InvalidConfiguration);
    assert_eq!(TmerArgs::new(None, numbered(4), None, None).unwrap_err(), ConfigError::InvalidConfiguration);
    assert_eq!(TmerArgs::new(None, numbered(4), Some(2), Some(2)).unwrap_err(), ConfigError::InvalidConfiguration);
    assert!(TmerArgs::new(None, numbered(4), None, Some(4)).is_ok());
}
