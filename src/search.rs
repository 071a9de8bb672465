//! Choosing each round among shuffled candidates, least similar to the rounds before it.
use rand::rngs::StdRng;
use rand::seq::SliceRandom;
use vstd::prelude::*;

use crate::partition::{generate_round, names_of, partition_of};
use crate::round::{round_sim, Round};
use crate::team::SIMILARITY_SCALE;

verus! {

/// The number of candidates tried for a round, unless configured otherwise.
pub const DEFAULT_ATTEMPT_LIMIT: usize = 100;

/// The mean similarity to earlier rounds at or below which a candidate is
/// accepted at once, unless configured otherwise.
pub const DEFAULT_ACCEPTANCE: u64 = 0;

#[verifier::external_type_specification]
#[verifier::external_body]
pub struct ExStdRng(StdRng);

/// Relies on rand's `SliceRandom::shuffle` (a Fisher-Yates shuffle by swaps):
/// the identifiers come back permuted.
#[verifier::external_body]
fn shuffle_ids(ids: &mut Vec<String>, rng: &mut StdRng)
    ensures
        names_of(final(ids)@).to_multiset() == names_of(old(ids)@).to_multiset(),
{
    ids.shuffle(rng);
}

/// How the search for each round is bounded.
pub struct SearchConfig {
    /// The most candidates tried for a round (at least one is always tried).
    pub attempt_limit: usize,
    /// A candidate whose mean similarity to earlier rounds is at or below this
    /// score is accepted at once.
    pub acceptance: u64,
}

impl SearchConfig {
    /// The default bounds: `DEFAULT_ATTEMPT_LIMIT` candidates, accepting at once
    /// only a candidate with nothing in common with earlier rounds.
    pub fn new() -> (r: SearchConfig)
        ensures
            r.attempt_limit == DEFAULT_ATTEMPT_LIMIT,
            r.acceptance == DEFAULT_ACCEPTANCE,
    {
        SearchConfig { attempt_limit: DEFAULT_ATTEMPT_LIMIT, acceptance: DEFAULT_ACCEPTANCE }
    }
}

/// The views of a sequence of rounds.
pub open spec fn views(rs: Seq<Round>) -> Seq<Seq<Seq<Seq<char>>>> {
    rs.map_values(|r: Round| r@)
}

/// The sum of the similarities of a candidate to the first `n` earlier rounds.
pub open spec fn history_sum(history: Seq<Seq<Seq<Seq<char>>>>, c: Seq<Seq<Seq<char>>>, n: int) -> int
    decreases n,
{
    if n <= 0 {
        0
    } else {
        history_sum(history, c, n - 1) + round_sim(history[n - 1], c)
    }
}

/// How a candidate order scores against the history: the sum of its round's
/// similarities to every earlier round. For a fixed history, a lower sum is a
/// lower mean.
pub open spec fn score(
    history: Seq<Seq<Seq<Seq<char>>>>,
    order: Seq<Seq<char>>,
    n_teams: int,
    team_size: int,
) -> int {
    history_sum(history, partition_of(order, n_teams, team_size), history.len() as int)
}

/// The most candidates a search may try.
pub open spec fn attempt_budget(history_len: int, n_orders: int, attempt_limit: int) -> int {
    if history_len == 0 {
        1
    } else {
        let limit = if attempt_limit < 1 {
            1
        } else {
            attempt_limit
        };
        if n_orders < limit {
            n_orders
        } else {
            limit
        }
    }
}

/// The search tries exactly `n` candidates: it stops after the first whose mean
/// similarity to the history is at or below the acceptance score, or when the
/// budget is spent.
pub open spec fn tries_exactly(
    n: int,
    orders: Seq<Seq<Seq<char>>>,
    history: Seq<Seq<Seq<Seq<char>>>>,
    n_teams: int,
    team_size: int,
    acceptance: int,
    attempt_limit: int,
) -> bool {
    let budget = attempt_budget(history.len() as int, orders.len() as int, attempt_limit);
    let threshold = acceptance * history.len();
    &&& 1 <= n <= budget
    &&& (n == budget || score(history, orders[n - 1], n_teams, team_size) <= threshold)
    &&& forall|j: int|
        0 <= j < n - 1 ==> #[trigger] score(history, orders[j], n_teams, team_size) > threshold
}

/// Among the first `n` candidates, `b` is the first with the lowest score.
pub open spec fn first_best(
    b: int,
    n: int,
    orders: Seq<Seq<Seq<char>>>,
    history: Seq<Seq<Seq<Seq<char>>>>,
    n_teams: int,
    team_size: int,
) -> bool {
    &&& 0 <= b < n
    &&& forall|j: int|
        0 <= j < n ==> score(history, orders[b], n_teams, team_size) <= #[trigger] score(
            history,
            orders[j],
            n_teams,
            team_size,
        )
    &&& forall|j: int|
        0 <= j < b ==> #[trigger] score(history, orders[j], n_teams, team_size) > score(
            history,
            orders[b],
            n_teams,
            team_size,
        )
}

/// `r` is what the search makes of the candidate orders `orders`: it tries the
/// orders in turn as `tries_exactly` says, and takes the round of the first of
/// the tried candidates with the lowest score. With no history, the first
/// candidate is taken as it is.
pub open spec fn is_search_outcome(
    r: Seq<Seq<Seq<char>>>,
    orders: Seq<Seq<Seq<char>>>,
    history: Seq<Seq<Seq<Seq<char>>>>,
    n_teams: int,
    team_size: int,
    acceptance: int,
    attempt_limit: int,
) -> bool {
    exists|n: int, b: int|
        #[trigger] first_best(b, n, orders, history, n_teams, team_size) && tries_exactly(
            n,
            orders,
            history,
            n_teams,
            team_size,
            acceptance,
            attempt_limit,
        ) && r == partition_of(orders[b], n_teams, team_size)
}

/// The sum of the similarities of `candidate` to every round of `history`.
pub fn history_similarity(history: &[Round], candidate: &Round) -> (r: u128)
    requires
        candidate.wf(),
        forall|i: int| 0 <= i < history@.len() ==> (#[trigger] history@[i]).wf(),
    ensures
        r == history_sum(views(history@), candidate@, history@.len() as int),
        r <= history@.len() * SIMILARITY_SCALE,
{
    let ghost hs = views(history@);
    let mut sum: u128 = 0;
    let mut i: usize = 0;
    while i < history.len()
        invariant
            hs == views(history@),
            candidate.wf(),
            forall|k: int| 0 <= k < history@.len() ==> (#[trigger] history@[k]).wf(),
            i <= history@.len(),
            sum == history_sum(hs, candidate@, i as int),
            sum <= i * SIMILARITY_SCALE,
        decreases history@.len() - i,
    {
        let s = history[i].similarity(candidate);
        sum = sum + s as u128;
        i = i + 1;
    }
    sum
}

/// Picks a round from the candidate orders `orders`, as `is_search_outcome` describes.
pub fn choose_round(
    orders: &Vec<Vec<String>>,
    n_players: usize,
    n_teams: usize,
    team_size: usize,
    history: &[Round],
    config: &SearchConfig,
) -> (r: Round)
    requires
        orders@.len() >= 1,
        n_teams * team_size <= n_players,
        forall|i: int| 0 <= i < orders@.len() ==> (#[trigger] orders@[i])@.len() == n_players,
        forall|i: int| 0 <= i < history@.len() ==> (#[trigger] history@[i]).wf(),
    ensures
        r.wf(),
        is_search_outcome(
            r@,
            orders@.map_values(|o: Vec<String>| names_of(o@)),
            views(history@),
            n_teams as int,
            team_size as int,
            config.acceptance as int,
            config.attempt_limit as int,
        ),
{
    let ghost os = orders@.map_values(|o: Vec<String>| names_of(o@));
    let ghost hs = views(history@);
    let h = history.len();
    let budget: usize = if h == 0 {
        1
    } else {
        let limit: usize = if config.attempt_limit < 1 {
            1
        } else {
            config.attempt_limit
        };
        if orders.len() < limit {
            orders.len()
        } else {
            limit
        }
    };
    assert((config.acceptance as u128) * (h as u128) <= u64::MAX * u64::MAX) by (nonlinear_arith)
        requires
            config.acceptance <= u64::MAX,
            h <= u64::MAX,
    ;
    let threshold: u128 = (config.acceptance as u128) * (h as u128);
    assert(threshold == config.acceptance * hs.len()) by (nonlinear_arith)
        requires
            threshold == config.acceptance * h,
            h == hs.len(),
    ;
    let mut best = generate_round(n_players, n_teams, team_size, orders[0].as_slice());
    let mut best_score = history_similarity(history, &best);
    let ghost mut b: int = 0;
    assert(best@ == partition_of(os[0], n_teams as int, team_size as int));
    let mut i: usize = 1;
    while i < budget && best_score > threshold
        invariant
            os == orders@.map_values(|o: Vec<String>| names_of(o@)),
            hs == views(history@),
            budget == attempt_budget(hs.len() as int, os.len() as int, config.attempt_limit as int),
            threshold == config.acceptance * hs.len(),
            1 <= budget <= orders@.len(),
            1 <= i <= budget,
            n_teams * team_size <= n_players,
            forall|k: int| 0 <= k < orders@.len() ==> (#[trigger] orders@[k])@.len() == n_players,
            forall|k: int| 0 <= k < history@.len() ==> (#[trigger] history@[k]).wf(),
            best.wf(),
            0 <= b < i,
            best@ == partition_of(os[b], n_teams as int, team_size as int),
            best_score == score(hs, os[b], n_teams as int, team_size as int),
            forall|j: int|
                0 <= j < i - 1 ==> #[trigger] score(hs, os[j], n_teams as int, team_size as int)
                    > threshold,
            best_score > threshold || b == i - 1,
            forall|j: int|
                0 <= j < i ==> best_score <= #[trigger] score(
                    hs,
                    os[j],
                    n_teams as int,
                    team_size as int,
                ),
            forall|j: int|
                0 <= j < b ==> #[trigger] score(hs, os[j], n_teams as int, team_size as int)
                    > best_score,
        decreases budget - i,
    {
        let candidate = generate_round(n_players, n_teams, team_size, orders[i].as_slice());
        let s = history_similarity(history, &candidate);
        assert(candidate@ == partition_of(os[i as int], n_teams as int, team_size as int));
        assert(s == score(hs, os[i as int], n_teams as int, team_size as int));
        if s < best_score {
            best = candidate;
            best_score = s;
            proof {
                b = i as int;
            }
        }
        i = i + 1;
    }
    proof {
        let n = i as int;
        assert(n == budget || score(hs, os[n - 1], n_teams as int, team_size as int) <= threshold);
        assert(first_best(b, n, os, hs, n_teams as int, team_size as int));
    }
    best
}

/// The orders are at least one, and each holds the names of the population, reordered.
pub open spec fn are_shuffles(orders: Seq<Seq<Seq<char>>>, population: Seq<Seq<char>>) -> bool {
    &&& orders.len() >= 1
    &&& forall|k: int| 0 <= k < orders.len() ==> (#[trigger] orders[k]).to_multiset() == population.to_multiset()
}

/// `r` is a round that the search may make from some shuffles of the population.
pub open spec fn is_accepted_round(
    r: Seq<Seq<Seq<char>>>,
    history: Seq<Seq<Seq<Seq<char>>>>,
    population: Seq<Seq<char>>,
    n_teams: int,
    team_size: int,
    acceptance: int,
    attempt_limit: int,
) -> bool {
    exists|orders: Seq<Seq<Seq<char>>>|
        are_shuffles(orders, population) && #[trigger] is_search_outcome(
            r,
            orders,
            history,
            n_teams,
            team_size,
            acceptance,
            attempt_limit,
        )
}

/// One search outcome per candidate orders: the same shuffles against the same
/// history give the same round.
pub proof fn lemma_search_outcome_unique(
    r1: Seq<Seq<Seq<char>>>,
    r2: Seq<Seq<Seq<char>>>,
    orders: Seq<Seq<Seq<char>>>,
    history: Seq<Seq<Seq<Seq<char>>>>,
    n_teams: int,
    team_size: int,
    acceptance: int,
    attempt_limit: int,
)
    requires
        is_search_outcome(r1, orders, history, n_teams, team_size, acceptance, attempt_limit),
        is_search_outcome(r2, orders, history, n_teams, team_size, acceptance, attempt_limit),
    ensures
        r1 == r2,
{
    let (n1, b1) = choose|n: int, b: int|
        #[trigger] first_best(b, n, orders, history, n_teams, team_size) && tries_exactly(
            n,
            orders,
            history,
            n_teams,
            team_size,
            acceptance,
            attempt_limit,
        ) && r1 == partition_of(orders[b], n_teams, team_size);
    let (n2, b2) = choose|n: int, b: int|
        #[trigger] first_best(b, n, orders, history, n_teams, team_size) && tries_exactly(
            n,
            orders,
            history,
            n_teams,
            team_size,
            acceptance,
            attempt_limit,
        ) && r2 == partition_of(orders[b], n_teams, team_size);
    if n1 < n2 {
        assert(score(history, orders[n1 - 1], n_teams, team_size) > acceptance * history.len());
    }
    if n2 < n1 {
        assert(score(history, orders[n2 - 1], n_teams, team_size) > acceptance * history.len());
    }
    assert(n1 == n2);
    if b1 < b2 {
        assert(score(history, orders[b1], n_teams, team_size) > score(history, orders[b2], n_teams, team_size));
    }
    if b2 < b1 {
        assert(score(history, orders[b2], n_teams, team_size) > score(history, orders[b1], n_teams, team_size));
    }
}

/// With no earlier rounds, the search takes the first candidate as it is.
pub proof fn lemma_first_round_taken_as_is(
    r: Seq<Seq<Seq<char>>>,
    orders: Seq<Seq<Seq<char>>>,
    n_teams: int,
    team_size: int,
    acceptance: int,
    attempt_limit: int,
)
    requires
        is_search_outcome(
            r,
            orders,
            Seq::<Seq<Seq<Seq<char>>>>::empty(),
            n_teams,
            team_size,
            acceptance,
            attempt_limit,
        ),
    ensures
        r == partition_of(orders[0], n_teams, team_size),
{
}

/// Schedules made from the same shuffles, round by round, are the same: each round
/// is searched against all rounds before it, and the search is a function of its inputs.
pub proof fn lemma_schedule_deterministic(
    rs1: Seq<Seq<Seq<Seq<char>>>>,
    rs2: Seq<Seq<Seq<Seq<char>>>>,
    orders: Seq<Seq<Seq<Seq<char>>>>,
    n_teams: int,
    team_size: int,
    acceptance: int,
    attempt_limit: int,
)
    requires
        rs1.len() == rs2.len(),
        rs1.len() <= orders.len(),
        forall|i: int|
            0 <= i < rs1.len() ==> is_search_outcome(
                #[trigger] rs1[i],
                orders[i],
                rs1.subrange(0, i),
                n_teams,
                team_size,
                acceptance,
                attempt_limit,
            ),
        forall|i: int|
            0 <= i < rs2.len() ==> is_search_outcome(
                #[trigger] rs2[i],
                orders[i],
                rs2.subrange(0, i),
                n_teams,
                team_size,
                acceptance,
                attempt_limit,
            ),
    ensures
        rs1 == rs2,
    decreases rs1.len(),
{
    let n = rs1.len() as int;
    if n > 0 {
        let p1 = rs1.subrange(0, n - 1);
        let p2 = rs2.subrange(0, n - 1);
        assert forall|i: int| 0 <= i < p1.len() implies is_search_outcome(
            #[trigger] p1[i],
            orders[i],
            p1.subrange(0, i),
            n_teams,
            team_size,
            acceptance,
            attempt_limit,
        ) by {
            assert(p1.subrange(0, i) =~= rs1.subrange(0, i));
            assert(p1[i] == rs1[i]);
        }
        assert forall|i: int| 0 <= i < p2.len() implies is_search_outcome(
            #[trigger] p2[i],
            orders[i],
            p2.subrange(0, i),
            n_teams,
            team_size,
            acceptance,
            attempt_limit,
        ) by {
            assert(p2.subrange(0, i) =~= rs2.subrange(0, i));
            assert(p2[i] == rs2[i]);
        }
        lemma_schedule_deterministic(p1, p2, orders, n_teams, team_size, acceptance, attempt_limit);
        assert(rs1.subrange(0, n - 1) == rs2.subrange(0, n - 1));
        assert(is_search_outcome(rs1[n - 1], orders[n - 1], rs1.subrange(0, n - 1), n_teams, team_size, acceptance, attempt_limit));
        assert(is_search_outcome(rs2[n - 1], orders[n - 1], rs2.subrange(0, n - 1), n_teams, team_size, acceptance, attempt_limit));
        lemma_search_outcome_unique(
            rs1[n - 1],
            rs2[n - 1],
            orders[n - 1],
            rs1.subrange(0, n - 1),
            n_teams,
            team_size,
            acceptance,
            attempt_limit,
        );
        assert(rs1 =~= rs2) by {
            assert forall|i: int| 0 <= i < n implies rs1[i] == rs2[i] by {
                if i < n - 1 {
                    assert(rs1[i] == rs1.subrange(0, n - 1)[i]);
                    assert(rs2[i] == rs2.subrange(0, n - 1)[i]);
                }
            }
        }
    } else {
        assert(rs1 =~= rs2);
    }
}

/// A copy of a sequence of identifiers.
fn copy_ids(ids: &Vec<String>) -> (r: Vec<String>)
    ensures
        r@ == ids@,
{
    let mut r: Vec<String> = Vec::new();
    let mut i: usize = 0;
    while i < ids.len()
        invariant
            i <= ids@.len(),
            r@ =~= ids@.subrange(0, i as int),
        decreases ids@.len() - i,
    {
        r.push(ids[i].clone());
        i = i + 1;
    }
    assert(ids@.subrange(0, i as int) =~= ids@);
    r
}

/// Picks a round for the population: with no earlier rounds, one shuffle taken as it
/// is; otherwise up to `config.attempt_limit` shuffles, searched as `choose_round` does.
pub fn optimize_round(
    population: &Vec<String>,
    n_teams: usize,
    team_size: usize,
    history: &[Round],
    config: &SearchConfig,
    rng: &mut StdRng,
) -> (r: Round)
    requires
        n_teams * team_size <= population@.len(),
        forall|i: int| 0 <= i < history@.len() ==> (#[trigger] history@[i]).wf(),
    ensures
        r.wf(),
        is_accepted_round(
            r@,
            views(history@),
            names_of(population@),
            n_teams as int,
            team_size as int,
            config.acceptance as int,
            config.attempt_limit as int,
        ),
{
    let budget: usize = if history.len() == 0 || config.attempt_limit < 1 {
        1
    } else {
        config.attempt_limit
    };
    let ghost pop = names_of(population@);
    let mut ids = copy_ids(population);
    let mut orders: Vec<Vec<String>> = Vec::new();
    while orders.len() < budget
        invariant
            pop == names_of(population@),
            1 <= budget,
            orders@.len() <= budget,
            ids@.len() == population@.len(),
            names_of(ids@).to_multiset() == pop.to_multiset(),
            forall|k: int| 0 <= k < orders@.len() ==> (#[trigger] orders@[k])@.len() == population@.len(),
            forall|k: int|
                0 <= k < orders@.len() ==> names_of((#[trigger] orders@[k])@).to_multiset() == pop.to_multiset(),
        decreases budget - orders@.len(),
    {
        let ghost before = ids@;
        shuffle_ids(&mut ids, rng);
        proof {
            vstd::seq_lib::to_multiset_len(names_of(ids@));
            vstd::seq_lib::to_multiset_len(names_of(before));
        }
        orders.push(copy_ids(&ids));
    }
    let ghost os = orders@.map_values(|o: Vec<String>| names_of(o@));
    let r = choose_round(&orders, population.len(), n_teams, team_size, history, config);
    proof {
        assert(are_shuffles(os, pop)) by {
            assert forall|k: int| 0 <= k < os.len() implies (#[trigger] os[k]).to_multiset() == pop.to_multiset() by {
                assert(os[k] == names_of(orders@[k]@));
            }
        }
    }
    r
}

/// Generates `round_count` rounds; each is searched against all rounds before it.
pub fn generate_rounds(
    population: &Vec<String>,
    round_count: usize,
    n_teams: usize,
    team_size: usize,
    config: &SearchConfig,
    rng: &mut StdRng,
) -> (r: Vec<Round>)
    requires
        n_teams * team_size <= population@.len(),
    ensures
        r@.len() == round_count,
        forall|i: int| 0 <= i < r@.len() ==> (#[trigger] r@[i]).wf(),
        forall|i: int|
            0 <= i < r@.len() ==> is_accepted_round(
                #[trigger] r@[i]@,
                views(r@.subrange(0, i)),
                names_of(population@),
                n_teams as int,
                team_size as int,
                config.acceptance as int,
                config.attempt_limit as int,
            ),
{
    let mut rounds: Vec<Round> = Vec::new();
    while rounds.len() < round_count
        invariant
            n_teams * team_size <= population@.len(),
            rounds@.len() <= round_count,
            forall|i: int| 0 <= i < rounds@.len() ==> (#[trigger] rounds@[i]).wf(),
            forall|i: int|
                0 <= i < rounds@.len() ==> is_accepted_round(
                    #[trigger] rounds@[i]@,
                    views(rounds@.subrange(0, i)),
                    names_of(population@),
                    n_teams as int,
                    team_size as int,
                    config.acceptance as int,
                    config.attempt_limit as int,
                ),
        decreases round_count - rounds@.len(),
    {
        let next = optimize_round(population, n_teams, team_size, rounds.as_slice(), config, rng);
        let ghost before = rounds@;
        rounds.push(next);
        proof {
            assert forall|i: int| 0 <= i < rounds@.len() implies is_accepted_round(
                #[trigger] rounds@[i]@,
                views(rounds@.subrange(0, i)),
                names_of(population@),
                n_teams as int,
                team_size as int,
                config.acceptance as int,
                config.attempt_limit as int,
            ) by {
                if i < before.len() {
                    assert(rounds@.subrange(0, i) =~= before.subrange(0, i));
                    assert(rounds@[i] == before[i]);
                } else {
                    assert(rounds@.subrange(0, i) =~= before);
                }
            }
        }
    }
    rounds
}

} // verus!
