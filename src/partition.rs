//! Splitting an ordered population into a round of teams.
use vstd::prelude::*;

use crate::order::{lemma_team_order_total, team_order};
use crate::round::{canonical, lemma_canonical_of_sorted, lemma_canonical_push, Round};
use crate::team::{lemma_team_of_canonical, lemma_team_of_seq, team_of, Team};

verus! {

/// The names of a sequence of identifiers.
pub open spec fn names_of(ids: Seq<String>) -> Seq<Seq<char>> {
    ids.map_values(|s: String| s@)
}

/// Whether the population leaves players over after `n_teams` full teams.
pub open spec fn has_remainder(len: int, n_teams: int, team_size: int) -> bool {
    n_teams * team_size < len
}

/// The number of teams a partition makes: the full teams, and one more for
/// the players left over, if any.
pub open spec fn partition_count(len: int, n_teams: int, team_size: int) -> int {
    if has_remainder(len, n_teams, team_size) {
        n_teams + 1
    } else {
        n_teams
    }
}

/// The teams of a partition, in the order the population gives them.
pub open spec fn chunks(ids: Seq<Seq<char>>, n_teams: int, team_size: int) -> Seq<Seq<Seq<char>>> {
    Seq::new(
        partition_count(ids.len() as int, n_teams, team_size) as nat,
        |j: int| chunk(ids, n_teams, team_size, j),
    )
}

/// The round that partitioning `ids` gives.
pub open spec fn partition_of(ids: Seq<Seq<char>>, n_teams: int, team_size: int) -> Seq<Seq<Seq<char>>> {
    canonical(chunks(ids, n_teams, team_size))
}

/// Where the `j`-th team of a partition starts in the population.
pub open spec fn chunk_start(n_teams: int, team_size: int, j: int) -> int {
    j * team_size
}

/// Where the `j`-th team of a partition ends in the population.
pub open spec fn chunk_end(len: int, n_teams: int, team_size: int, j: int) -> int {
    if j < n_teams {
        (j + 1) * team_size
    } else {
        len
    }
}

/// The `j`-th team of a partition: a contiguous run of `team_size` names in
/// population order, or for the last, remainder team, all names after the full teams.
pub open spec fn chunk(ids: Seq<Seq<char>>, n_teams: int, team_size: int, j: int) -> Seq<Seq<char>> {
    team_of(
        ids.subrange(
            chunk_start(n_teams, team_size, j),
            chunk_end(ids.len() as int, n_teams, team_size, j),
        ).to_set(),
    )
}

proof fn lemma_chunk_bounds(len: int, n_teams: int, team_size: int, j: int)
    requires
        0 <= n_teams,
        0 <= team_size,
        n_teams * team_size <= len,
        0 <= j < partition_count(len, n_teams, team_size),
    ensures
        0 <= chunk_start(n_teams, team_size, j) <= chunk_end(len, n_teams, team_size, j) <= len,
        j < n_teams ==> chunk_end(len, n_teams, team_size, j) - chunk_start(n_teams, team_size, j)
            == team_size,
        j == n_teams ==> chunk_start(n_teams, team_size, j) == n_teams * team_size,
        forall|k: int|
            j < k < partition_count(len, n_teams, team_size) ==> chunk_end(len, n_teams, team_size, j)
                <= #[trigger] chunk_start(n_teams, team_size, k),
{
    if j < n_teams {
        assert(0 <= j * team_size <= (j + 1) * team_size <= n_teams * team_size) by (nonlinear_arith)
            requires
                0 <= j < n_teams,
                0 <= team_size,
        ;
        assert((j + 1) * team_size == j * team_size + team_size) by (nonlinear_arith);
        assert forall|k: int| j < k < partition_count(len, n_teams, team_size) implies chunk_end(
            len,
            n_teams,
            team_size,
            j,
        ) <= #[trigger] chunk_start(n_teams, team_size, k) by {
            assert((j + 1) * team_size <= k * team_size) by (nonlinear_arith)
                requires
                    j + 1 <= k,
                    0 <= team_size,
            ;
        }
    }
}

proof fn lemma_chunk_members(ids: Seq<Seq<char>>, n_teams: int, team_size: int, j: int)
    requires
        ids.no_duplicates(),
        0 <= n_teams,
        0 <= team_size,
        n_teams * team_size <= ids.len(),
        0 <= j < partition_count(ids.len() as int, n_teams, team_size),
    ensures
        chunk(ids, n_teams, team_size, j).len() == chunk_end(ids.len() as int, n_teams, team_size, j)
            - chunk_start(n_teams, team_size, j),
        forall|x: Seq<char>|
            #[trigger] chunk(ids, n_teams, team_size, j).contains(x) <==> exists|i: int|
                chunk_start(n_teams, team_size, j) <= i < chunk_end(ids.len() as int, n_teams, team_size, j)
                    && ids[i] == x,
{
    let lo = chunk_start(n_teams, team_size, j);
    let hi = chunk_end(ids.len() as int, n_teams, team_size, j);
    lemma_chunk_bounds(ids.len() as int, n_teams, team_size, j);
    let sub = ids.subrange(lo, hi);
    assert(sub.no_duplicates());
    lemma_team_of_seq(sub);
    let c = chunk(ids, n_teams, team_size, j);
    assert(c == team_of(sub.to_set()));
    assert forall|x: Seq<char>| #[trigger] c.contains(x) <==> exists|i: int| lo <= i < hi && ids[i] == x by {
        assert(c.contains(x) <==> c.to_set().contains(x));
        assert(sub.contains(x) <==> sub.to_set().contains(x));
        if sub.contains(x) {
            let k = choose|k: int| 0 <= k < sub.len() && sub[k] == x;
            assert(ids[lo + k] == x);
        }
        if exists|i: int| lo <= i < hi && ids[i] == x {
            let i = choose|i: int| lo <= i < hi && ids[i] == x;
            assert(sub[i - lo] == x);
        }
    }
}

/// Partitioning distinct names: the round holds the teams of the population's
/// contiguous runs, rearranged; each full team has `team_size` players and the
/// remainder team the rest; no name is in two teams, and every name is in one.
pub proof fn lemma_partition_covers(ids: Seq<Seq<char>>, n_teams: int, team_size: int)
    requires
        ids.no_duplicates(),
        0 <= n_teams,
        0 <= team_size,
        n_teams * team_size <= ids.len(),
    ensures
        partition_of(ids, n_teams, team_size).to_multiset() == chunks(
            ids,
            n_teams,
            team_size,
        ).to_multiset(),
        forall|j: int|
            0 <= j < n_teams ==> (#[trigger] chunks(ids, n_teams, team_size)[j]).len() == team_size,
        has_remainder(ids.len() as int, n_teams, team_size) ==> chunks(ids, n_teams, team_size)[n_teams].len()
            == ids.len() - n_teams * team_size,
        forall|j1: int, j2: int, x: Seq<char>|
            0 <= j1 < j2 < partition_count(ids.len() as int, n_teams, team_size) && (#[trigger] chunks(
                ids,
                n_teams,
                team_size,
            )[j1].contains(x)) ==> !(#[trigger] chunks(ids, n_teams, team_size)[j2].contains(x)),
        forall|x: Seq<char>|
            ids.contains(x) ==> exists|j: int|
                0 <= j < partition_count(ids.len() as int, n_teams, team_size) && (#[trigger] chunks(
                    ids,
                    n_teams,
                    team_size,
                )[j].contains(x)),
        forall|j: int, x: Seq<char>|
            0 <= j < partition_count(ids.len() as int, n_teams, team_size) && (#[trigger] chunks(
                ids,
                n_teams,
                team_size,
            )[j].contains(x)) ==> ids.contains(x),
{
    let len = ids.len() as int;
    let c = chunks(ids, n_teams, team_size);
    let count = partition_count(len, n_teams, team_size);
    lemma_team_order_total();
    c.lemma_sort_by_ensures(team_order());
    assert forall|j: int| 0 <= j < count implies (#[trigger] c[j]).len() == chunk_end(
        len,
        n_teams,
        team_size,
        j,
    ) - chunk_start(n_teams, team_size, j) by {
        lemma_chunk_members(ids, n_teams, team_size, j);
        lemma_chunk_bounds(len, n_teams, team_size, j);
    }
    assert forall|j: int| 0 <= j < n_teams implies (#[trigger] c[j]).len() == team_size by {
        lemma_chunk_bounds(len, n_teams, team_size, j);
    }
    if has_remainder(len, n_teams, team_size) {
        lemma_chunk_bounds(len, n_teams, team_size, n_teams);
    }
    assert forall|j1: int, j2: int, x: Seq<char>|
        0 <= j1 < j2 < count && (#[trigger] c[j1].contains(x)) implies !(#[trigger] c[j2].contains(
        x,
    )) by {
        lemma_chunk_members(ids, n_teams, team_size, j1);
        lemma_chunk_members(ids, n_teams, team_size, j2);
        lemma_chunk_bounds(len, n_teams, team_size, j1);
        lemma_chunk_bounds(len, n_teams, team_size, j2);
        if c[j2].contains(x) {
            let i1 = choose|i: int|
                chunk_start(n_teams, team_size, j1) <= i < chunk_end(len, n_teams, team_size, j1)
                    && ids[i] == x;
            let i2 = choose|i: int|
                chunk_start(n_teams, team_size, j2) <= i < chunk_end(len, n_teams, team_size, j2)
                    && ids[i] == x;
            assert(i1 < i2);
        }
    }
    assert forall|x: Seq<char>| ids.contains(x) implies exists|j: int|
        0 <= j < count && (#[trigger] c[j].contains(x)) by {
        let i = choose|i: int| 0 <= i < len && ids[i] == x;
        let j = if i < n_teams * team_size {
            i / team_size
        } else {
            n_teams
        };
        if i < n_teams * team_size {
            assert(team_size > 0) by (nonlinear_arith)
                requires
                    i < n_teams * team_size,
                    0 <= i,
                    0 <= n_teams,
                    0 <= team_size,
            ;
            assert(j * team_size <= i < (j + 1) * team_size) by (nonlinear_arith)
                requires
                    j == i / team_size,
                    team_size > 0,
                    0 <= i,
            ;
            assert(j < n_teams) by (nonlinear_arith)
                requires
                    j * team_size <= i < n_teams * team_size,
                    team_size > 0,
            ;
        }
        lemma_chunk_members(ids, n_teams, team_size, j);
        assert(chunk_start(n_teams, team_size, j) <= i < chunk_end(len, n_teams, team_size, j));
        assert(c[j].contains(x));
    }
    assert forall|j: int, x: Seq<char>| 0 <= j < count && (#[trigger] c[j].contains(x)) implies ids.contains(
        x,
    ) by {
        lemma_chunk_members(ids, n_teams, team_size, j);
        let i = choose|i: int|
            chunk_start(n_teams, team_size, j) <= i < chunk_end(len, n_teams, team_size, j) && ids[i]
                == x;
        lemma_chunk_bounds(len, n_teams, team_size, j);
        assert(0 <= i < len);
    }
}

/// The team of the names `ids[lo..hi]`.
fn team_of_range(ids: &[String], lo: usize, hi: usize) -> (r: Team)
    requires
        lo <= hi <= ids@.len(),
    ensures
        r.wf(),
        r@ == team_of(names_of(ids@).subrange(lo as int, hi as int).to_set()),
{
    let ghost names = names_of(ids@);
    let mut team = Team::new();
    let mut i: usize = lo;
    assert(names.subrange(lo as int, lo as int).to_set() =~= Set::<Seq<char>>::empty());
    assert(team@.to_set() =~= Set::<Seq<char>>::empty());
    while i < hi
        invariant
            lo <= i <= hi,
            hi <= ids@.len(),
            names == names_of(ids@),
            team.wf(),
            team@.to_set() == names.subrange(lo as int, i as int).to_set(),
        decreases hi - i,
    {
        team.add_player(ids[i].as_str());
        proof {
            assert(names.subrange(lo as int, i + 1) =~= names.subrange(lo as int, i as int).push(
                names[i as int],
            ));
            names.subrange(lo as int, i as int).lemma_push_to_set_commute(names[i as int]);
        }
        i = i + 1;
    }
    proof {
        lemma_team_of_canonical(team@);
    }
    team
}

/// Splits a population, already in the order wanted, into `n_teams` contiguous teams of
/// `team_size` players each, plus one remainder team of the players left over, if any.
pub fn generate_round(n_players: usize, n_teams: usize, team_size: usize, ids: &[String]) -> (r: Round)
    requires
        n_players == ids@.len(),
        n_teams * team_size <= n_players,
    ensures
        r.wf(),
        r@ == partition_of(names_of(ids@), n_teams as int, team_size as int),
{
    let ghost names = names_of(ids@);
    let ghost all = chunks(names, n_teams as int, team_size as int);
    let mut round = Round::new();
    proof {
        lemma_canonical_of_sorted(round@);
        assert(all.subrange(0, 0) =~= round@);
    }
    let mut t: usize = 0;
    while t < n_teams
        invariant
            t <= n_teams,
            n_players == ids@.len(),
            n_teams * team_size <= n_players,
            names == names_of(ids@),
            all == chunks(names, n_teams as int, team_size as int),
            round.wf(),
            round@ == canonical(all.subrange(0, t as int)),
        decreases n_teams - t,
    {
        assert((t + 1) * team_size <= n_teams * team_size) by (nonlinear_arith)
            requires
                t + 1 <= n_teams,
        ;
        assert((t + 1) * team_size == t * team_size + team_size) by (nonlinear_arith);
        let start: usize = t * team_size;
        let team = team_of_range(ids, start, start + team_size);
        round.add_team(team);
        proof {
            assert(all[t as int] == team@);
            assert(all.subrange(0, t + 1) =~= all.subrange(0, t as int).push(all[t as int]));
            lemma_canonical_push(all.subrange(0, t as int), all[t as int]);
        }
        t = t + 1;
    }
    let full: usize = n_teams * team_size;
    if full < n_players {
        let team = team_of_range(ids, full, n_players);
        round.add_team(team);
        proof {
            assert(all[n_teams as int] == team@);
            assert(all =~= all.subrange(0, n_teams as int).push(all[n_teams as int]));
            lemma_canonical_push(all.subrange(0, n_teams as int), all[n_teams as int]);
        }
    } else {
        assert(all =~= all.subrange(0, n_teams as int));
    }
    round
}

} // verus!
