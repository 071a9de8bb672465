//! Rounds: teams held in the canonical order, and the similarity of two rounds.
use vstd::prelude::*;
use vstd::relations::*;
use vstd::seq_lib::*;

use crate::order::{lemma_team_le_connected, lemma_team_le_transitive, lemma_team_order_total, team_le, team_order};
use crate::team::{
    is_team_form, joined, lemma_rounded_div_bound, lemma_team_similarity_same_members,
    lemma_team_similarity_symmetric, rounded_div, team_sim, Team, SIMILARITY_SCALE,
};

verus! {

/// The sum of the similarities of the first `n` position-aligned pairs of teams.
pub open spec fn sim_sum(a: Seq<Seq<Seq<char>>>, b: Seq<Seq<Seq<char>>>, n: int) -> int
    decreases n,
{
    if n <= 0 {
        0
    } else {
        sim_sum(a, b, n - 1) + team_sim(a[n - 1], b[n - 1])
    }
}

/// The similarity of two rounds, each given as its teams in canonical order:
/// 0 when they hold different numbers of teams, otherwise the mean similarity
/// of position-aligned teams, rounded to the nearest unit. Two rounds without
/// teams have similarity 1.0.
pub open spec fn round_sim(a: Seq<Seq<Seq<char>>>, b: Seq<Seq<Seq<char>>>) -> int {
    if a.len() != b.len() {
        0
    } else if a.len() == 0 {
        SIMILARITY_SCALE as int
    } else {
        rounded_div(sim_sum(a, b, a.len() as int), a.len() as int)
    }
}

/// The canonical arrangement of a collection of teams.
pub open spec fn canonical(ts: Seq<Seq<Seq<char>>>) -> Seq<Seq<Seq<char>>> {
    ts.sort_by(team_order())
}

/// A collection of teams, kept in the canonical order of teams.
#[derive(Clone, Debug, PartialEq, Eq)]
pub struct Round {
    teams: Vec<Team>,
}

impl View for Round {
    type V = Seq<Seq<Seq<char>>>;

    closed spec fn view(&self) -> Seq<Seq<Seq<char>>> {
        self.teams@.map_values(|t: Team| t@)
    }
}

/// Facts about the arrangement that a round keeps.
pub open spec fn is_round_form(r: Seq<Seq<Seq<char>>>) -> bool {
    &&& sorted_by(r, team_order())
    &&& forall|i: int| 0 <= i < r.len() ==> is_team_form(#[trigger] r[i])
}

/// A round in canonical form is the canonical arrangement of its own teams.
pub proof fn lemma_canonical_of_sorted(r: Seq<Seq<Seq<char>>>)
    requires
        sorted_by(r, team_order()),
    ensures
        canonical(r) == r,
{
    lemma_team_order_total();
    r.lemma_sort_by_ensures(team_order());
    lemma_sorted_unique(r, canonical(r), team_order());
}

/// Rounds built from the same teams, given in any order, are the same.
pub proof fn lemma_canonical_order_independent(ts1: Seq<Seq<Seq<char>>>, ts2: Seq<Seq<Seq<char>>>)
    requires
        ts1.to_multiset() == ts2.to_multiset(),
    ensures
        canonical(ts1) == canonical(ts2),
{
    lemma_team_order_total();
    ts1.lemma_sort_by_ensures(team_order());
    ts2.lemma_sort_by_ensures(team_order());
    lemma_sorted_unique(canonical(ts1), canonical(ts2), team_order());
}

/// Arranging a canonical arrangement with one more team is arranging all of them.
pub proof fn lemma_canonical_push(prefix: Seq<Seq<Seq<char>>>, x: Seq<Seq<char>>)
    ensures
        canonical(canonical(prefix).push(x)) == canonical(prefix.push(x)),
{
    lemma_team_order_total();
    prefix.lemma_sort_by_ensures(team_order());
    assert(canonical(prefix).push(x).to_multiset() == prefix.push(x).to_multiset()) by {
        broadcast use to_multiset_build;

    }
    lemma_canonical_order_independent(canonical(prefix).push(x), prefix.push(x));
}

proof fn lemma_sim_sum_symmetric(a: Seq<Seq<Seq<char>>>, b: Seq<Seq<Seq<char>>>, n: int)
    ensures
        sim_sum(a, b, n) == sim_sum(b, a, n),
    decreases n,
{
    if n > 0 {
        lemma_sim_sum_symmetric(a, b, n - 1);
        lemma_team_similarity_symmetric(a[n - 1], b[n - 1]);
    }
}

/// Round similarity is symmetric.
pub proof fn lemma_round_similarity_symmetric(a: Seq<Seq<Seq<char>>>, b: Seq<Seq<Seq<char>>>)
    ensures
        round_sim(a, b) == round_sim(b, a),
{
    lemma_sim_sum_symmetric(a, b, a.len() as int);
}

/// Round similarity does not depend on the order in which the teams of either
/// round were given: rounds arranged from the same teams score alike against any round.
pub proof fn lemma_round_similarity_order_independent(
    ts1: Seq<Seq<Seq<char>>>,
    ts2: Seq<Seq<Seq<char>>>,
    other: Seq<Seq<Seq<char>>>,
)
    requires
        ts1.to_multiset() == ts2.to_multiset(),
    ensures
        round_sim(canonical(ts1), other) == round_sim(canonical(ts2), other),
        round_sim(other, canonical(ts1)) == round_sim(other, canonical(ts2)),
{
    lemma_canonical_order_independent(ts1, ts2);
}

/// Rounds that hold different numbers of teams have similarity 0.
pub proof fn lemma_round_similarity_counts_differ(a: Seq<Seq<Seq<char>>>, b: Seq<Seq<Seq<char>>>)
    requires
        a.len() != b.len(),
    ensures
        round_sim(a, b) == 0,
{
}

/// A round has similarity 1.0 with itself.
pub proof fn lemma_round_similarity_self(a: Seq<Seq<Seq<char>>>)
    requires
        is_round_form(a),
    ensures
        round_sim(a, a) == SIMILARITY_SCALE,
{
    let n = a.len() as int;
    assert forall|k: int| 0 <= k <= n implies sim_sum(a, a, k) == k * SIMILARITY_SCALE by {
        lemma_sim_sum_self(a, k);
    }
    if n > 0 {
        lemma_rounded_div_bound(n, n);
        assert(SIMILARITY_SCALE * n == n * SIMILARITY_SCALE) by (nonlinear_arith);
    }
}

proof fn lemma_sim_sum_self(a: Seq<Seq<Seq<char>>>, k: int)
    requires
        is_round_form(a),
        0 <= k <= a.len(),
    ensures
        sim_sum(a, a, k) == k * SIMILARITY_SCALE,
    decreases k,
{
    if k > 0 {
        lemma_sim_sum_self(a, k - 1);
        lemma_team_similarity_same_members(a[k - 1], a[k - 1]);
        assert((k - 1) * SIMILARITY_SCALE + SIMILARITY_SCALE == k * SIMILARITY_SCALE) by (nonlinear_arith);
    }
}

impl Round {
    /// The round keeps its teams in canonical order, each in canonical form.
    pub open spec fn wf(&self) -> bool {
        is_round_form(self@)
    }

    /// The round with no teams.
    pub fn new() -> (r: Round)
        ensures
            r.wf(),
            r@ == Seq::<Seq<Seq<char>>>::empty(),
    {
        let r = Round { teams: Vec::new() };
        assert(r@ =~= Seq::<Seq<Seq<char>>>::empty());
        r
    }

    /// The round of the given teams, arranged in canonical order.
    pub fn from(ls: &[Team]) -> (r: Round)
        requires
            forall|i: int| 0 <= i < ls@.len() ==> (#[trigger] ls@[i]).wf(),
        ensures
            r.wf(),
            r@ == canonical(ls@.map_values(|t: Team| t@)),
    {
        let ghost ts = ls@.map_values(|t: Team| t@);
        let mut round = Round::new();
        let mut i: usize = 0;
        proof {
            lemma_canonical_of_sorted(round@);
            assert(ts.subrange(0, 0) =~= round@);
        }
        while i < ls.len()
            invariant
                i <= ls@.len(),
                ts == ls@.map_values(|t: Team| t@),
                forall|k: int| 0 <= k < ls@.len() ==> (#[trigger] ls@[k]).wf(),
                round.wf(),
                round@ == canonical(ts.subrange(0, i as int)),
            decreases ls@.len() - i,
        {
            round.add_team(ls[i].copy());
            proof {
                assert(ts.subrange(0, i + 1) =~= ts.subrange(0, i as int).push(ts[i as int]));
                lemma_canonical_push(ts.subrange(0, i as int), ts[i as int]);
            }
            i = i + 1;
        }
        proof {
            assert(ts.subrange(0, i as int) =~= ts);
        }
        round
    }

    /// Adds a team, keeping the canonical order.
    pub fn add_team(&mut self, t: Team)
        requires
            old(self).wf(),
            t.wf(),
        ensures
            final(self).wf(),
            final(self)@ == canonical(old(self)@.push(t@)),
    {
        let ghost s = self@;
        let ghost x = t@;
        assert forall|k: int| 0 <= k < s.len() implies #[trigger] s[k] == self.teams@[k]@ by {}
        let mut i: usize = self.teams.len();
        while i > 0
            invariant
                s == self@,
                x == t@,
                forall|k: int| 0 <= k < s.len() ==> #[trigger] s[k] == self.teams@[k]@,
                is_round_form(s),
                i <= s.len(),
                s.len() == self.teams@.len(),
                forall|k: int| i <= k < s.len() ==> !team_le(s[k], x),
            ensures
                i <= s.len(),
                forall|k: int| i <= k < s.len() ==> !team_le(s[k], x),
                i == 0 || team_le(s[i - 1], x),
            decreases i,
        {
            if self.teams[i - 1].precedes(&t) {
                break;
            }
            i = i - 1;
        }
        proof {
            if i > 0 {
                assert(team_le(s[i - 1], x));
            }
            assert forall|k: int| 0 <= k < i implies team_le(s[k], x) by {
                if k < i - 1 {
                    assert(team_order()(s[k], s[i - 1]));
                    lemma_team_le_transitive(s[k], s[i - 1], x);
                }
            }
            assert forall|k: int| i <= k < s.len() implies team_le(x, s[k]) by {
                lemma_team_le_connected(x, s[k]);
            }
        }
        self.teams.insert(i, t);
        let ghost u = self@;
        assert(u =~= s.insert(i as int, x));
        proof {
            assert forall|a: int, b: int| 0 <= a < b < u.len() implies #[trigger] team_order()(
                u[a],
                u[b],
            ) by {
                if b < i {
                } else if a < i && b == i {
                } else if a < i {
                    lemma_team_le_transitive(s[a], x, s[b - 1]);
                } else if a == i {
                } else {
                    assert(team_order()(s[a - 1], s[b - 1]));
                }
            }
            assert forall|k: int| 0 <= k < u.len() implies is_team_form(#[trigger] u[k]) by {
                if k > i {
                    assert(u[k] == s[k - 1]);
                }
            }
            lemma_canonical_of_sorted(u);
            assert(u.to_multiset() == s.push(x).to_multiset()) by {
                broadcast use to_multiset_build, to_multiset_insert;

            }
            lemma_canonical_order_independent(u, s.push(x));
        }
    }

    /// The number of teams.
    pub fn len(&self) -> (r: usize)
        ensures
            r == self@.len(),
    {
        self.teams.len()
    }

    /// The teams, in canonical order.
    pub fn teams(&self) -> (r: &Vec<Team>)
        ensures
            r@.map_values(|t: Team| t@) == self@,
    {
        &self.teams
    }

    /// The round as text: each team as `Team::to_text` gives it, one per line.
    pub fn to_text(&self) -> (r: String)
        ensures
            r@ == joined(self@.map_values(|t: Seq<Seq<char>>| joined(t, seq![','])), seq!['\n']),
    {
        let ghost parts = self@.map_values(|t: Seq<Seq<char>>| joined(t, seq![',']));
        let mut text = String::new();
        let mut i: usize = 0;
        proof {
            reveal_strlit("\n");
            assert(parts.subrange(0, 0) =~= Seq::<Seq<char>>::empty());
        }
        while i < self.teams.len()
            invariant
                i <= self@.len(),
                self@.len() == self.teams@.len(),
                parts == self@.map_values(|t: Seq<Seq<char>>| joined(t, seq![','])),
                "\n"@ == seq!['\n'],
                text@ == joined(parts.subrange(0, i as int), seq!['\n']),
            decreases self.teams@.len() - i,
        {
            if i > 0 {
                text.append("\n");
            }
            let line = self.teams[i].to_text();
            text.append(line.as_str());
            proof {
                let p = parts.subrange(0, i + 1);
                assert(p.drop_last() =~= parts.subrange(0, i as int));
                assert(p.last() == parts[i as int]);
                assert(parts[i as int] == joined(self.teams@[i as int]@, seq![',']));
                if i == 0 {
                    assert(text@ =~= p[0]);
                } else {
                    assert(text@ =~= joined(p.drop_last(), seq!['\n']) + seq!['\n'] + p.last());
                }
            }
            i = i + 1;
        }
        proof {
            assert(parts.subrange(0, i as int) =~= parts);
        }
        text
    }

    /// A copy of the round.
    pub(crate) fn copy(&self) -> (r: Round)
        ensures
            r@ == self@,
    {
        let mut teams: Vec<Team> = Vec::new();
        let mut i: usize = 0;
        while i < self.teams.len()
            invariant
                i <= self.teams@.len(),
                teams@.len() == i,
                forall|k: int| 0 <= k < i ==> #[trigger] teams@[k]@ == self.teams@[k]@,
            decreases self.teams@.len() - i,
        {
            teams.push(self.teams[i].copy());
            i = i + 1;
        }
        let r = Round { teams };
        assert(r@ =~= self@);
        r
    }

    /// The similarity of two rounds: 0 when they hold different numbers of teams,
    /// otherwise the mean similarity of position-aligned teams, where
    /// `SIMILARITY_SCALE` stands for 1.0.
    pub fn similarity(&self, other: &Self) -> (r: u64)
        requires
            self.wf(),
            other.wf(),
        ensures
            r == round_sim(self@, other@),
            r <= SIMILARITY_SCALE,
            self@.len() != other@.len() ==> r == 0,
    {
        let n = self.teams.len();
        if n != other.teams.len() {
            return 0;
        }
        if n == 0 {
            return SIMILARITY_SCALE;
        }
        let mut sum: u128 = 0;
        let mut i: usize = 0;
        while i < n
            invariant
                n == self@.len(),
                n == other@.len(),
                self.wf(),
                other.wf(),
                i <= n,
                sum == sim_sum(self@, other@, i as int),
                sum <= i * SIMILARITY_SCALE,
            decreases n - i,
        {
            assert(self@[i as int] == self.teams@[i as int]@);
            assert(other@[i as int] == other.teams@[i as int]@);
            let s = self.teams[i].similarity(&other.teams[i]);
            sum = sum + s as u128;
            i = i + 1;
        }
        proof {
            assert(sum <= n * SIMILARITY_SCALE);
            assert(2 * sum + n <= (2 * SIMILARITY_SCALE + 1) * n) by (nonlinear_arith)
                requires
                    sum <= n * SIMILARITY_SCALE,
            ;
            assert((2 * sum + n) / (2 * n as int) <= SIMILARITY_SCALE) by (nonlinear_arith)
                requires
                    2 * sum + n <= (2 * SIMILARITY_SCALE + 1) * n,
                    n > 0,
            ;
        }
        ((2 * sum + n as u128) / (2 * n as u128)) as u64
    }
}

} // verus!
