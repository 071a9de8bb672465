//! Players and teams, and the similarity of two teams.
use vstd::prelude::*;
use vstd::relations::*;
use vstd::seq_lib::*;

use crate::order::{
    lemma_name_le_antisymmetric, lemma_name_le_connected, lemma_name_le_transitive,
    lemma_name_order_total, lex_le, name_le, names_in_order, name_order, team_le,
};

verus! {

/// One whole in similarity scores: a score is a fraction in units of one ten-millionth,
/// so `SIMILARITY_SCALE` stands for 1.0 and 0 for 0.0.
pub const SIMILARITY_SCALE: u64 = 10_000_000;

/// `n / d` rounded to the nearest integer, halves rounded up.
pub open spec fn rounded_div(n: int, d: int) -> int {
    (2 * n + d) / (2 * d)
}

/// The number of names that two teams share.
pub open spec fn shared_count(a: Seq<Seq<char>>, b: Seq<Seq<char>>) -> nat {
    a.to_set().intersect(b.to_set()).len()
}

/// The similarity of two teams: 0 when their sizes differ, otherwise the
/// fraction of shared members, as a score where `SIMILARITY_SCALE` is 1.0.
/// Two empty teams have identical membership and score 1.0.
pub open spec fn team_sim(a: Seq<Seq<char>>, b: Seq<Seq<char>>) -> int {
    if a.len() != b.len() {
        0
    } else if a.len() == 0 {
        SIMILARITY_SCALE as int
    } else {
        rounded_div(SIMILARITY_SCALE * shared_count(a, b), a.len() as int)
    }
}

/// A sequence of names in the form a team keeps them: ascending and without repeats.
pub open spec fn is_team_form(t: Seq<Seq<char>>) -> bool {
    sorted_by(t, name_order()) && t.no_duplicates()
}

/// The team holding exactly the names of `s`, in canonical form.
pub open spec fn team_of(s: Set<Seq<char>>) -> Seq<Seq<char>> {
    choose|t: Seq<Seq<char>>| is_team_form(t) && t.to_set() == s
}

/// A team in canonical form is the one `team_of` gives for its set of names.
pub proof fn lemma_team_of_canonical(t: Seq<Seq<char>>)
    requires
        is_team_form(t),
    ensures
        team_of(t.to_set()) == t,
{
    let u = team_of(t.to_set());
    assert(is_team_form(u) && u.to_set() == t.to_set());
    lemma_same_set_same_multiset(t, u);
    lemma_name_order_total();
    lemma_sorted_unique(t, u, name_order());
}

/// The team of the names of a sequence without repeats has as many players as
/// the sequence has names.
pub proof fn lemma_team_of_seq(s: Seq<Seq<char>>)
    requires
        s.no_duplicates(),
    ensures
        is_team_form(team_of(s.to_set())),
        team_of(s.to_set()).to_set() == s.to_set(),
        team_of(s.to_set()).len() == s.len(),
{
    broadcast use group_to_multiset_ensures;

    lemma_name_order_total();
    let w = s.sort_by(name_order());
    s.lemma_sort_by_ensures(name_order());
    s.lemma_multiset_has_no_duplicates();
    w.lemma_multiset_has_no_duplicates_conv();
    assert forall|x: Seq<char>| w.to_set().contains(x) <==> s.to_set().contains(x) by {
        assert(w.contains(x) <==> w.to_multiset().count(x) > 0);
        assert(s.contains(x) <==> s.to_multiset().count(x) > 0);
    }
    assert(w.to_set() =~= s.to_set());
    assert(is_team_form(w) && w.to_set() == s.to_set());
    let t = team_of(s.to_set());
    t.unique_seq_to_set();
    s.unique_seq_to_set();
}

/// Two teams in canonical form are equal exactly when they have the same members.
pub proof fn lemma_team_equal_iff_same_members(a: Seq<Seq<char>>, b: Seq<Seq<char>>)
    requires
        is_team_form(a),
        is_team_form(b),
    ensures
        a == b <==> a.to_set() == b.to_set(),
{
    if a.to_set() == b.to_set() {
        lemma_team_of_canonical(a);
        lemma_team_of_canonical(b);
    }
}

/// Two sequences without repeats that hold the same elements hold them equally often.
pub proof fn lemma_same_set_same_multiset<A>(s: Seq<A>, t: Seq<A>)
    requires
        s.no_duplicates(),
        t.no_duplicates(),
        s.to_set() == t.to_set(),
    ensures
        s.to_multiset() == t.to_multiset(),
{
    broadcast use group_to_multiset_ensures;

    s.lemma_multiset_has_no_duplicates();
    t.lemma_multiset_has_no_duplicates();
    assert forall|x: A| s.to_multiset().count(x) == t.to_multiset().count(x) by {
        assert(s.contains(x) <==> s.to_set().contains(x));
        assert(t.contains(x) <==> t.to_set().contains(x));
        if s.contains(x) {
            assert(s.to_multiset().count(x) == 1);
            assert(t.to_multiset().count(x) == 1);
        }
    }
    assert(s.to_multiset() =~= t.to_multiset());
}

/// The parts, with `sep` between each two of them.
pub open spec fn joined(parts: Seq<Seq<char>>, sep: Seq<char>) -> Seq<char>
    decreases parts.len(),
{
    if parts.len() == 0 {
        Seq::empty()
    } else if parts.len() == 1 {
        parts[0]
    } else {
        joined(parts.drop_last(), sep) + sep + parts.last()
    }
}

/// A participant, known by a name.
#[derive(Clone, Debug, PartialEq, Eq, Hash)]
pub struct Player {
    name: String,
}

impl View for Player {
    type V = Seq<char>;

    closed spec fn view(&self) -> Seq<char> {
        self.name@
    }
}

impl Player {
    /// The player with the given name.
    pub fn from(name: &str) -> (r: Player)
        ensures
            r@ == name@,
    {
        Player { name: name.to_owned() }
    }

    /// The player's name.
    pub fn name(&self) -> (r: &str)
        ensures
            r@ == self@,
    {
        self.name.as_str()
    }

    pub(crate) fn copy(&self) -> (r: Player)
        ensures
            r@ == self@,
    {
        Player { name: self.name.clone() }
    }
}

/// A set of players, kept in ascending order of name.
#[derive(Clone, Debug, PartialEq, Eq)]
pub struct Team {
    players: Vec<Player>,
}

impl View for Team {
    type V = Seq<Seq<char>>;

    closed spec fn view(&self) -> Seq<Seq<char>> {
        self.players@.map_values(|p: Player| p@)
    }
}

impl Team {
    /// The team keeps its names ascending and without repeats.
    pub open spec fn wf(&self) -> bool {
        is_team_form(self@)
    }

    /// The team with no players.
    pub fn new() -> (r: Team)
        ensures
            r.wf(),
            r@ == Seq::<Seq<char>>::empty(),
    {
        let r = Team { players: Vec::new() };
        assert(r@ =~= Seq::<Seq<char>>::empty());
        r
    }

    /// The team of the given names; a name given twice is held once.
    pub fn from(ls: &[&str]) -> (r: Team)
        ensures
            r.wf(),
            r@.to_set() == ls@.map_values(|s: &str| s@).to_set(),
            r@ == team_of(ls@.map_values(|s: &str| s@).to_set()),
    {
        let ghost names = ls@.map_values(|s: &str| s@);
        let mut team = Team::new();
        let mut i: usize = 0;
        while i < ls.len()
            invariant
                i <= ls@.len(),
                names == ls@.map_values(|s: &str| s@),
                team.wf(),
                team@.to_set() == names.subrange(0, i as int).to_set(),
            decreases ls@.len() - i,
        {
            team.add_player(ls[i]);
            proof {
                assert(names.subrange(0, i + 1) =~= names.subrange(0, i as int).push(names[i as int]));
                names.subrange(0, i as int).lemma_push_to_set_commute(names[i as int]);
            }
            i = i + 1;
        }
        proof {
            assert(names.subrange(0, i as int) =~= names);
            lemma_team_of_canonical(team@);
        }
        team
    }

    /// The number of players.
    pub fn len(&self) -> (r: usize)
        ensures
            r == self@.len(),
    {
        self.players.len()
    }

    /// The players, in ascending order of name.
    pub fn players(&self) -> (r: &Vec<Player>)
        ensures
            r@.map_values(|p: Player| p@) == self@,
    {
        &self.players
    }

    /// Whether a player of the given name is in the team.
    pub fn has_player(&self, name: &str) -> (r: bool)
        ensures
            r == self@.contains(name@),
    {
        let mut i: usize = 0;
        while i < self.players.len()
            invariant
                i <= self@.len(),
                self@.len() == self.players@.len(),
                forall|k: int| 0 <= k < i ==> self@[k] != name@,
            decreases self.players@.len() - i,
        {
            if same_name(self.players[i].name.as_str(), name) {
                assert(self@[i as int] == name@);
                return true;
            }
            i = i + 1;
        }
        false
    }

    /// Adds a player of the given name; the team is unchanged if it holds the name already.
    pub fn add_player(&mut self, m: &str)
        requires
            old(self).wf(),
        ensures
            final(self).wf(),
            final(self)@.to_set() == old(self)@.to_set().insert(m@),
            final(self)@ == team_of(old(self)@.to_set().insert(m@)),
    {
        proof {
            lemma_name_order_total();
        }
        let ghost s = self@;
        assert forall|k: int| 0 <= k < s.len() implies #[trigger] s[k] == self.players@[k].name@ by {}
        let mut i: usize = self.players.len();
        while i > 0
            invariant
                s == self@,
                forall|k: int| 0 <= k < s.len() ==> #[trigger] s[k] == self.players@[k].name@,
                is_team_form(s),
                i <= s.len(),
                s.len() == self.players@.len(),
                forall|k: int| i <= k < s.len() ==> !name_order()(s[k], m@),
            ensures
                i <= s.len(),
                forall|k: int| i <= k < s.len() ==> !name_order()(s[k], m@),
                i == 0 || name_order()(s[i - 1], m@),
            decreases i,
        {
            if names_in_order(self.players[i - 1].name.as_str(), m) {
                break;
            }
            i = i - 1;
        }
        if i > 0 && names_in_order(m, self.players[i - 1].name.as_str()) {
            proof {
                assert(s[i - 1] == self.players@[i - 1].name@);
                lemma_name_le_antisymmetric(s[i - 1], m@);
                assert(s.to_set().insert(m@) =~= s.to_set());
                lemma_team_of_canonical(s);
            }
            return;
        }
        proof {
            lemma_name_le_connected(m@, m@);
            if i > 0 {
                assert(s[i - 1] == self.players@[i - 1].name@);
                assert(!name_le(m@, s[i - 1]));
            }
            assert forall|k: int| 0 <= k < i implies name_le(s[k], m@) && s[k] != m@ by {
                if k < i - 1 {
                    assert(name_order()(s[k], s[i - 1]));
                    lemma_name_le_transitive(s[k], s[i - 1], m@);
                    if s[k] == m@ {
                        assert(name_le(m@, s[i - 1]));
                    }
                }
            }
            assert forall|k: int| i <= k < s.len() implies name_le(m@, s[k]) && s[k] != m@ by {
                assert(!name_order()(s[k], m@));
                lemma_name_le_connected(m@, s[k]);
            }
        }
        self.players.insert(i, Player::from(m));
        let ghost t = self@;
        assert(t =~= s.insert(i as int, m@));
        proof {
            assert forall|a: int, b: int| 0 <= a < b < t.len() implies #[trigger] name_order()(t[a], t[b]) by {
                if b < i {
                } else if a < i && b == i {
                } else if a < i {
                    lemma_name_le_transitive(s[a], m@, s[b - 1]);
                } else if a == i {
                } else {
                    assert(name_order()(s[a - 1], s[b - 1]));
                }
            }
            assert forall|a: int, b: int| 0 <= a < t.len() && 0 <= b < t.len() && a != b implies t[a]
                != t[b] by {
                if a < i && b < i {
                } else if a > i && b > i {
                } else if a == i {
                    assert(t[b] == if b < i { s[b] } else { s[b - 1] });
                } else if b == i {
                    assert(t[a] == if a < i { s[a] } else { s[a - 1] });
                } else if a < i {
                    assert(t[a] == s[a] && t[b] == s[b - 1]);
                } else {
                    assert(t[a] == s[a - 1] && t[b] == s[b]);
                }
            }
            assert(t.to_set() =~= s.to_set().insert(m@)) by {
                assert forall|x: Seq<char>| t.to_set().contains(x) <==> s.to_set().insert(
                    m@,
                ).contains(x) by {
                    if t.contains(x) {
                        let k = choose|k: int| 0 <= k < t.len() && t[k] == x;
                        if k < i {
                            assert(s[k] == x);
                        } else if k > i {
                            assert(s[k - 1] == x);
                        }
                    }
                    if s.contains(x) {
                        let k = choose|k: int| 0 <= k < s.len() && s[k] == x;
                        if k < i {
                            assert(t[k] == x);
                        } else {
                            assert(t[k + 1] == x);
                        }
                    }
                    if x == m@ {
                        assert(t[i as int] == x);
                    }
                }
            }
            lemma_team_of_canonical(t);
        }
    }

    /// The team as text: the names in ascending order, separated by commas.
    pub fn to_text(&self) -> (r: String)
        ensures
            r@ == joined(self@, seq![',']),
    {
        let mut text = String::new();
        let mut i: usize = 0;
        proof {
            reveal_strlit(",");
            assert(self@.subrange(0, 0) =~= Seq::<Seq<char>>::empty());
        }
        while i < self.players.len()
            invariant
                i <= self@.len(),
                self@.len() == self.players@.len(),
                ","@ == seq![','],
                text@ == joined(self@.subrange(0, i as int), seq![',']),
            decreases self.players@.len() - i,
        {
            if i > 0 {
                text.append(",");
            }
            text.append(self.players[i].name.as_str());
            proof {
                let p = self@.subrange(0, i + 1);
                assert(p.drop_last() =~= self@.subrange(0, i as int));
                assert(p.last() == self@[i as int]);
                if i == 0 {
                    assert(text@ =~= p[0]);
                } else {
                    assert(text@ =~= joined(p.drop_last(), seq![',']) + seq![','] + p.last());
                }
            }
            i = i + 1;
        }
        proof {
            assert(self@.subrange(0, i as int) =~= self@);
        }
        text
    }

    /// A copy of the team.
    pub(crate) fn copy(&self) -> (r: Team)
        ensures
            r@ == self@,
    {
        let mut players: Vec<Player> = Vec::new();
        let mut i: usize = 0;
        while i < self.players.len()
            invariant
                i <= self.players@.len(),
                players@.len() == i,
                forall|k: int| 0 <= k < i ==> #[trigger] players@[k]@ == self.players@[k]@,
            decreases self.players@.len() - i,
        {
            players.push(self.players[i].copy());
            i = i + 1;
        }
        let r = Team { players };
        assert(r@ =~= self@);
        r
    }

    /// Whether this team comes no later than `other` in the canonical order of teams:
    /// larger teams first, then lexicographic by member names.
    pub fn precedes(&self, other: &Team) -> (r: bool)
        ensures
            r == team_le(self@, other@),
    {
        let n = self.players.len();
        if n != other.players.len() {
            return n > other.players.len();
        }
        let ghost a = self@;
        let ghost b = other@;
        let mut i: usize = 0;
        assert(a.skip(0) =~= a);
        assert(b.skip(0) =~= b);
        while i < n
            invariant
                a == self@,
                b == other@,
                n == a.len(),
                n == b.len(),
                i <= n,
                team_le(a, b) == lex_le(a.skip(i as int), b.skip(i as int), name_order()),
            decreases n - i,
        {
            let x = self.players[i].name.as_str();
            let y = other.players[i].name.as_str();
            assert(a.skip(i as int)[0] == x@);
            assert(b.skip(i as int)[0] == y@);
            if !same_name(x, y) {
                return names_in_order(x, y);
            }
            assert(a.skip(i as int).drop_first() =~= a.skip(i + 1));
            assert(b.skip(i as int).drop_first() =~= b.skip(i + 1));
            i = i + 1;
        }
        true
    }

    /// The similarity of two teams: 0 when their sizes differ, otherwise the fraction
    /// of shared members, where `SIMILARITY_SCALE` stands for 1.0.
    pub fn similarity(&self, other: &Self) -> (r: u64)
        requires
            self.wf(),
            other.wf(),
        ensures
            r == team_sim(self@, other@),
            r <= SIMILARITY_SCALE,
            self@.len() != other@.len() ==> r == 0,
    {
        let n = self.players.len();
        if n != other.players.len() {
            return 0;
        }
        if n == 0 {
            return SIMILARITY_SCALE;
        }
        let ghost a = self@;
        let ghost b = other@;
        let mut shared: usize = 0;
        let mut i: usize = 0;
        assert(a.subrange(0, 0).to_set().intersect(b.to_set()) =~= Set::<Seq<char>>::empty());
        while i < n
            invariant
                a == self@,
                b == other@,
                n == a.len(),
                a.no_duplicates(),
                i <= n,
                shared == a.subrange(0, i as int).to_set().intersect(b.to_set()).len(),
                shared <= i,
            decreases n - i,
        {
            let ghost before = a.subrange(0, i as int).to_set();
            proof {
                assert(a.subrange(0, i + 1) =~= a.subrange(0, i as int).push(a[i as int]));
                a.subrange(0, i as int).lemma_push_to_set_commute(a[i as int]);
                assert(!before.contains(a[i as int])) by {
                    if before.contains(a[i as int]) {
                        let k = choose|k: int| 0 <= k < i && a.subrange(0, i as int)[k] == a[i as int];
                        assert(a[k] == a[i as int]);
                    }
                }
                seq_to_set_is_finite(a.subrange(0, i as int));
                vstd::set::axiom_set_intersect_finite(before, b.to_set());
            }
            if other.has_player(self.players[i].name.as_str()) {
                proof {
                    assert(before.insert(a[i as int]).intersect(b.to_set()) =~= before.intersect(
                        b.to_set(),
                    ).insert(a[i as int]));
                }
                shared = shared + 1;
            } else {
                proof {
                    assert(before.insert(a[i as int]).intersect(b.to_set()) =~= before.intersect(
                        b.to_set(),
                    ));
                }
            }
            i = i + 1;
        }
        assert(a.subrange(0, n as int) =~= a);
        let num: u128 = (SIMILARITY_SCALE as u128) * (shared as u128);
        let den: u128 = n as u128;
        proof {
            lemma_rounded_div_bound(shared as int, n as int);
        }
        ((2 * num + den) / (2 * den)) as u64
    }
}

/// A score `rounded_div(SCALE * k, n)` with `k <= n` is at most one whole.
pub proof fn lemma_rounded_div_bound(k: int, n: int)
    requires
        0 <= k <= n,
        0 < n,
    ensures
        0 <= rounded_div(SIMILARITY_SCALE * k, n) <= SIMILARITY_SCALE,
        k == n ==> rounded_div(SIMILARITY_SCALE * k, n) == SIMILARITY_SCALE,
{
    let s = SIMILARITY_SCALE as int;
    assert(2 * (s * k) + n <= (2 * s + 1) * n) by (nonlinear_arith)
        requires
            0 <= k <= n,
            s > 0,
    ;
    assert((2 * (s * k) + n) / (2 * n) <= s) by (nonlinear_arith)
        requires
            2 * (s * k) + n <= (2 * s + 1) * n,
            n > 0,
            s > 0,
    ;
    assert(0 <= (2 * (s * k) + n) / (2 * n)) by (nonlinear_arith)
        requires
            k >= 0,
            n > 0,
            s > 0,
    ;
    if k == n {
        assert((2 * (s * n) + n) / (2 * n) == s) by (nonlinear_arith)
            requires
                n > 0,
        ;
    }
}

/// Team similarity is symmetric.
pub proof fn lemma_team_similarity_symmetric(a: Seq<Seq<char>>, b: Seq<Seq<char>>)
    ensures
        team_sim(a, b) == team_sim(b, a),
{
    assert(a.to_set().intersect(b.to_set()) =~= b.to_set().intersect(a.to_set()));
}

/// Teams with the same members, whatever order they were given in, have similarity 1.0.
pub proof fn lemma_team_similarity_same_members(a: Seq<Seq<char>>, b: Seq<Seq<char>>)
    requires
        a.no_duplicates(),
        b.no_duplicates(),
        a.to_set() == b.to_set(),
    ensures
        team_sim(a, b) == SIMILARITY_SCALE,
{
    a.unique_seq_to_set();
    b.unique_seq_to_set();
    assert(a.to_set().intersect(b.to_set()) =~= a.to_set());
    if a.len() > 0 {
        lemma_rounded_div_bound(a.len() as int, a.len() as int);
    }
}

/// Teams of different sizes have similarity 0.
pub proof fn lemma_team_similarity_sizes_differ(a: Seq<Seq<char>>, b: Seq<Seq<char>>)
    requires
        a.len() != b.len(),
    ensures
        team_sim(a, b) == 0,
{
}

/// Two names are the same.
pub(crate) fn same_name(a: &str, b: &str) -> (r: bool)
    ensures
        r == (a@ == b@),
{
    proof {
        lemma_name_order_total();
    }
    let ab = names_in_order(a, b);
    let ba = names_in_order(b, a);
    assert(a@ == b@ ==> name_order()(a@, b@));
    assert(ab && ba ==> name_order()(a@, b@) && name_order()(b@, a@));
    ab && ba
}

} // verus!
