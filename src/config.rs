//! The run's settings, checked and completed from what the user gave.
use vstd::prelude::*;

use crate::partition::names_of;
use crate::team::same_name;

verus! {

/// Why a set of settings cannot be used.
#[derive(Clone, Copy, Debug, PartialEq, Eq, Structural)]
pub enum ConfigError {
    /// The team size is zero, the team count is zero, or the team size exceeds
    /// the population (so that no full team can be made).
    InvalidConfiguration,
    /// The population has no participants.
    EmptyPopulation,
    /// A participant's name occurs more than once.
    DuplicateParticipant,
}

/// The error that settings give, if any: an empty population first, then repeated
/// names, then a team count or size that cannot be used. Exactly one of `n_teams`
/// and `team_size` must be given; the other is derived from it by integer division.
pub open spec fn config_error(
    names: Seq<Seq<char>>,
    n_teams: Option<usize>,
    team_size: Option<usize>,
) -> Option<ConfigError> {
    let n = names.len();
    if n == 0 {
        Some(ConfigError::EmptyPopulation)
    } else if !names.no_duplicates() {
        Some(ConfigError::DuplicateParticipant)
    } else {
        match (n_teams, team_size) {
            (Some(t), None) => if t == 0 || n / (t as nat) == 0 {
                Some(ConfigError::InvalidConfiguration)
            } else {
                None
            },
            (None, Some(s)) => if s == 0 || n / (s as nat) == 0 {
                Some(ConfigError::InvalidConfiguration)
            } else {
                None
            },
            _ => Some(ConfigError::InvalidConfiguration),
        }
    }
}

/// The settings of a run.
#[derive(Clone, Debug)]
pub struct TmerArgs {
    /// How many rounds to make.
    pub n_rounds: usize,
    /// How many participants there are.
    pub n_players: usize,
    /// How many full teams each round has.
    pub n_teams: usize,
    /// How many players each full team has.
    pub team_size: usize,
    /// The participants' names.
    pub elements: Vec<String>,
}

impl TmerArgs {
    /// The settings are usable: a non-empty population of distinct names, and
    /// full teams that fit into it.
    pub open spec fn wf(&self) -> bool {
        &&& self.n_players == self.elements@.len()
        &&& self.n_players > 0
        &&& names_of(self.elements@).no_duplicates()
        &&& self.n_teams >= 1
        &&& self.team_size >= 1
        &&& self.n_teams * self.team_size <= self.n_players
    }

    /// Checks and completes the settings. `n_rounds` defaults to one round; exactly one
    /// of `n_teams` and `team_size` must be given, and the other is derived from it.
    pub fn new(
        n_rounds: Option<usize>,
        elements: Vec<String>,
        n_teams: Option<usize>,
        team_size: Option<usize>,
    ) -> (r: Result<TmerArgs, ConfigError>)
        ensures
            r is Err <==> config_error(names_of(elements@), n_teams, team_size) is Some,
            r is Err ==> r->Err_0 == config_error(names_of(elements@), n_teams, team_size)->Some_0,
            r is Ok ==> {
                let a = r->Ok_0;
                &&& a.wf()
                &&& a.elements@ == elements@
                &&& a.n_rounds == (match n_rounds {
                    Some(k) => k,
                    None => 1,
                })
                &&& (n_teams matches Some(t) ==> a.n_teams == t && a.team_size == elements@.len()
                    / (t as nat))
                &&& (team_size matches Some(s) ==> a.team_size == s && a.n_teams == elements@.len()
                    / (s as nat))
            },
    {
        let n = elements.len();
        if n == 0 {
            return Err(ConfigError::EmptyPopulation);
        }
        if has_duplicates(&elements) {
            return Err(ConfigError::DuplicateParticipant);
        }
        let (teams, size) = match (n_teams, team_size) {
            (Some(t), None) => {
                if t == 0 || n / t == 0 {
                    return Err(ConfigError::InvalidConfiguration);
                }
                (t, n / t)
            },
            (None, Some(s)) => {
                if s == 0 || n / s == 0 {
                    return Err(ConfigError::InvalidConfiguration);
                }
                (n / s, s)
            },
            _ => {
                return Err(ConfigError::InvalidConfiguration);
            },
        };
        assert(teams * size <= n) by (nonlinear_arith)
            requires
                (teams == n / size && size > 0) || (size == n / teams && teams > 0),
        ;
        let rounds = match n_rounds {
            Some(k) => k,
            None => 1,
        };
        Ok(TmerArgs { n_rounds: rounds, n_players: n, n_teams: teams, team_size: size, elements })
    }
}

/// Whether some name occurs twice among `ids`.
fn has_duplicates(ids: &Vec<String>) -> (r: bool)
    ensures
        r == !names_of(ids@).no_duplicates(),
{
    let ghost names = names_of(ids@);
    let mut i: usize = 0;
    while i < ids.len()
        invariant
            names == names_of(ids@),
            i <= ids@.len(),
            forall|a: int, b: int| 0 <= a < b < ids@.len() && a < i ==> names[a] != names[b],
        decreases ids@.len() - i,
    {
        let mut j: usize = i + 1;
        while j < ids.len()
            invariant
                names == names_of(ids@),
                i < j <= ids@.len(),
                forall|a: int, b: int| 0 <= a < b < ids@.len() && a < i ==> names[a] != names[b],
                forall|b: int| i < b < j ==> names[i as int] != names[b],
            decreases ids@.len() - j,
        {
            if same_name(ids[i].as_str(), ids[j].as_str()) {
                assert(names[i as int] == names[j as int]);
                return true;
            }
            j = j + 1;
        }
        i = i + 1;
    }
    false
}

} // verus!
