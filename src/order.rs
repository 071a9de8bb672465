//! Orders used to keep players and teams in a canonical arrangement.
//!
//! Player names are ordered lexicographically by character; teams are
//! ordered by descending size, then lexicographically by their (sorted)
//! member names.
use vstd::prelude::*;
use vstd::relations::*;
use vstd::string::*;

verus! {

/// Lexicographic "less than or equal" on sequences, given an order on elements.
pub open spec fn lex_le<T>(a: Seq<T>, b: Seq<T>, le: spec_fn(T, T) -> bool) -> bool
    decreases a.len(),
{
    if a.len() == 0 {
        true
    } else if b.len() == 0 {
        false
    } else if a[0] == b[0] {
        lex_le(a.drop_first(), b.drop_first(), le)
    } else {
        le(a[0], b[0])
    }
}

/// Characters are ordered by code point.
pub open spec fn char_order() -> spec_fn(char, char) -> bool {
    |x: char, y: char| (x as int) <= (y as int)
}

/// The order on player names.
pub open spec fn name_le(a: Seq<char>, b: Seq<char>) -> bool {
    lex_le(a, b, char_order())
}

pub open spec fn name_order() -> spec_fn(Seq<char>, Seq<char>) -> bool {
    |a: Seq<char>, b: Seq<char>| name_le(a, b)
}

/// The canonical order on teams (each team given as its sorted member names):
/// larger teams first, then lexicographic by member names.
pub open spec fn team_le(a: Seq<Seq<char>>, b: Seq<Seq<char>>) -> bool {
    a.len() > b.len() || (a.len() == b.len() && lex_le(a, b, name_order()))
}

pub open spec fn team_order() -> spec_fn(Seq<Seq<char>>, Seq<Seq<char>>) -> bool {
    |a: Seq<Seq<char>>, b: Seq<Seq<char>>| team_le(a, b)
}

proof fn lemma_lex_reflexive<T>(a: Seq<T>, le: spec_fn(T, T) -> bool)
    ensures
        lex_le(a, a, le),
    decreases a.len(),
{
    if a.len() > 0 {
        lemma_lex_reflexive(a.drop_first(), le);
    }
}

proof fn lemma_lex_antisymmetric<T>(a: Seq<T>, b: Seq<T>, le: spec_fn(T, T) -> bool)
    requires
        total_ordering(le),
        lex_le(a, b, le),
        lex_le(b, a, le),
    ensures
        a == b,
    decreases a.len(),
{
    if a.len() == 0 {
        assert(b.len() == 0);
        assert(a =~= b);
    } else {
        assert(b.len() > 0);
        if a[0] == b[0] {
            lemma_lex_antisymmetric(a.drop_first(), b.drop_first(), le);
            assert(a =~= seq![a[0]] + a.drop_first());
            assert(b =~= seq![b[0]] + b.drop_first());
        } else {
            assert(le(a[0], b[0]) && le(b[0], a[0]));
        }
    }
}

proof fn lemma_lex_transitive<T>(a: Seq<T>, b: Seq<T>, c: Seq<T>, le: spec_fn(T, T) -> bool)
    requires
        total_ordering(le),
        lex_le(a, b, le),
        lex_le(b, c, le),
    ensures
        lex_le(a, c, le),
    decreases a.len(),
{
    if a.len() > 0 {
        assert(b.len() > 0);
        assert(c.len() > 0);
        if a[0] == b[0] && b[0] == c[0] {
            lemma_lex_transitive(a.drop_first(), b.drop_first(), c.drop_first(), le);
        } else if a[0] != b[0] && b[0] != c[0] {
            assert(le(a[0], b[0]) && le(b[0], c[0]));
            assert(le(a[0], c[0]));
            if a[0] == c[0] {
                assert(le(b[0], a[0]));
            }
        }
    }
}

proof fn lemma_lex_connected<T>(a: Seq<T>, b: Seq<T>, le: spec_fn(T, T) -> bool)
    requires
        total_ordering(le),
    ensures
        lex_le(a, b, le) || lex_le(b, a, le),
    decreases a.len(),
{
    if a.len() > 0 && b.len() > 0 {
        if a[0] == b[0] {
            lemma_lex_connected(a.drop_first(), b.drop_first(), le);
        } else {
            assert(le(a[0], b[0]) || le(b[0], a[0]));
        }
    }
}

proof fn lemma_lex_total<T>(le: spec_fn(T, T) -> bool)
    requires
        total_ordering(le),
    ensures
        total_ordering(|a: Seq<T>, b: Seq<T>| lex_le(a, b, le)),
{
    let r = |a: Seq<T>, b: Seq<T>| lex_le(a, b, le);
    assert forall|x: Seq<T>| #[trigger] r(x, x) by {
        lemma_lex_reflexive(x, le);
    }
    assert forall|x: Seq<T>, y: Seq<T>| #[trigger] r(x, y) && #[trigger] r(y, x) implies x == y by {
        lemma_lex_antisymmetric(x, y, le);
    }
    assert forall|x: Seq<T>, y: Seq<T>, z: Seq<T>| #[trigger] r(x, y) && #[trigger] r(y, z) implies r(
        x,
        z,
    ) by {
        lemma_lex_transitive(x, y, z, le);
    }
    assert forall|x: Seq<T>, y: Seq<T>| #[trigger] r(x, y) || #[trigger] r(y, x) by {
        lemma_lex_connected(x, y, le);
    }
}

proof fn lemma_char_order_total()
    ensures
        total_ordering(char_order()),
{
    let c = char_order();
    assert forall|x: char, y: char| #[trigger] c(x, y) && #[trigger] c(y, x) implies x == y by {
        assert((x as int) == (y as int));
    }
}

pub proof fn lemma_name_le_antisymmetric(a: Seq<char>, b: Seq<char>)
    requires
        name_le(a, b),
        name_le(b, a),
    ensures
        a == b,
{
    lemma_char_order_total();
    lemma_lex_antisymmetric(a, b, char_order());
}

pub proof fn lemma_name_le_transitive(a: Seq<char>, b: Seq<char>, c: Seq<char>)
    requires
        name_le(a, b),
        name_le(b, c),
    ensures
        name_le(a, c),
{
    lemma_char_order_total();
    lemma_lex_transitive(a, b, c, char_order());
}

pub proof fn lemma_name_le_connected(a: Seq<char>, b: Seq<char>)
    ensures
        name_le(a, b) || name_le(b, a),
{
    lemma_char_order_total();
    lemma_lex_connected(a, b, char_order());
}

/// The order on names is a total order.
pub proof fn lemma_name_order_total()
    ensures
        total_ordering(name_order()),
{
    let c = char_order();
    lemma_char_order_total();
    lemma_lex_total(c);
    let r = |a: Seq<char>, b: Seq<char>| lex_le(a, b, c);
    assert(name_order() =~= r);
}

/// The canonical order on teams is a total order.
pub proof fn lemma_team_order_total()
    ensures
        total_ordering(team_order()),
{
    lemma_name_order_total();
    lemma_lex_total(name_order());
    let n = name_order();
    let t = team_order();
    assert forall|x: Seq<Seq<char>>| #[trigger] t(x, x) by {
        lemma_lex_reflexive(x, n);
    }
    assert forall|x: Seq<Seq<char>>, y: Seq<Seq<char>>| #[trigger] t(x, y) && #[trigger] t(
        y,
        x,
    ) implies x == y by {
        lemma_lex_antisymmetric(x, y, n);
    }
    assert forall|x: Seq<Seq<char>>, y: Seq<Seq<char>>, z: Seq<Seq<char>>| #[trigger] t(x, y)
        && #[trigger] t(y, z) implies t(x, z) by {
        if x.len() == y.len() && y.len() == z.len() {
            lemma_lex_transitive(x, y, z, n);
        }
    }
    assert forall|x: Seq<Seq<char>>, y: Seq<Seq<char>>| #[trigger] t(x, y) || #[trigger] t(y, x) by {
        lemma_lex_connected(x, y, n);
    }
}

pub proof fn lemma_team_le_transitive(a: Seq<Seq<char>>, b: Seq<Seq<char>>, c: Seq<Seq<char>>)
    requires
        team_le(a, b),
        team_le(b, c),
    ensures
        team_le(a, c),
{
    lemma_team_order_total();
    assert(team_order()(a, b) && team_order()(b, c));
}

pub proof fn lemma_team_le_connected(a: Seq<Seq<char>>, b: Seq<Seq<char>>)
    ensures
        team_le(a, b) || team_le(b, a),
{
    lemma_team_order_total();
    assert(team_order()(a, b) || team_order()(b, a));
}

/// Compares two names in the order on names.
pub fn names_in_order(a: &str, b: &str) -> (r: bool)
    ensures
        r == name_le(a@, b@),
{
    let la = a.unicode_len();
    let lb = b.unicode_len();
    let mut i: usize = 0;
    assert(a@.skip(0) =~= a@);
    assert(b@.skip(0) =~= b@);
    while i < la && i < lb
        invariant
            la == a@.len(),
            lb == b@.len(),
            i <= la,
            i <= lb,
            name_le(a@, b@) == lex_le(a@.skip(i as int), b@.skip(i as int), char_order()),
        decreases la - i,
    {
        let ca = a.get_char(i);
        let cb = b.get_char(i);
        assert(a@.skip(i as int)[0] == ca);
        assert(b@.skip(i as int)[0] == cb);
        if ca != cb {
            return (ca as u32) <= (cb as u32);
        }
        assert(a@.skip(i as int).drop_first() =~= a@.skip(i + 1));
        assert(b@.skip(i as int).drop_first() =~= b@.skip(i + 1));
        i = i + 1;
    }
    i >= la
}

} // verus!
