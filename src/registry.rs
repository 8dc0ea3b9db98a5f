use crate::team::TeamModel;
use vstd::prelude::*;

verus! {

/// No two teams of the sequence share a name.
pub open spec fn names_unique(s: Seq<TeamModel>) -> bool {
    forall|i: int, j: int|
        0 <= i < s.len() && 0 <= j < s.len() && i != j ==> s[i].name != s[j].name
}

/// Some team of the sequence is called `n`.
pub open spec fn has_name(s: Seq<TeamModel>, n: Seq<char>) -> bool {
    exists|i: int| 0 <= i < s.len() && s[i].name == n
}

/// The teams of the sequence, each filed under its name.
pub open spec fn team_map(s: Seq<TeamModel>) -> Map<Seq<char>, TeamModel> {
    Map::new(
        |n: Seq<char>| has_name(s, n),
        |n: Seq<char>| s[choose|i: int| 0 <= i < s.len() && s[i].name == n],
    )
}

/// With unique names, each team is found under its own name.
pub(crate) proof fn lemma_team_map_lookup(s: Seq<TeamModel>, i: int)
    requires
        names_unique(s),
        0 <= i < s.len(),
    ensures
        team_map(s).contains_key(s[i].name),
        team_map(s)[s[i].name] == s[i],
{
    let n = s[i].name;
    assert(has_name(s, n));
    let j = choose|j: int| 0 <= j < s.len() && s[j].name == n;
    assert(j == i);
}

/// Appending a team with a fresh name files it under that name.
pub(crate) proof fn lemma_team_map_push(s: Seq<TeamModel>, t: TeamModel)
    requires
        names_unique(s),
        !has_name(s, t.name),
    ensures
        names_unique(s.push(t)),
        team_map(s.push(t)) == team_map(s).insert(t.name, t),
{
    let s2 = s.push(t);
    assert forall|i: int, j: int|
        0 <= i < s2.len() && 0 <= j < s2.len() && i != j implies s2[i].name != s2[j].name by {
        if i < s.len() && j == s.len() {
            assert(s[i].name == s2[i].name);
        } else if j < s.len() && i == s.len() {
            assert(s[j].name == s2[j].name);
        }
    }
    let m = team_map(s).insert(t.name, t);
    assert forall|n: Seq<char>| #[trigger] team_map(s2).contains_key(n) <==> m.contains_key(n) by {
        if has_name(s2, n) {
            let i = choose|i: int| 0 <= i < s2.len() && s2[i].name == n;
            if i < s.len() {
                assert(s[i].name == n);
            }
        }
        if has_name(s, n) {
            let i = choose|i: int| 0 <= i < s.len() && s[i].name == n;
            assert(s2[i].name == n);
        }
        if n == t.name {
            assert(s2[s.len() as int].name == n);
        }
    }
    assert forall|n: Seq<char>| #[trigger] team_map(s2).contains_key(n) implies team_map(s2)[n]
        == m[n] by {
        let i = choose|i: int| 0 <= i < s2.len() && s2[i].name == n;
        lemma_team_map_lookup(s2, i);
        if i < s.len() {
            lemma_team_map_lookup(s, i);
        }
    }
    assert(team_map(s2) =~= m);
}

/// Replacing a team by one of the same name replaces it in the map.
pub(crate) proof fn lemma_team_map_update(s: Seq<TeamModel>, i: int, t: TeamModel)
    requires
        names_unique(s),
        0 <= i < s.len(),
        t.name == s[i].name,
    ensures
        names_unique(s.update(i, t)),
        team_map(s.update(i, t)) == team_map(s).insert(t.name, t),
{
    let s2 = s.update(i, t);
    assert forall|a: int, b: int|
        0 <= a < s2.len() && 0 <= b < s2.len() && a != b implies s2[a].name != s2[b].name by {
        assert(s2[a].name == s[a].name);
        assert(s2[b].name == s[b].name);
    }
    let m = team_map(s).insert(t.name, t);
    assert forall|n: Seq<char>| #[trigger] team_map(s2).contains_key(n) <==> m.contains_key(n) by {
        if has_name(s2, n) {
            let j = choose|j: int| 0 <= j < s2.len() && s2[j].name == n;
            assert(s[j].name == n);
        }
        if has_name(s, n) {
            let j = choose|j: int| 0 <= j < s.len() && s[j].name == n;
            assert(s2[j].name == n);
        }
    }
    assert forall|n: Seq<char>| #[trigger] team_map(s2).contains_key(n) implies team_map(s2)[n]
        == m[n] by {
        let j = choose|j: int| 0 <= j < s2.len() && s2[j].name == n;
        lemma_team_map_lookup(s2, j);
        if j != i {
            lemma_team_map_lookup(s, j);
        }
    }
    assert(team_map(s2) =~= m);
}

/// Removing a team removes its name from the map.
pub(crate) proof fn lemma_team_map_remove(s: Seq<TeamModel>, i: int)
    requires
        names_unique(s),
        0 <= i < s.len(),
    ensures
        names_unique(s.remove(i)),
        team_map(s.remove(i)) == team_map(s).remove(s[i].name),
{
    let s2 = s.remove(i);
    assert forall|a: int, b: int|
        0 <= a < s2.len() && 0 <= b < s2.len() && a != b implies s2[a].name != s2[b].name by {
        let a0 = if a < i { a } else { a + 1 };
        let b0 = if b < i { b } else { b + 1 };
        assert(s2[a] == s[a0]);
        assert(s2[b] == s[b0]);
    }
    let m = team_map(s).remove(s[i].name);
    assert forall|n: Seq<char>| #[trigger] team_map(s2).contains_key(n) <==> m.contains_key(n) by {
        if has_name(s2, n) {
            let j = choose|j: int| 0 <= j < s2.len() && s2[j].name == n;
            let j0 = if j < i { j } else { j + 1 };
            assert(s[j0].name == n);
        }
        if has_name(s, n) && n != s[i].name {
            let j = choose|j: int| 0 <= j < s.len() && s[j].name == n;
            let j2 = if j < i { j } else { j - 1 };
            assert(s2[j2].name == n);
        }
    }
    assert forall|n: Seq<char>| #[trigger] team_map(s2).contains_key(n) implies team_map(s2)[n]
        == m[n] by {
        let j = choose|j: int| 0 <= j < s2.len() && s2[j].name == n;
        let j0 = if j < i { j } else { j + 1 };
        lemma_team_map_lookup(s2, j);
        lemma_team_map_lookup(s, j0);
    }
    assert(team_map(s2) =~= m);
}

} // verus!
