//! The tokens a replica holds, kept as a list in which no route occurs
//! twice and read as a map from route to token.
use crate::model::{Route, Token};
use std::hash::Hash;
use vstd::laws_eq::obeys_concrete_eq;
use vstd::prelude::*;
use vstd::std_specs::hash::obeys_key_model;

verus! {

/// What the library asks of an identifier type: it hashes the same way
/// every time, and its `==` holds of two identifiers exactly when they are
/// the same value.
pub open spec fn key_model<K: PartialEq>() -> bool {
    obeys_key_model::<K>() && obeys_concrete_eq::<K>()
}

/// No route occurs twice in `s`.
pub open spec fn unique<K>(s: Seq<(Route<K>, Token)>) -> bool {
    forall|i: int, j: int| 0 <= i < j < s.len() ==> s[i].0 != s[j].0
}

/// Whether `route` occurs at position `i` of `s`.
pub open spec fn at<K>(s: Seq<(Route<K>, Token)>, route: Route<K>, i: int) -> bool {
    0 <= i < s.len() && s[i].0 == route
}

/// The list read as a map: each route that occurs, with its token.
pub open spec fn table<K>(s: Seq<(Route<K>, Token)>) -> Map<Route<K>, Token> {
    Map::new(
        |r: Route<K>| exists|i: int| at(s, r, i),
        |r: Route<K>| s[choose|i: int| at(s, r, i)].1,
    )
}

/// In a list without repeats, the map holds each entry as it stands.
pub proof fn lemma_table_at<K>(s: Seq<(Route<K>, Token)>, i: int)
    requires
        unique(s),
        0 <= i < s.len(),
    ensures
        table(s).contains_key(s[i].0),
        table(s)[s[i].0] == s[i].1,
{
    assert(at(s, s[i].0, i));
    let j = choose|j: int| at(s, s[i].0, j);
    assert(i == j);
}

/// The map of a list is finite.
pub proof fn lemma_table_finite<K>(s: Seq<(Route<K>, Token)>)
    ensures
        table(s).dom().finite(),
    decreases s.len(),
{
    if s.len() == 0 {
        assert(table(s).dom() =~= Set::empty());
    } else {
        let init = s.drop_last();
        lemma_table_finite(init);
        assert forall|r: Route<K>| table(s).dom().contains(r) <==> table(init).dom().insert(
            s.last().0,
        ).contains(r) by {
            if table(s).dom().contains(r) {
                let i = choose|i: int| at(s, r, i);
                if i < s.len() - 1 {
                    assert(at(init, r, i));
                }
            }
            if table(init).dom().contains(r) {
                let i = choose|i: int| at(init, r, i);
                assert(at(s, r, i));
            }
            if r == s.last().0 {
                assert(at(s, r, s.len() - 1));
            }
        }
        assert(table(s).dom() =~= table(init).dom().insert(s.last().0));
    }
}

/// Appending an entry on a new route adds it to the map.
pub proof fn lemma_table_push<K>(s: Seq<(Route<K>, Token)>, route: Route<K>, token: Token)
    requires
        unique(s),
        !table(s).contains_key(route),
    ensures
        unique(s.push((route, token))),
        table(s.push((route, token))) == table(s).insert(route, token),
{
    let t = s.push((route, token));
    assert forall|i: int, j: int| 0 <= i < j < t.len() implies t[i].0 != t[j].0 by {
        if j == s.len() {
            assert(at(s, t[i].0, i));
        }
    }
    assert forall|r: Route<K>| #[trigger]
        table(t).contains_key(r) <==> table(s).insert(route, token).contains_key(r) by {
        if table(t).contains_key(r) {
            let i = choose|i: int| at(t, r, i);
            if i < s.len() {
                assert(at(s, r, i));
            }
        }
        if table(s).contains_key(r) {
            let i = choose|i: int| at(s, r, i);
            assert(at(t, r, i));
        }
        if r == route {
            assert(at(t, r, s.len() as int));
        }
    }
    assert forall|r: Route<K>| #[trigger] table(t).contains_key(r) implies table(t)[r] == table(
        s,
    ).insert(route, token)[r] by {
        let i = choose|i: int| at(t, r, i);
        lemma_table_at(t, i);
        if i < s.len() {
            lemma_table_at(s, i);
        }
    }
    assert(table(t) =~= table(s).insert(route, token));
}

/// Replacing the token of an entry replaces it in the map.
pub proof fn lemma_table_update<K>(s: Seq<(Route<K>, Token)>, i: int, token: Token)
    requires
        unique(s),
        0 <= i < s.len(),
    ensures
        unique(s.update(i, (s[i].0, token))),
        table(s.update(i, (s[i].0, token))) == table(s).insert(s[i].0, token),
{
    let t = s.update(i, (s[i].0, token));
    assert forall|a: int, b: int| 0 <= a < b < t.len() implies t[a].0 != t[b].0 by {
        assert(t[a].0 == s[a].0 && t[b].0 == s[b].0);
    }
    assert forall|r: Route<K>| #[trigger]
        table(t).contains_key(r) <==> table(s).insert(s[i].0, token).contains_key(r) by {
        if table(t).contains_key(r) {
            let j = choose|j: int| at(t, r, j);
            assert(at(s, r, j));
        }
        if table(s).contains_key(r) {
            let j = choose|j: int| at(s, r, j);
            assert(at(t, r, j));
        }
        if r == s[i].0 {
            assert(at(s, r, i));
        }
    }
    assert forall|r: Route<K>| #[trigger] table(t).contains_key(r) implies table(t)[r] == table(
        s,
    ).insert(s[i].0, token)[r] by {
        let j = choose|j: int| at(t, r, j);
        lemma_table_at(t, j);
        lemma_table_at(s, j);
    }
    assert(table(t) =~= table(s).insert(s[i].0, token));
}

/// Whether two identifiers are the same.
pub fn same<K: Copy + Eq + Hash>(a: K, b: K) -> (r: bool)
    requires
        key_model::<K>(),
    ensures
        r == (a == b),
{
    proof {
        reveal(obeys_concrete_eq);
    }
    a == b
}

/// The position of `route` in the list, if it occurs.
pub fn find<K: Copy + Eq + Hash>(list: &Vec<(Route<K>, Token)>, route: Route<K>) -> (r: Option<
    usize,
>)
    requires
        key_model::<K>(),
        unique(list@),
    ensures
        match r {
            Some(i) => at(list@, route, i as int),
            None => !table(list@).contains_key(route),
        },
{
    let mut i: usize = 0;
    while i < list.len()
        invariant
            key_model::<K>(),
            i <= list.len(),
            forall|j: int| 0 <= j < i ==> !at(list@, route, j),
        decreases list.len() - i,
    {
        let entry = &list[i];
        if same(entry.0.0, route.0) && same(entry.0.1, route.1) {
            return Some(i);
        }
        i = i + 1;
    }
    None
}

/// Writes `token` at `route`: over the token held there, or as a new entry.
pub fn put<K: Copy + Eq + Hash>(list: &mut Vec<(Route<K>, Token)>, route: Route<K>, token: Token)
    requires
        key_model::<K>(),
        unique(old(list)@),
    ensures
        unique(final(list)@),
        table(final(list)@) == table(old(list)@).insert(route, token),
{
    match find(list, route) {
        Some(i) => {
            proof {
                lemma_table_update(list@, i as int, token);
            }
            list.set(i, (route, token));
        },
        None => {
            proof {
                lemma_table_push(list@, route, token);
            }
            list.push((route, token));
        },
    }
}

} // verus!
