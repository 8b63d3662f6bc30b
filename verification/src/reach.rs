//! What a walk reaches, said without walking.
//!
//! A walk is defined step by step. The laws here say what it comes to as a
//! whole: it walks through exactly the junctions that a trail of junctions
//! leads to, and records exactly the owners of the pins that lie beside
//! them.

use vstd::prelude::*;
use crate::resolve::{
    destinations, lemma_fewer_left, lemma_walk_keeps, lemma_walk_sound, recorded, walk,
};
use crate::types::{ComponentView, Coordinate, Wire};
use crate::wiring::{adjacency, lemma_adjacency_finite};

verus! {

/// Whether `c` is a junction: a grid point at which a wire ends and that is
/// no pin.
pub open spec fn junction(
    adj: Map<Coordinate, Seq<Coordinate>>,
    pins: Map<Coordinate, Seq<char>>,
    c: Coordinate,
) -> bool {
    adj.contains_key(c) && !pins.contains_key(c)
}

/// Whether `t` is a trail: one or more junctions outside `visited`, each a
/// neighbour of the one before.
pub open spec fn trail(
    adj: Map<Coordinate, Seq<Coordinate>>,
    pins: Map<Coordinate, Seq<char>>,
    visited: Set<Coordinate>,
    t: Seq<Coordinate>,
) -> bool {
    &&& t.len() > 0
    &&& forall|i: int|
        0 <= i < t.len() ==> {
            &&& junction(adj, pins, #[trigger] t[i])
            &&& !visited.contains(t[i])
            &&& i >= 1 ==> adj[t[i - 1]].contains(t[i])
        }
}

/// Whether a trail leads from one of `routes` to `c`.
pub open spec fn reached(
    adj: Map<Coordinate, Seq<Coordinate>>,
    pins: Map<Coordinate, Seq<char>>,
    routes: Seq<Coordinate>,
    visited: Set<Coordinate>,
    c: Coordinate,
) -> bool {
    exists|t: Seq<Coordinate>| #[trigger]
        trail(adj, pins, visited, t) && routes.contains(t[0]) && t.last() == c
}

/// A trail that avoids more avoids less.
proof fn lemma_trail_avoids_less(
    adj: Map<Coordinate, Seq<Coordinate>>,
    pins: Map<Coordinate, Seq<char>>,
    less: Set<Coordinate>,
    more: Set<Coordinate>,
    t: Seq<Coordinate>,
)
    requires
        trail(adj, pins, more, t),
        less.subset_of(more),
    ensures
        trail(adj, pins, less, t),
{
}

/// A trail from a neighbour of the junction `r` goes on from `r` itself.
proof fn lemma_trail_from(
    adj: Map<Coordinate, Seq<Coordinate>>,
    pins: Map<Coordinate, Seq<char>>,
    visited: Set<Coordinate>,
    r: Coordinate,
    t: Seq<Coordinate>,
)
    requires
        junction(adj, pins, r),
        !visited.contains(r),
        trail(adj, pins, visited.insert(r), t),
        adj[r].contains(t[0]),
    ensures
        trail(adj, pins, visited, seq![r] + t),
        (seq![r] + t)[0] == r,
        (seq![r] + t).last() == t.last(),
{
    let u = seq![r] + t;
    assert forall|i: int| 0 <= i < u.len() implies {
        &&& junction(adj, pins, #[trigger] u[i])
        &&& !visited.contains(u[i])
        &&& i >= 1 ==> adj[u[i - 1]].contains(u[i])
    } by {
        if i >= 1 {
            assert(u[i] == t[i - 1]);
            if i >= 2 {
                assert(u[i - 1] == t[i - 2]);
            }
        }
    }
}

/// A trail goes on to a junction beside its end.
proof fn lemma_trail_on(
    adj: Map<Coordinate, Seq<Coordinate>>,
    pins: Map<Coordinate, Seq<char>>,
    visited: Set<Coordinate>,
    t: Seq<Coordinate>,
    v: Coordinate,
)
    requires
        trail(adj, pins, visited, t),
        adj[t.last()].contains(v),
        junction(adj, pins, v),
        !visited.contains(v),
    ensures
        trail(adj, pins, visited, t.push(v)),
        t.push(v)[0] == t[0],
        t.push(v).last() == v,
{
    let u = t.push(v);
    assert forall|i: int| 0 <= i < u.len() implies {
        &&& junction(adj, pins, #[trigger] u[i])
        &&& !visited.contains(u[i])
        &&& i >= 1 ==> adj[u[i - 1]].contains(u[i])
    } by {
        if i < t.len() {
            assert(u[i] == t[i]);
            if i >= 1 {
                assert(u[i - 1] == t[i - 1]);
            }
        } else {
            assert(u[i - 1] == t.last());
        }
    }
}

/// Whether `walked` holds every junction outside `visited` that lies beside
/// one of its own grid points outside `visited`.
pub open spec fn holds_what_lies_beside(
    adj: Map<Coordinate, Seq<Coordinate>>,
    pins: Map<Coordinate, Seq<char>>,
    visited: Set<Coordinate>,
    walked: Set<Coordinate>,
) -> bool {
    forall|u: Coordinate, v: Coordinate|
        walked.contains(u) && !visited.contains(u) && adj.contains_key(u) && #[trigger] adj[u].contains(
            v,
        ) && junction(adj, pins, v) && !visited.contains(v) ==> #[trigger] walked.contains(v)
}

/// A trail that enters such a set ends in it.
proof fn lemma_trail_stays(
    adj: Map<Coordinate, Seq<Coordinate>>,
    pins: Map<Coordinate, Seq<char>>,
    visited: Set<Coordinate>,
    walked: Set<Coordinate>,
    t: Seq<Coordinate>,
    i: int,
)
    requires
        trail(adj, pins, visited, t),
        holds_what_lies_beside(adj, pins, visited, walked),
        0 <= i < t.len(),
        walked.contains(t[i]),
    ensures
        walked.contains(t.last()),
    decreases t.len() - i,
{
    if i < t.len() - 1 {
        assert(junction(adj, pins, t[i]));
        assert(adj[t[i]].contains(t[i + 1]));
        assert(junction(adj, pins, t[i + 1]));
        assert(walked.contains(t[i + 1]));
        lemma_trail_stays(adj, pins, visited, walked, t, i + 1);
    }
}

/// What the first of the routes adds to the list, and what it does not.
proof fn lemma_routes_split(routes: Seq<Coordinate>)
    requires
        routes.len() > 0,
    ensures
        routes.contains(routes[0]),
        forall|x: Coordinate| routes.drop_first().contains(x) ==> routes.contains(x),
        forall|x: Coordinate|
            routes.contains(x) && x != routes[0] ==> routes.drop_first().contains(x),
{
    let rest = routes.drop_first();
    assert forall|x: Coordinate| rest.contains(x) implies routes.contains(x) by {
        let i = choose|i: int| 0 <= i < rest.len() && rest[i] == x;
        assert(routes[i + 1] == x);
    }
    assert forall|x: Coordinate| routes.contains(x) && x != routes[0] implies rest.contains(
        x,
    ) by {
        let i = choose|i: int| 0 <= i < routes.len() && routes[i] == x;
        assert(rest[i - 1] == x);
    }
}

/// A first route that is no junction, or was walked through, starts no
/// trail.
proof fn lemma_reached_by_the_rest(
    adj: Map<Coordinate, Seq<Coordinate>>,
    pins: Map<Coordinate, Seq<char>>,
    routes: Seq<Coordinate>,
    visited: Set<Coordinate>,
)
    requires
        routes.len() > 0,
        visited.contains(routes[0]) || !junction(adj, pins, routes[0]),
    ensures
        forall|c: Coordinate|
            reached(adj, pins, routes, visited, c) <==> reached(
                adj,
                pins,
                routes.drop_first(),
                visited,
                c,
            ),
{
    let rest = routes.drop_first();
    lemma_routes_split(routes);
    assert forall|c: Coordinate|
        reached(adj, pins, routes, visited, c) <==> reached(adj, pins, rest, visited, c) by {
        if reached(adj, pins, routes, visited, c) {
            let t = choose|t: Seq<Coordinate>| #[trigger]
                trail(adj, pins, visited, t) && routes.contains(t[0]) && t.last() == c;
            assert(junction(adj, pins, t[0]) && !visited.contains(t[0]));
            assert(rest.contains(t[0]));
        }
        if reached(adj, pins, rest, visited, c) {
            let t = choose|t: Seq<Coordinate>| #[trigger]
                trail(adj, pins, visited, t) && rest.contains(t[0]) && t.last() == c;
            assert(routes.contains(t[0]));
        }
    }
}

/// A walk that succeeds has walked through what was walked through before
/// and through every grid point to which a trail leads from one of its
/// routes, and through nothing else.
pub proof fn lemma_walk_reaches(
    adj: Map<Coordinate, Seq<Coordinate>>,
    pins: Map<Coordinate, Seq<char>>,
    own: Option<Seq<char>>,
    routes: Seq<Coordinate>,
    visited: Set<Coordinate>,
)
    requires
        adj.dom().finite(),
    ensures
        walk(adj, pins, own, routes, visited) matches Ok(w) ==> forall|c: Coordinate|
            #[trigger] w.visited.contains(c) <==> visited.contains(c) || reached(
                adj,
                pins,
                routes,
                visited,
                c,
            ),
    decreases (adj.dom() - visited).len(), routes.len(),
{
    if routes.len() == 0 {
        assert forall|c: Coordinate| !reached(adj, pins, routes, visited, c) by {}
    } else {
        let r = routes[0];
        let rest = routes.drop_first();
        assert(routes.contains(r));
        assert forall|x: Coordinate| rest.contains(x) implies routes.contains(x) by {
            let i = choose|i: int| 0 <= i < rest.len() && rest[i] == x;
            assert(routes[i + 1] == x);
        }
        assert forall|x: Coordinate| routes.contains(x) && x != r implies rest.contains(x) by {
            let i = choose|i: int| 0 <= i < routes.len() && routes[i] == x;
            assert(rest[i - 1] == x);
        }
        if visited.contains(r) || pins.contains_key(r) {
            lemma_walk_reaches(adj, pins, own, rest, visited);
            assert forall|c: Coordinate|
                reached(adj, pins, routes, visited, c) <==> reached(
                    adj,
                    pins,
                    rest,
                    visited,
                    c,
                ) by {
                if reached(adj, pins, routes, visited, c) {
                    let t = choose|t: Seq<Coordinate>| #[trigger]
                        trail(adj, pins, visited, t) && routes.contains(t[0]) && t.last() == c;
                    assert(junction(adj, pins, t[0]) && !visited.contains(t[0]));
                    assert(rest.contains(t[0]));
                }
                if reached(adj, pins, rest, visited, c) {
                    let t = choose|t: Seq<Coordinate>| #[trigger]
                        trail(adj, pins, visited, t) && rest.contains(t[0]) && t.last() == c;
                    assert(routes.contains(t[0]));
                }
            }
        } else if adj.contains_key(r) {
            let first = visited.insert(r);
            lemma_fewer_left(adj.dom(), visited, first, r);
            lemma_walk_reaches(adj, pins, own, adj[r], first);
            lemma_walk_keeps(adj, pins, own, adj[r], first);
            if let Ok(below) = walk(adj, pins, own, adj[r], first) {
                let next = below.visited + first;
                assert(next =~= below.visited);
                lemma_fewer_left(adj.dom(), visited, next, r);
                lemma_walk_reaches(adj, pins, own, rest, next);
                lemma_walk_keeps(adj, pins, own, rest, next);
                if let Ok(after) = walk(adj, pins, own, rest, next) {
                    assert(trail(adj, pins, visited, seq![r]));
                    assert(seq![r][0] == r && seq![r].last() == r);
                    assert(reached(adj, pins, routes, visited, r));
                    assert(holds_what_lies_beside(adj, pins, visited, next)) by {
                        assert forall|u: Coordinate, v: Coordinate|
                            next.contains(u) && !visited.contains(u) && adj.contains_key(u)
                                && #[trigger] adj[u].contains(v) && junction(adj, pins, v)
                                && !visited.contains(v) implies #[trigger] next.contains(v) by {
                            if v != r {
                                if u == r {
                                    assert(trail(adj, pins, first, seq![v]));
                                    assert(seq![v][0] == v && seq![v].last() == v);
                                    assert(reached(adj, pins, adj[r], first, v));
                                } else {
                                    assert(reached(adj, pins, adj[r], first, u));
                                    let s = choose|s: Seq<Coordinate>| #[trigger]
                                        trail(adj, pins, first, s) && adj[r].contains(s[0])
                                            && s.last() == u;
                                    lemma_trail_on(adj, pins, first, s, v);
                                    assert(reached(adj, pins, adj[r], first, v));
                                }
                            }
                        }
                    }
                    assert forall|c: Coordinate| #[trigger]
                        after.visited.contains(c) <==> visited.contains(c) || reached(
                            adj,
                            pins,
                            routes,
                            visited,
                            c,
                        ) by {
                        if after.visited.contains(c) && !visited.contains(c) {
                            if next.contains(c) {
                                if c != r {
                                    assert(reached(adj, pins, adj[r], first, c));
                                    let t = choose|t: Seq<Coordinate>| #[trigger]
                                        trail(adj, pins, first, t) && adj[r].contains(t[0])
                                            && t.last() == c;
                                    lemma_trail_from(adj, pins, visited, r, t);
                                    assert(reached(adj, pins, routes, visited, c));
                                }
                            } else {
                                assert(reached(adj, pins, rest, next, c));
                                let t = choose|t: Seq<Coordinate>| #[trigger]
                                    trail(adj, pins, next, t) && rest.contains(t[0]) && t.last()
                                        == c;
                                lemma_trail_avoids_less(adj, pins, visited, next, t);
                                assert(routes.contains(t[0]));
                                assert(reached(adj, pins, routes, visited, c));
                            }
                        }
                        if reached(adj, pins, routes, visited, c) {
                            let t = choose|t: Seq<Coordinate>| #[trigger]
                                trail(adj, pins, visited, t) && routes.contains(t[0]) && t.last()
                                    == c;
                            if exists|i: int| 0 <= i < t.len() && next.contains(#[trigger] t[i]) {
                                let i = choose|i: int|
                                    0 <= i < t.len() && next.contains(#[trigger] t[i]);
                                lemma_trail_stays(adj, pins, visited, next, t, i);
                                assert(after.visited.contains(c));
                            } else {
                                assert(trail(adj, pins, next, t));
                                assert(!next.contains(t[0]));
                                assert(rest.contains(t[0]));
                                assert(reached(adj, pins, rest, next, c));
                                assert(after.visited.contains(c));
                            }
                        }
                    }
                }
            }
        }
    }
}

/// Whether the walk meets the pin at `p`: the pin was not walked through
/// before, and it is one of the routes or lies beside a grid point to which
/// a trail leads.
pub open spec fn pin_met(
    adj: Map<Coordinate, Seq<Coordinate>>,
    pins: Map<Coordinate, Seq<char>>,
    routes: Seq<Coordinate>,
    visited: Set<Coordinate>,
    p: Coordinate,
) -> bool {
    &&& pins.contains_key(p)
    &&& !visited.contains(p)
    &&& (routes.contains(p) || exists|c: Coordinate| #[trigger]
        reached(adj, pins, routes, visited, c) && adj[c].contains(p))
}

/// Whether the walk meets a pin of the component `id`, and `id` is not the
/// walking component's own.
pub open spec fn owner_met(
    adj: Map<Coordinate, Seq<Coordinate>>,
    pins: Map<Coordinate, Seq<char>>,
    own: Option<Seq<char>>,
    routes: Seq<Coordinate>,
    visited: Set<Coordinate>,
    id: Seq<char>,
) -> bool {
    own != Some(id) && exists|p: Coordinate| #[trigger]
        pin_met(adj, pins, routes, visited, p) && pins[p] == id
}

/// A first route that is no junction, or was walked through, adds itself
/// to the pins that the walk meets, where it is a pin that was not walked
/// through, and nothing else.
proof fn lemma_pin_met_by_the_rest(
    adj: Map<Coordinate, Seq<Coordinate>>,
    pins: Map<Coordinate, Seq<char>>,
    routes: Seq<Coordinate>,
    visited: Set<Coordinate>,
    p: Coordinate,
)
    requires
        routes.len() > 0,
        visited.contains(routes[0]) || !junction(adj, pins, routes[0]),
    ensures
        pin_met(adj, pins, routes, visited, p) <==> (p == routes[0] && pins.contains_key(p)
            && !visited.contains(p)) || pin_met(adj, pins, routes.drop_first(), visited, p),
{
    let rest = routes.drop_first();
    lemma_routes_split(routes);
    lemma_reached_by_the_rest(adj, pins, routes, visited);
    if pin_met(adj, pins, routes, visited, p) && !routes.contains(p) {
        let c = choose|c: Coordinate| #[trigger]
            reached(adj, pins, routes, visited, c) && adj[c].contains(p);
        assert(reached(adj, pins, rest, visited, c));
    }
    if pin_met(adj, pins, rest, visited, p) && !rest.contains(p) {
        let c = choose|c: Coordinate| #[trigger]
            reached(adj, pins, rest, visited, c) && adj[c].contains(p);
        assert(reached(adj, pins, routes, visited, c));
    }
}

/// A walk that succeeds has recorded the owners of the pins that it meets,
/// and no others.
pub proof fn lemma_walk_finds(
    adj: Map<Coordinate, Seq<Coordinate>>,
    pins: Map<Coordinate, Seq<char>>,
    own: Option<Seq<char>>,
    routes: Seq<Coordinate>,
    visited: Set<Coordinate>,
)
    requires
        adj.dom().finite(),
    ensures
        walk(adj, pins, own, routes, visited) matches Ok(w) ==> forall|id: Seq<char>|
            #[trigger] w.found.contains(id) <==> owner_met(adj, pins, own, routes, visited, id),
    decreases (adj.dom() - visited).len(), routes.len(),
{
    if routes.len() == 0 {
        assert forall|c: Coordinate| !reached(adj, pins, routes, visited, c) by {}
        assert forall|p: Coordinate| !pin_met(adj, pins, routes, visited, p) by {}
    } else {
        let r = routes[0];
        let rest = routes.drop_first();
        lemma_routes_split(routes);
        if visited.contains(r) {
            lemma_walk_finds(adj, pins, own, rest, visited);
            lemma_reached_by_the_rest(adj, pins, routes, visited);
            assert forall|p: Coordinate|
                pin_met(adj, pins, routes, visited, p) <==> pin_met(
                    adj,
                    pins,
                    rest,
                    visited,
                    p,
                ) by {
                lemma_pin_met_by_the_rest(adj, pins, routes, visited, p);
            }
        } else if pins.contains_key(r) {
            lemma_walk_finds(adj, pins, own, rest, visited);
            lemma_reached_by_the_rest(adj, pins, routes, visited);
            assert forall|p: Coordinate|
                pin_met(adj, pins, routes, visited, p) <==> p == r || pin_met(
                    adj,
                    pins,
                    rest,
                    visited,
                    p,
                ) by {
                lemma_pin_met_by_the_rest(adj, pins, routes, visited, p);
            }
            if let Ok(after) = walk(adj, pins, own, rest, visited) {
                let first = recorded(own, pins[r]);
                let all = first + after.found;
                assert forall|id: Seq<char>| #[trigger]
                    all.contains(id) <==> owner_met(adj, pins, own, routes, visited, id) by {
                    vstd::seq_lib::lemma_seq_concat_contains_all_elements(first, after.found, id);
                    if first.contains(id) {
                        assert(first.len() == 1 && first[0] == id);
                        assert(pin_met(adj, pins, routes, visited, r));
                    }
                    if owner_met(adj, pins, own, routes, visited, id) {
                        let p = choose|p: Coordinate| #[trigger]
                            pin_met(adj, pins, routes, visited, p) && pins[p] == id;
                        if p == r {
                            assert(first[0] == id);
                        } else {
                            assert(pin_met(adj, pins, rest, visited, p));
                        }
                    }
                }
            }
        } else if adj.contains_key(r) {
            let first = visited.insert(r);
            lemma_fewer_left(adj.dom(), visited, first, r);
            lemma_walk_finds(adj, pins, own, adj[r], first);
            lemma_walk_reaches(adj, pins, own, adj[r], first);
            lemma_walk_keeps(adj, pins, own, adj[r], first);
            lemma_walk_sound(adj, pins, own, adj[r], first);
            if let Ok(below) = walk(adj, pins, own, adj[r], first) {
                let next = below.visited + first;
                assert(next =~= below.visited);
                lemma_fewer_left(adj.dom(), visited, next, r);
                lemma_walk_finds(adj, pins, own, rest, next);
                lemma_walk_reaches(adj, pins, own, rest, next);
                lemma_walk_reaches(adj, pins, own, routes, visited);
                if let Ok(after) = walk(adj, pins, own, rest, next) {
                    let all = below.found + after.found;
                    let whole = walk(adj, pins, own, routes, visited)->Ok_0;
                    assert(whole.visited == after.visited && whole.found == all);
                    assert(trail(adj, pins, visited, seq![r]));
                    assert(seq![r][0] == r && seq![r].last() == r);
                    assert(reached(adj, pins, routes, visited, r));
                    assert forall|p: Coordinate|
                        pin_met(adj, pins, routes, visited, p) <==> pin_met(
                            adj,
                            pins,
                            adj[r],
                            first,
                            p,
                        ) || pin_met(adj, pins, rest, next, p) by {
                        if pin_met(adj, pins, adj[r], first, p) {
                            if !adj[r].contains(p) {
                                let c = choose|c: Coordinate| #[trigger]
                                    reached(adj, pins, adj[r], first, c) && adj[c].contains(p);
                                let t = choose|t: Seq<Coordinate>| #[trigger]
                                    trail(adj, pins, first, t) && adj[r].contains(t[0])
                                        && t.last() == c;
                                lemma_trail_from(adj, pins, visited, r, t);
                                assert(reached(adj, pins, routes, visited, c));
                            }
                            assert(pin_met(adj, pins, routes, visited, p));
                        }
                        if pin_met(adj, pins, rest, next, p) {
                            if !rest.contains(p) {
                                let c = choose|c: Coordinate| #[trigger]
                                    reached(adj, pins, rest, next, c) && adj[c].contains(p);
                                let t = choose|t: Seq<Coordinate>| #[trigger]
                                    trail(adj, pins, next, t) && rest.contains(t[0]) && t.last()
                                        == c;
                                lemma_trail_avoids_less(adj, pins, visited, next, t);
                                assert(reached(adj, pins, routes, visited, c));
                            }
                            assert(pin_met(adj, pins, routes, visited, p));
                        }
                        if pin_met(adj, pins, routes, visited, p) {
                            assert(!next.contains(p));
                            if routes.contains(p) {
                                assert(rest.contains(p));
                            } else {
                                let c = choose|c: Coordinate| #[trigger]
                                    reached(adj, pins, routes, visited, c) && adj[c].contains(p);
                                let t = choose|t: Seq<Coordinate>| #[trigger]
                                    trail(adj, pins, visited, t) && routes.contains(t[0])
                                        && t.last() == c;
                                assert(!visited.contains(c));
                                assert(whole.visited.contains(c));
                                if next.contains(c) {
                                    if c != r {
                                        assert(reached(adj, pins, adj[r], first, c));
                                    }
                                    assert(pin_met(adj, pins, adj[r], first, p));
                                } else {
                                    assert(reached(adj, pins, rest, next, c));
                                    assert(pin_met(adj, pins, rest, next, p));
                                }
                            }
                        }
                    }
                    assert forall|id: Seq<char>| #[trigger]
                        all.contains(id) <==> owner_met(adj, pins, own, routes, visited, id) by {
                        vstd::seq_lib::lemma_seq_concat_contains_all_elements(
                            below.found,
                            after.found,
                            id,
                        );
                        if below.found.contains(id) {
                            let p = choose|p: Coordinate| #[trigger]
                                pin_met(adj, pins, adj[r], first, p) && pins[p] == id;
                            assert(pin_met(adj, pins, routes, visited, p));
                        }
                        if after.found.contains(id) {
                            let p = choose|p: Coordinate| #[trigger]
                                pin_met(adj, pins, rest, next, p) && pins[p] == id;
                            assert(pin_met(adj, pins, routes, visited, p));
                        }
                        if owner_met(adj, pins, own, routes, visited, id) {
                            let p = choose|p: Coordinate| #[trigger]
                                pin_met(adj, pins, routes, visited, p) && pins[p] == id;
                            if pin_met(adj, pins, adj[r], first, p) {
                                assert(owner_met(adj, pins, own, adj[r], first, id));
                            } else {
                                assert(pin_met(adj, pins, rest, next, p));
                                assert(owner_met(adj, pins, own, rest, next, id));
                            }
                        }
                    }
                }
            }
        }
    }
}

/// Whether the component `id` is wired to `component`: it is another
/// component, and one of its pins, other than one at the coordinate of
/// `component` itself, lies beside that coordinate or beside a grid point
/// to which a trail of junctions leads from there.
pub open spec fn wired_to(
    adj: Map<Coordinate, Seq<Coordinate>>,
    pins: Map<Coordinate, Seq<char>>,
    component: ComponentView,
    id: Seq<char>,
) -> bool {
    owner_met(
        adj,
        pins,
        Some(component.id),
        adj[component.loc],
        Set::empty().insert(component.loc),
        id,
    )
}

/// The destinations of a component are the components that are wired to
/// it, each at least once, and no others.
pub proof fn lemma_destinations_are_the_wired(
    wires: Seq<Wire>,
    pins: Map<Coordinate, Seq<char>>,
    component: ComponentView,
)
    ensures
        destinations(adjacency(wires), pins, component) matches Ok(found) ==> forall|
            id: Seq<char>,
        |
            #[trigger] found.contains(id) <==> wired_to(adjacency(wires), pins, component, id),
{
    let adj = adjacency(wires);
    lemma_adjacency_finite(wires);
    if adj.contains_key(component.loc) {
        lemma_walk_finds(
            adj,
            pins,
            Some(component.id),
            adj[component.loc],
            Set::empty().insert(component.loc),
        );
    }
}

} // verus!
