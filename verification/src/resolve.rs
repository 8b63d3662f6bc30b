//! Walking the wires from a component to the components it is wired to.
//!
//! A walk follows the adjacency of the wires. A grid point that is a pin
//! ends the walk there and names its owner as a destination; a grid point
//! that only joins wires is walked through once.

use vstd::prelude::*;
use crate::error::CircError;
use crate::types::{Component, ComponentView, Coordinate, ModuleType, Wire};
use crate::wiring::{
    adjacency, leads_on, lemma_adjacency_finite, lemma_adjacency_leads_on, PinMap, WireMap,
};

verus! {

/// What a walk has to show: the ids it came upon, in the order in which it
/// did, and the grid points it has walked through.
pub struct Walk {
    pub found: Seq<Seq<char>>,
    pub visited: Set<Coordinate>,
}

/// What a walk records at the pin of the component `id`: the id, unless it
/// is the walking component's own.
pub open spec fn recorded(own: Option<Seq<char>>, id: Seq<char>) -> Seq<Seq<char>> {
    if own == Some(id) {
        Seq::empty()
    } else {
        seq![id]
    }
}

/// The walk over `routes`, one after the other, with `visited` already
/// walked through.
///
/// A route that was walked through is passed over. A route that is a pin is
/// recorded, and not walked through. Any other route at which a wire ends
/// is marked as walked through, and its own neighbours are walked before
/// the routes that are left. A route that is none of these ends the walk
/// in failure.
///
/// The routes that are left are walked with what the walk below has walked
/// through. That holds the route itself and all that was walked through
/// before ([`lemma_walk_keeps`]); the union says so where the definition
/// needs it, to be seen to end.
pub open spec fn walk(
    adj: Map<Coordinate, Seq<Coordinate>>,
    pins: Map<Coordinate, Seq<char>>,
    own: Option<Seq<char>>,
    routes: Seq<Coordinate>,
    visited: Set<Coordinate>,
) -> Result<Walk, CircError>
    decreases (adj.dom() - visited).len(), routes.len(),
    when adj.dom().finite()
{
    if routes.len() == 0 {
        Ok(Walk { found: Seq::empty(), visited })
    } else {
        let r = routes[0];
        let rest = routes.drop_first();
        if visited.contains(r) {
            walk(adj, pins, own, rest, visited)
        } else if pins.contains_key(r) {
            match walk(adj, pins, own, rest, visited) {
                Err(e) => Err(e),
                Ok(after) => Ok(
                    Walk { found: recorded(own, pins[r]) + after.found, visited: after.visited },
                ),
            }
        } else if adj.contains_key(r) {
            proof {
                lemma_fewer_left(adj.dom(), visited, visited.insert(r), r);
            }
            match walk(adj, pins, own, adj[r], visited.insert(r)) {
                Err(e) => Err(e),
                Ok(below) => {
                    proof {
                        lemma_fewer_left(adj.dom(), visited, below.visited + visited.insert(r), r);
                    }
                    match walk(adj, pins, own, rest, below.visited + visited.insert(r)) {
                        Err(e) => Err(e),
                        Ok(after) => Ok(
                            Walk { found: below.found + after.found, visited: after.visited },
                        ),
                    }
                },
            }
        } else {
            Err(CircError::DanglingRoute(r))
        }
    }
}

/// Walking through one more grid point leaves fewer to walk through.
pub proof fn lemma_fewer_left(
    all: Set<Coordinate>,
    before: Set<Coordinate>,
    after: Set<Coordinate>,
    r: Coordinate,
)
    requires
        all.finite(),
        all.contains(r),
        !before.contains(r),
        after.contains(r),
        before.subset_of(after),
    ensures
        (all - after).len() < (all - before).len(),
{
    let less = all - after;
    let more = all - before;
    vstd::set_lib::lemma_set_subset_finite(all, more);
    assert(less.subset_of(more.remove(r)));
    vstd::set_lib::lemma_len_subset(less, more.remove(r));
}

/// The destinations of a component: what the walk from its own coordinate
/// finds. The component needs a wire at its coordinate.
pub open spec fn destinations(
    adj: Map<Coordinate, Seq<Coordinate>>,
    pins: Map<Coordinate, Seq<char>>,
    component: ComponentView,
) -> Result<Seq<Seq<char>>, CircError> {
    if !adj.contains_key(component.loc) {
        Err(CircError::NoWireAtComponent(component.loc))
    } else {
        match walk(
            adj,
            pins,
            Some(component.id),
            adj[component.loc],
            Set::empty().insert(component.loc),
        ) {
            Ok(w) => Ok(w.found),
            Err(e) => Err(e),
        }
    }
}

/// The texts of a list of strings.
pub open spec fn texts(v: Seq<String>) -> Seq<Seq<char>> {
    v.map_values(|s: String| s@)
}

/// The text of the walking component's id, where there is one.
pub open spec fn own_text(own: Option<&String>) -> Option<Seq<char>> {
    match own {
        Some(id) => Some(id@),
        None => None,
    }
}

/// A walk only adds to what was walked through, and never records the
/// walking component's own id.
pub proof fn lemma_walk_keeps(
    adj: Map<Coordinate, Seq<Coordinate>>,
    pins: Map<Coordinate, Seq<char>>,
    own: Option<Seq<char>>,
    routes: Seq<Coordinate>,
    visited: Set<Coordinate>,
)
    requires
        adj.dom().finite(),
    ensures
        walk(adj, pins, own, routes, visited) matches Ok(w) ==> {
            &&& visited.subset_of(w.visited)
            &&& forall|i: int| 0 <= i < w.found.len() ==> own != Some(#[trigger] w.found[i])
        },
    decreases (adj.dom() - visited).len(), routes.len(),
{
    if routes.len() > 0 {
        let r = routes[0];
        let rest = routes.drop_first();
        if visited.contains(r) {
            lemma_walk_keeps(adj, pins, own, rest, visited);
        } else if pins.contains_key(r) {
            lemma_walk_keeps(adj, pins, own, rest, visited);
        } else if adj.contains_key(r) {
            lemma_fewer_left(adj.dom(), visited, visited.insert(r), r);
            lemma_walk_keeps(adj, pins, own, adj[r], visited.insert(r));
            if let Ok(below) = walk(adj, pins, own, adj[r], visited.insert(r)) {
                let next = below.visited + visited.insert(r);
                lemma_fewer_left(adj.dom(), visited, next, r);
                lemma_walk_keeps(adj, pins, own, rest, next);
            }
        }
    }
}

/// Whether `id` is the owner of some pin.
pub open spec fn owns_a_pin(pins: Map<Coordinate, Seq<char>>, id: Seq<char>) -> bool {
    exists|p: Coordinate| pins.contains_key(p) && #[trigger] pins[p] == id
}

/// A walk walks through wire ends that are no pins, and records owners of
/// pins only.
pub proof fn lemma_walk_sound(
    adj: Map<Coordinate, Seq<Coordinate>>,
    pins: Map<Coordinate, Seq<char>>,
    own: Option<Seq<char>>,
    routes: Seq<Coordinate>,
    visited: Set<Coordinate>,
)
    requires
        adj.dom().finite(),
    ensures
        walk(adj, pins, own, routes, visited) matches Ok(w) ==> {
            &&& forall|c: Coordinate|
                #[trigger] w.visited.contains(c) && !visited.contains(c) ==> adj.contains_key(c)
                    && !pins.contains_key(c)
            &&& forall|i: int| 0 <= i < w.found.len() ==> owns_a_pin(pins, #[trigger] w.found[i])
        },
    decreases (adj.dom() - visited).len(), routes.len(),
{
    if routes.len() > 0 {
        let r = routes[0];
        let rest = routes.drop_first();
        if visited.contains(r) {
            lemma_walk_sound(adj, pins, own, rest, visited);
        } else if pins.contains_key(r) {
            lemma_walk_sound(adj, pins, own, rest, visited);
            assert(owns_a_pin(pins, pins[r]));
        } else if adj.contains_key(r) {
            lemma_fewer_left(adj.dom(), visited, visited.insert(r), r);
            lemma_walk_sound(adj, pins, own, adj[r], visited.insert(r));
            if let Ok(below) = walk(adj, pins, own, adj[r], visited.insert(r)) {
                let next = below.visited + visited.insert(r);
                lemma_fewer_left(adj.dom(), visited, next, r);
                lemma_walk_sound(adj, pins, own, rest, next);
            }
        }
    }
}

/// Where every neighbour has neighbours of its own, a walk over routes at
/// which wires end cannot fail.
pub proof fn lemma_walk_succeeds(
    adj: Map<Coordinate, Seq<Coordinate>>,
    pins: Map<Coordinate, Seq<char>>,
    own: Option<Seq<char>>,
    routes: Seq<Coordinate>,
    visited: Set<Coordinate>,
)
    requires
        adj.dom().finite(),
        leads_on(adj),
        forall|i: int| 0 <= i < routes.len() ==> adj.contains_key(#[trigger] routes[i]),
    ensures
        walk(adj, pins, own, routes, visited) is Ok,
    decreases (adj.dom() - visited).len(), routes.len(),
{
    if routes.len() > 0 {
        let r = routes[0];
        let rest = routes.drop_first();
        assert(adj.contains_key(r));
        assert forall|i: int| 0 <= i < rest.len() implies adj.contains_key(#[trigger] rest[i]) by {
            assert(rest[i] == routes[i + 1]);
        }
        if visited.contains(r) {
            lemma_walk_succeeds(adj, pins, own, rest, visited);
        } else if pins.contains_key(r) {
            lemma_walk_succeeds(adj, pins, own, rest, visited);
        } else {
            assert forall|i: int| 0 <= i < adj[r].len() implies adj.contains_key(
                #[trigger] adj[r][i],
            ) by {
                assert(adj[r].contains(adj[r][i]));
            }
            lemma_fewer_left(adj.dom(), visited, visited.insert(r), r);
            lemma_walk_succeeds(adj, pins, own, adj[r], visited.insert(r));
            let below = walk(adj, pins, own, adj[r], visited.insert(r))->Ok_0;
            let next = below.visited + visited.insert(r);
            lemma_fewer_left(adj.dom(), visited, next, r);
            lemma_walk_succeeds(adj, pins, own, rest, next);
        }
    }
}

/// Over the adjacency of a list of wires, resolving the destinations of a
/// component fails only where no wire ends at the component's coordinate:
/// no route of such an adjacency dangles.
pub proof fn lemma_wired_resolution(
    wires: Seq<Wire>,
    pins: Map<Coordinate, Seq<char>>,
    component: ComponentView,
)
    ensures
        match destinations(adjacency(wires), pins, component) {
            Ok(_) => adjacency(wires).contains_key(component.loc),
            Err(e) => e == CircError::NoWireAtComponent(component.loc) && !adjacency(
                wires,
            ).contains_key(component.loc),
        },
{
    let adj = adjacency(wires);
    if adj.contains_key(component.loc) {
        lemma_adjacency_finite(wires);
        lemma_adjacency_leads_on(wires);
        let routes = adj[component.loc];
        assert forall|i: int| 0 <= i < routes.len() implies adj.contains_key(
            #[trigger] routes[i],
        ) by {
            assert(routes.contains(routes[i]));
        }
        lemma_walk_succeeds(
            adj,
            pins,
            Some(component.id),
            routes,
            Set::empty().insert(component.loc),
        );
    }
}

/// Whether `c` is among `visited`.
fn seen(visited: &Vec<Coordinate>, c: Coordinate) -> (r: bool)
    ensures
        r == visited@.contains(c),
{
    let mut i: usize = 0;
    while i < visited.len()
        invariant
            i <= visited.len(),
            forall|j: int| 0 <= j < i ==> visited@[j] != c,
        decreases visited.len() - i,
    {
        if visited[i] == c {
            return true;
        }
        i += 1;
    }
    false
}

/// Walks over `routes`, one after the other, and hands back the ids it came
/// upon. `visited` holds the grid points that were walked through before,
/// and gets those that this walk walks through, each once.
pub fn walk_routes(
    wires: &WireMap,
    pins: &PinMap,
    own: Option<&String>,
    routes: &Vec<Coordinate>,
    visited: &mut Vec<Coordinate>,
) -> (r: Result<Vec<String>, CircError>)
    ensures
        match r {
            Ok(found) => walk(wires@, pins@, own_text(own), routes@, old(visited)@.to_set())
                matches Ok(w) && w.found == texts(found@) && w.visited
                == final(visited)@.to_set(),
            Err(e) => walk(wires@, pins@, own_text(own), routes@, old(visited)@.to_set())
                == Err::<Walk, CircError>(e),
        },
        old(visited)@.is_prefix_of(final(visited)@),
        old(visited)@.no_duplicates() ==> final(visited)@.no_duplicates(),
    decreases (wires@.dom() - old(visited)@.to_set()).len(), routes@.len(),
{
    let ghost start = old(visited)@.to_set();
    let ghost goal = walk(wires@, pins@, own_text(own), routes@, start);
    let mut found: Vec<String> = Vec::new();
    let mut i: usize = 0;
    proof {
        wires.lemma_finite();
        assert(routes@.skip(0) =~= routes@);
        assert(texts(found@) =~= Seq::<Seq<char>>::empty());
        if let Ok(w) = goal {
            assert(texts(found@) + w.found =~= w.found);
        }
    }
    while i < routes.len()
        invariant
            i <= routes.len(),
            wires@.dom().finite(),
            start == old(visited)@.to_set(),
            goal == walk(wires@, pins@, own_text(own), routes@, start),
            old(visited)@.is_prefix_of(visited@),
            old(visited)@.no_duplicates() ==> visited@.no_duplicates(),
            match walk(wires@, pins@, own_text(own), routes@.skip(i as int), visited@.to_set()) {
                Err(e) => goal == Err::<Walk, CircError>(e),
                Ok(w) => goal matches Ok(g) && g.found == texts(found@) + w.found && g.visited
                    == w.visited,
            },
        decreases routes.len() - i,
    {
        let r = routes[i];
        let ghost left = routes@.skip(i as int);
        let ghost here = visited@.to_set();
        proof {
            assert(left[0] == r);
            assert(left.drop_first() =~= routes@.skip(i + 1));
        }
        if !seen(visited, r) {
            match pins.get(r) {
                Some(id) => {
                    let ghost had = found@;
                    let mine = match own {
                        Some(o) => *o == *id,
                        None => false,
                    };
                    if !mine {
                        found.push(id.clone());
                    }
                    proof {
                        assert(texts(found@) =~= texts(had) + recorded(
                            own_text(own),
                            pins@[r],
                        ));
                    }
                },
                None => match wires.get(r) {
                    Some(next) => {
                        let ghost was = visited@;
                        visited.push(r);
                        proof {
                            was.lemma_push_to_set_commute(r);
                            assert(visited@.to_set() =~= here.insert(r));
                            assert forall|a: int, b: int|
                                0 <= a < visited@.len() && 0 <= b < visited@.len() && a != b
                                    && was.no_duplicates() implies visited@[a] != visited@[b] by {
                                if a == was.len() {
                                    assert(was[b] == visited@[b]);
                                } else if b == was.len() {
                                    assert(was[a] == visited@[a]);
                                }
                            }
                            assert forall|c: Coordinate| start.contains(c) implies here.contains(
                                c,
                            ) by {
                                let k = choose|k: int|
                                    0 <= k < old(visited)@.len() && old(visited)@[k] == c;
                                assert(was[k] == c);
                            }
                            lemma_fewer_left(wires@.dom(), start, here.insert(r), r);
                        }
                        let mut below = match walk_routes(wires, pins, own, next, visited) {
                            Ok(below) => below,
                            Err(e) => {
                                return Err(e);
                            },
                        };
                        proof {
                            let after = visited@.to_set();
                            assert forall|c: Coordinate| here.insert(r).contains(c) implies after.contains(
                            c) by {
                                let grown = was.push(r);
                                let k = choose|k: int| 0 <= k < grown.len() && grown[k] == c;
                                assert(visited@[k] == c);
                            }
                            assert(after + here.insert(r) =~= after);
                            assert(texts(found@ + below@) =~= texts(found@) + texts(below@));
                        }
                        found.append(&mut below);
                    },
                    None => {
                        return Err(CircError::DanglingRoute(r));
                    },
                },
            }
        }
        i += 1;
    }
    Ok(found)
}

/// Whether `r` is what resolving the destinations of `component` comes to.
pub open spec fn resolves_to(
    adj: Map<Coordinate, Seq<Coordinate>>,
    pins: Map<Coordinate, Seq<char>>,
    component: ComponentView,
    r: Result<Vec<String>, CircError>,
) -> bool {
    match r {
        Ok(found) => destinations(adj, pins, component) == Ok::<Seq<Seq<char>>, CircError>(
            texts(found@),
        ),
        Err(e) => destinations(adj, pins, component) == Err::<Seq<Seq<char>>, CircError>(e),
    }
}

/// Resolving twice comes to the same: the same failure, or the same
/// destinations in the same order, and so the same set of them. No walk
/// leaves anything behind for the next.
pub proof fn lemma_resolving_repeats(
    adj: Map<Coordinate, Seq<Coordinate>>,
    pins: Map<Coordinate, Seq<char>>,
    component: ComponentView,
    first: Result<Vec<String>, CircError>,
    second: Result<Vec<String>, CircError>,
)
    requires
        resolves_to(adj, pins, component, first),
        resolves_to(adj, pins, component, second),
    ensures
        match (first, second) {
            (Ok(a), Ok(b)) => texts(a@) == texts(b@) && texts(a@).to_set() == texts(b@).to_set(),
            (Err(a), Err(b)) => a == b,
            _ => false,
        },
{
}

/// The destinations of a component never hold the component's own id,
/// whatever the wires and whoever owns the pins.
pub proof fn lemma_destinations_exclude_own(
    wires: Seq<Wire>,
    pins: Map<Coordinate, Seq<char>>,
    component: ComponentView,
)
    ensures
        destinations(adjacency(wires), pins, component) matches Ok(found) ==> !found.contains(
            component.id,
        ),
{
    let adj = adjacency(wires);
    lemma_adjacency_finite(wires);
    if adj.contains_key(component.loc) {
        lemma_walk_keeps(
            adj,
            pins,
            Some(component.id),
            adj[component.loc],
            Set::empty().insert(component.loc),
        );
    }
}

/// Finds the components that `component` is wired to, directly or through
/// junctions, in the order in which the walk comes upon them. A component
/// may be found more than once; `component` itself is never among them.
pub fn resolve_destinations(component: &Component, pins: &PinMap, wires: &WireMap) -> (r: Result<
    Vec<String>,
    CircError,
>)
    ensures
        resolves_to(wires@, pins@, component@, r),
        r matches Ok(found) ==> forall|i: int|
            0 <= i < found@.len() ==> (#[trigger] found@[i])@ != component.id@,
{
    match wires.get(component.loc) {
        None => Err(CircError::NoWireAtComponent(component.loc)),
        Some(routes) => {
            let mut visited: Vec<Coordinate> = Vec::new();
            visited.push(component.loc);
            proof {
                wires.lemma_finite();
                assert(visited@ =~= Seq::<Coordinate>::empty().push(component.loc));
                Seq::<Coordinate>::empty().lemma_push_to_set_commute(component.loc);
                assert(Seq::<Coordinate>::empty().to_set() =~= Set::<Coordinate>::empty());
                assert(visited@.to_set() =~= Set::empty().insert(component.loc));
                lemma_walk_keeps(
                    wires@,
                    pins@,
                    Some(component.id@),
                    routes@,
                    Set::empty().insert(component.loc),
                );
            }
            let r = walk_routes(wires, pins, Some(&component.id), routes, &mut visited);
            proof {
                if let Ok(found) = &r {
                    assert forall|i: int| 0 <= i < found@.len() implies (#[trigger] found@[i])@
                        != component.id@ by {
                        assert(texts(found@)[i] == found@[i]@);
                    }
                }
            }
            r
        },
    }
}

/// What a walk from `module` finds: the destinations of a component, or
/// what the walk over a list of routes comes upon with nothing walked
/// through before.
pub open spec fn walk_result(
    adj: Map<Coordinate, Seq<Coordinate>>,
    pins: Map<Coordinate, Seq<char>>,
    module: ModuleType,
) -> Result<Seq<Seq<char>>, CircError> {
    match module {
        ModuleType::Component(component) => destinations(adj, pins, component@),
        ModuleType::WireDestinations(routes) => match walk(
            adj,
            pins,
            None,
            routes@,
            Set::empty(),
        ) {
            Ok(w) => Ok(w.found),
            Err(e) => Err(e),
        },
    }
}

/// Walks from `module` and hands back the ids that the walk comes upon.
pub fn track_wire_destinations(module: ModuleType, pins: &PinMap, wires: &WireMap) -> (r: Result<
    Vec<String>,
    CircError,
>)
    ensures
        match r {
            Ok(found) => walk_result(wires@, pins@, module) == Ok::<Seq<Seq<char>>, CircError>(
                texts(found@),
            ),
            Err(e) => walk_result(wires@, pins@, module) == Err::<Seq<Seq<char>>, CircError>(e),
        },
{
    match module {
        ModuleType::Component(component) => resolve_destinations(&component, pins, wires),
        ModuleType::WireDestinations(routes) => {
            let mut visited: Vec<Coordinate> = Vec::new();
            assert(visited@.to_set() =~= Set::<Coordinate>::empty());
            walk_routes(wires, pins, None, &routes, &mut visited)
        },
    }
}

} // verus!
