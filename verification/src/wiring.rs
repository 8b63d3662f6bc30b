//! The two maps that a resolution pass is built on: which grid points wires
//! join, and which component owns the pin at a grid point.

use std::collections::HashMap;
use vstd::prelude::*;
use vstd::std_specs::hash::group_hash_axioms;
use crate::error::CircError;
use crate::layout::{calculate_input_coords, pin_layout};
use crate::types::{component_views, Component, ComponentView, Coordinate, Wire};

verus! {

/// The number under which a grid point is filed.
pub closed spec fn grid_key(c: Coordinate) -> u64 {
    (c.x * 0x1_0000_0000 + c.y) as u64
}

/// The grid point that is filed under a number.
pub closed spec fn key_point(k: u64) -> Coordinate {
    Coordinate { x: (k / 0x1_0000_0000) as u32, y: (k % 0x1_0000_0000) as u32 }
}

/// Grid points and the numbers they are filed under correspond one to one.
proof fn lemma_keys(c: Coordinate, k: u64)
    ensures
        key_point(grid_key(c)) == c,
        grid_key(key_point(k)) == k,
{
}

fn key_of(c: Coordinate) -> (k: u64)
    ensures
        k == grid_key(c),
{
    c.x as u64 * 0x1_0000_0000 + c.y as u64
}

/// The grid points that wires join `c` to: for each wire that ends at `c`,
/// in the order of the wires, its other end. A wire from `c` to `c` counts
/// for both of its ends.
pub open spec fn neighbours(wires: Seq<Wire>, c: Coordinate) -> Seq<Coordinate>
    decreases wires.len(),
{
    if wires.len() == 0 {
        Seq::empty()
    } else {
        let w = wires.last();
        let before = neighbours(wires.drop_last(), c);
        let with_from = if w.from == c {
            before.push(w.to)
        } else {
            before
        };
        if w.to == c {
            with_from.push(w.from)
        } else {
            with_from
        }
    }
}

/// The adjacency of a list of wires: every grid point at which a wire ends,
/// with its neighbours.
pub open spec fn adjacency(wires: Seq<Wire>) -> Map<Coordinate, Seq<Coordinate>> {
    Map::new(
        |c: Coordinate| neighbours(wires, c).len() > 0,
        |c: Coordinate| neighbours(wires, c),
    )
}

/// Adjacency is symmetric: `b` is a neighbour of `a` exactly when `a` is a
/// neighbour of `b`.
pub proof fn lemma_neighbours_symmetric(wires: Seq<Wire>, a: Coordinate, b: Coordinate)
    ensures
        neighbours(wires, a).contains(b) <==> neighbours(wires, b).contains(a),
    decreases wires.len(),
{
    if wires.len() > 0 {
        let w = wires.last();
        lemma_neighbours_symmetric(wires.drop_last(), a, b);
        lemma_neighbours_step(wires, a, b);
        lemma_neighbours_step(wires, b, a);
    }
}

/// What the last wire adds to the neighbours of a grid point.
proof fn lemma_neighbours_step(wires: Seq<Wire>, a: Coordinate, b: Coordinate)
    requires
        wires.len() > 0,
    ensures
        neighbours(wires, a).contains(b) <==> neighbours(wires.drop_last(), a).contains(b) || (
        wires.last().from == a && wires.last().to == b) || (wires.last().to == a
            && wires.last().from == b),
{
    let w = wires.last();
    let before = neighbours(wires.drop_last(), a);
    let with_from = if w.from == a {
        before.push(w.to)
    } else {
        before
    };
    let all = neighbours(wires, a);
    if w.from == a {
        assert(with_from.last() == w.to);
        assert forall|x: Coordinate| with_from.contains(x) <==> before.contains(x) || x
            == w.to by {
            if with_from.contains(x) {
                let i = choose|i: int| 0 <= i < with_from.len() && with_from[i] == x;
                if i < before.len() {
                    assert(before[i] == x);
                }
            }
            if before.contains(x) {
                let i = choose|i: int| 0 <= i < before.len() && before[i] == x;
                assert(with_from[i] == x);
            }
            if x == w.to {
                assert(with_from[with_from.len() - 1] == x);
            }
        }
    }
    if w.to == a {
        assert(all.last() == w.from);
        assert forall|x: Coordinate| all.contains(x) <==> with_from.contains(x) || x
            == w.from by {
            if all.contains(x) {
                let i = choose|i: int| 0 <= i < all.len() && all[i] == x;
                if i < with_from.len() {
                    assert(with_from[i] == x);
                }
            }
            if with_from.contains(x) {
                let i = choose|i: int| 0 <= i < with_from.len() && with_from[i] == x;
                assert(all[i] == x);
            }
            if x == w.from {
                assert(all[all.len() - 1] == x);
            }
        }
    }
}

/// In the adjacency map too: `a` lists `b` exactly when `b` lists `a`.
pub proof fn lemma_adjacency_symmetric(wires: Seq<Wire>, a: Coordinate, b: Coordinate)
    ensures
        (adjacency(wires).contains_key(a) && adjacency(wires)[a].contains(b)) <==> (adjacency(
            wires,
        ).contains_key(b) && adjacency(wires)[b].contains(a)),
{
    lemma_neighbours_symmetric(wires, a, b);
}

/// Only the ends of wires have neighbours, so only finitely many grid
/// points do.
pub proof fn lemma_adjacency_finite(wires: Seq<Wire>)
    ensures
        adjacency(wires).dom().finite(),
    decreases wires.len(),
{
    if wires.len() == 0 {
        assert(adjacency(wires).dom() =~= Set::<Coordinate>::empty());
    } else {
        let w = wires.last();
        let before = adjacency(wires.drop_last()).dom();
        lemma_adjacency_finite(wires.drop_last());
        assert(adjacency(wires).dom().subset_of(before.insert(w.from).insert(w.to)));
        vstd::set_lib::lemma_set_subset_finite(
            before.insert(w.from).insert(w.to),
            adjacency(wires).dom(),
        );
    }
}

/// Whether every neighbour in `adj` has neighbours of its own.
pub open spec fn leads_on(adj: Map<Coordinate, Seq<Coordinate>>) -> bool {
    forall|a: Coordinate, b: Coordinate|
        adj.contains_key(a) && #[trigger] adj[a].contains(b) ==> #[trigger] adj.contains_key(b)
}

/// In the adjacency of a list of wires every neighbour has neighbours of
/// its own: a wire that leads somewhere leads back.
pub proof fn lemma_adjacency_leads_on(wires: Seq<Wire>)
    ensures
        leads_on(adjacency(wires)),
{
    let adj = adjacency(wires);
    assert forall|a: Coordinate, b: Coordinate|
        adj.contains_key(a) && #[trigger] adj[a].contains(b) implies #[trigger] adj.contains_key(
        b,
    ) by {
        lemma_neighbours_symmetric(wires, a, b);
    }
}

/// For each grid point at which a wire ends, the grid points that wires
/// join it to.
pub struct WireMap {
    map: HashMap<u64, Vec<Coordinate>>,
}

impl View for WireMap {
    type V = Map<Coordinate, Seq<Coordinate>>;

    closed spec fn view(&self) -> Map<Coordinate, Seq<Coordinate>> {
        Map::new(
            |c: Coordinate| self.map@.contains_key(grid_key(c)),
            |c: Coordinate| self.map@[grid_key(c)]@,
        )
    }
}

impl WireMap {
    /// A map without wires.
    pub fn new() -> (r: WireMap)
        ensures
            r@ == Map::<Coordinate, Seq<Coordinate>>::empty(),
    {
        let r = WireMap { map: HashMap::new() };
        assert(r@ =~= Map::<Coordinate, Seq<Coordinate>>::empty());
        r
    }

    /// The neighbours of `c`, where a wire ends at `c`.
    pub fn get(&self, c: Coordinate) -> (r: Option<&Vec<Coordinate>>)
        ensures
            match r {
                Some(v) => self@.contains_key(c) && self@[c] == v@,
                None => !self@.contains_key(c),
            },
    {
        broadcast use group_hash_axioms;

        let k = key_of(c);
        self.map.get(&k)
    }

    /// Whether a wire ends at `c`.
    pub fn contains_key(&self, c: Coordinate) -> (r: bool)
        ensures
            r == self@.contains_key(c),
    {
        broadcast use group_hash_axioms;

        let k = key_of(c);
        self.map.contains_key(&k)
    }

    /// Adds `to` behind the neighbours of `from`.
    pub fn connect(&mut self, from: Coordinate, to: Coordinate)
        ensures
            final(self)@ == old(self)@.insert(
                from,
                (if old(self)@.contains_key(from) {
                    old(self)@[from]
                } else {
                    Seq::empty()
                }).push(to),
            ),
    {
        broadcast use group_hash_axioms;

        let k = key_of(from);
        let mut ends: Vec<Coordinate> = match self.map.remove(&k) {
            Some(v) => v,
            None => Vec::new(),
        };
        ends.push(to);
        self.map.insert(k, ends);
        proof {
            let want = old(self)@.insert(
                from,
                (if old(self)@.contains_key(from) {
                    old(self)@[from]
                } else {
                    Seq::empty()
                }).push(to),
            );
            assert forall|c: Coordinate| self@.contains_key(c) <==> want.contains_key(c) by {
                lemma_keys(c, 0);
                lemma_keys(from, 0);
            }
            assert forall|c: Coordinate| self@.contains_key(c) implies self@[c] == want[c] by {
                lemma_keys(c, 0);
                lemma_keys(from, 0);
            }
            assert(self@ =~= want);
        }
    }

    /// Only finitely many grid points have neighbours.
    pub proof fn lemma_finite(&self)
        ensures
            self@.dom().finite(),
    {
        broadcast use group_hash_axioms;

        let keys = self.map@.dom();
        let points = keys.map(|k: u64| key_point(k));
        keys.lemma_map_finite(|k: u64| key_point(k));
        assert forall|c: Coordinate| self@.dom().contains(c) implies points.contains(c) by {
            lemma_keys(c, 0);
            assert(keys.contains(grid_key(c)));
        }
        assert(self@.dom().subset_of(points));
        vstd::set_lib::lemma_set_subset_finite(points, self@.dom());
    }
}

/// Builds the adjacency map of a list of wires.
pub fn map_wires_by_location(wires: &Vec<Wire>) -> (r: WireMap)
    ensures
        r@ == adjacency(wires@),
{
    let mut map = WireMap::new();
    let mut i: usize = 0;
    assert(wires@.take(0) =~= Seq::<Wire>::empty());
    assert(map@ =~= adjacency(wires@.take(0)));
    while i < wires.len()
        invariant
            i <= wires.len(),
            map@ == adjacency(wires@.take(i as int)),
        decreases wires.len() - i,
    {
        let w = wires[i];
        let ghost before = map@;
        map.connect(w.from, w.to);
        map.connect(w.to, w.from);
        proof {
            let next = wires@.take(i + 1);
            assert(next.drop_last() =~= wires@.take(i as int));
            assert(next.last() == w);
            assert forall|c: Coordinate| map@.contains_key(c) <==> adjacency(next).contains_key(
                c,
            ) by {}
            assert forall|c: Coordinate| map@.contains_key(c) implies map@[c] == adjacency(
                next,
            )[c] by {
                assert(neighbours(next, c) =~= map@[c]);
            }
            assert(map@ =~= adjacency(next));
        }
        i += 1;
    }
    assert(wires@.take(i as int) =~= wires@);
    map
}

/// The pin coordinates of a component; none where its layout fails.
pub open spec fn pins_of(component: ComponentView) -> Seq<Coordinate> {
    match pin_layout(component) {
        Ok(pins) => pins,
        Err(_) => Seq::empty(),
    }
}

/// The position of the component that owns the pin at `c`: the last of
/// `components` that has a pin there.
pub open spec fn pin_owner(components: Seq<ComponentView>, c: Coordinate) -> Option<int>
    decreases components.len(),
{
    if components.len() == 0 {
        None
    } else if pins_of(components.last()).contains(c) {
        Some(components.len() - 1)
    } else {
        pin_owner(components.drop_last(), c)
    }
}

/// The pin-location map of a list of components: every grid point at which
/// one of them has a pin, with the id of the component that owns it.
pub open spec fn pin_map(components: Seq<ComponentView>) -> Map<Coordinate, Seq<char>> {
    Map::new(
        |c: Coordinate| pin_owner(components, c) is Some,
        |c: Coordinate| components[pin_owner(components, c)->0].id,
    )
}

/// Why the first component whose layout fails has no pins; `None` where
/// every layout succeeds.
pub open spec fn layout_failure(components: Seq<ComponentView>) -> Option<CircError>
    decreases components.len(),
{
    if components.len() == 0 {
        None
    } else {
        match layout_failure(components.drop_last()) {
            Some(e) => Some(e),
            None => match pin_layout(components.last()) {
                Err(e) => Some(e),
                Ok(_) => None,
            },
        }
    }
}

/// The owner of a pin is one of the components, and has a pin there.
pub proof fn lemma_pin_owner(components: Seq<ComponentView>, c: Coordinate)
    ensures
        match pin_owner(components, c) {
            Some(i) => 0 <= i < components.len() && pins_of(components[i]).contains(c),
            None => forall|i: int|
                0 <= i < components.len() ==> !pins_of(#[trigger] components[i]).contains(c),
        },
    decreases components.len(),
{
    if components.len() > 0 && !pins_of(components.last()).contains(c) {
        lemma_pin_owner(components.drop_last(), c);
        assert forall|i: int| 0 <= i < components.len() - 1 implies components[i]
            == components.drop_last()[i] by {}
    }
}

/// For each grid point at which a component has a pin, the id of that
/// component.
pub struct PinMap {
    map: HashMap<u64, String>,
}

impl View for PinMap {
    type V = Map<Coordinate, Seq<char>>;

    closed spec fn view(&self) -> Map<Coordinate, Seq<char>> {
        Map::new(
            |c: Coordinate| self.map@.contains_key(grid_key(c)),
            |c: Coordinate| self.map@[grid_key(c)]@,
        )
    }
}

impl PinMap {
    /// A map without pins.
    pub fn new() -> (r: PinMap)
        ensures
            r@ == Map::<Coordinate, Seq<char>>::empty(),
    {
        let r = PinMap { map: HashMap::new() };
        assert(r@ =~= Map::<Coordinate, Seq<char>>::empty());
        r
    }

    /// The id of the component that owns the pin at `c`, where there is
    /// one.
    pub fn get(&self, c: Coordinate) -> (r: Option<&String>)
        ensures
            match r {
                Some(id) => self@.contains_key(c) && self@[c] == id@,
                None => !self@.contains_key(c),
            },
    {
        broadcast use group_hash_axioms;

        let k = key_of(c);
        self.map.get(&k)
    }

    /// Gives the pin at `c` to the component `id`, whoever owned it before.
    pub fn insert(&mut self, c: Coordinate, id: String)
        ensures
            final(self)@ == old(self)@.insert(c, id@),
    {
        broadcast use group_hash_axioms;

        let k = key_of(c);
        self.map.insert(k, id);
        proof {
            let want = old(self)@.insert(c, id@);
            assert forall|p: Coordinate| self@.contains_key(p) <==> want.contains_key(p) by {
                lemma_keys(p, 0);
                lemma_keys(c, 0);
            }
            assert forall|p: Coordinate| self@.contains_key(p) implies self@[p] == want[p] by {
                lemma_keys(p, 0);
                lemma_keys(c, 0);
            }
            assert(self@ =~= want);
        }
    }
}

/// Builds the pin-location map of a list of components, or says why the
/// first component whose layout fails has no pins.
pub fn map_components_by_location(components: &Vec<Component>) -> (r: Result<PinMap, CircError>)
    ensures
        match r {
            Ok(m) => layout_failure(component_views(components@)) is None && m@ == pin_map(
                component_views(components@),
            ),
            Err(e) => layout_failure(component_views(components@)) == Some(e),
        },
{
    let ghost all = component_views(components@);
    let mut map = PinMap::new();
    let mut i: usize = 0;
    assert(all.take(0) =~= Seq::<ComponentView>::empty());
    assert(map@ =~= pin_map(all.take(0)));
    while i < components.len()
        invariant
            i <= components.len(),
            all == component_views(components@),
            layout_failure(all.take(i as int)) is None,
            map@ == pin_map(all.take(i as int)),
        decreases components.len() - i,
    {
        let ghost next = all.take(i + 1);
        assert(next.drop_last() =~= all.take(i as int));
        assert(next.last() == components@[i as int]@);
        let coords = match calculate_input_coords(&components[i]) {
            Ok(coords) => coords,
            Err(e) => {
                proof {
                    lemma_layout_failure_stays(all, i + 1);
                }
                return Err(e);
            },
        };
        let ghost before = map@;
        let mut j: usize = 0;
        while j < coords.len()
            invariant
                j <= coords.len(),
                i < components.len(),
                forall|c: Coordinate| #[trigger]
                    map@.contains_key(c) <==> before.contains_key(c) || coords@.take(
                        j as int,
                    ).contains(c),
                forall|c: Coordinate| #[trigger]
                    map@.contains_key(c) ==> map@[c] == if coords@.take(j as int).contains(c) {
                        components@[i as int].id@
                    } else {
                        before[c]
                    },
            decreases coords.len() - j,
        {
            let ghost seen = coords@.take(j as int);
            map.insert(coords[j], components[i].id.clone());
            proof {
                let grown = coords@.take(j + 1);
                assert(grown.drop_last() =~= seen);
                assert(grown.last() == coords@[j as int]);
                assert forall|c: Coordinate| grown.contains(c) <==> seen.contains(c) || c
                    == coords@[j as int] by {
                    if grown.contains(c) {
                        let k = choose|k: int| 0 <= k < grown.len() && grown[k] == c;
                        if k < seen.len() {
                            assert(seen[k] == c);
                        }
                    }
                    if seen.contains(c) {
                        let k = choose|k: int| 0 <= k < seen.len() && seen[k] == c;
                        assert(grown[k] == c);
                    }
                    if c == coords@[j as int] {
                        assert(grown[j as int] == c);
                    }
                }
            }
            j += 1;
        }
        proof {
            assert(coords@.take(j as int) =~= coords@);
            assert(pins_of(next.last()) == coords@);
            assert forall|c: Coordinate| map@.contains_key(c) <==> pin_map(next).contains_key(
                c,
            ) by {}
            assert forall|c: Coordinate| map@.contains_key(c) implies map@[c] == pin_map(
                next,
            )[c] by {
                if !coords@.contains(c) {
                    lemma_pin_owner(next.drop_last(), c);
                }
            }
            assert(map@ =~= pin_map(next));
        }
        i += 1;
    }
    assert(all.take(i as int) =~= all);
    Ok(map)
}

/// A failure among the first `k` components is the failure of the whole
/// list.
proof fn lemma_layout_failure_stays(components: Seq<ComponentView>, k: int)
    requires
        0 <= k <= components.len(),
        layout_failure(components.take(k)) is Some,
    ensures
        layout_failure(components) == layout_failure(components.take(k)),
    decreases components.len() - k,
{
    if k == components.len() {
        assert(components.take(k) =~= components);
    } else {
        assert(components.take(k + 1).drop_last() =~= components.take(k));
        lemma_layout_failure_stays(components, k + 1);
    }
}

} // verus!
