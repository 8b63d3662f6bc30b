use logic_lib::error::CircError;
use logic_lib::resolve::{resolve_destinations, track_wire_destinations, walk_routes};
use logic_lib::types::{Component, ComponentType, Coordinate, ModuleType, Wire};
use logic_lib::wiring::{map_components_by_location, map_wires_by_location, PinMap, WireMap};

fn at(x: u32, y: u32) -> Coordinate {
    Coordinate { x, y }
}

fn wire(a: Coordinate, b: Coordinate) -> Wire {
    Wire { from: a, to: b }
}

fn pin(id: &str, loc: Coordinate) -> Component {
    Component {
        lib: 0,
        name: String::from("Pin"),
        loc,
        id: String::from(id),
        attributes: vec![],
        component_type: ComponentType::PIN,
    }
}

fn gate(id: &str, kind: ComponentType, loc: Coordinate) -> Component {
    Component {
        lib: 1,
        name: String::from("gate"),
        loc,
        id: String::from(id),
        attributes: vec![],
        component_type: kind,
    }
}

fn maps(components: &Vec<Component>, wires: &Vec<Wire>) -> (PinMap, WireMap) {
    (map_components_by_location(components).unwrap(), map_wires_by_location(wires))
}

fn ids(v: &[&str]) -> Vec<String> {
    v.iter().map(|s| s.to_string()).collect()
}

#[test]
fn wire_from_a_pin_to_a_gate_input() {
    let comps = vec![pin("in", at(160, 130)), gate("and", ComponentType::AND, at(240, 140))];
    let wires = vec![wire(at(160, 130), at(210, 130))];
    let (pins, adj) = maps(&comps, &wires);
    assert_eq!(resolve_destinations(&comps[0], &pins, &adj), Ok(ids(&["and"])));
}

#[test]
fn component_without_a_wire() {
    let comps = vec![pin("in", at(160, 130)), gate("and", ComponentType::AND, at(240, 140))];
    let wires = vec![wire(at(160, 130), at(210, 130))];
    let (pins, adj) = maps(&comps, &wires);
    assert_eq!(
        resolve_destinations(&comps[1], &pins, &adj),
        Err(CircError::NoWireAtComponent(at(240, 140)))
    );
}

#[test]
fn walk_goes_through_junctions() {
    let comps = vec![
        pin("in", at(10, 10)),
        gate("a", ComponentType::AND, at(130, 20)),
        gate("b", ComponentType::NOT, at(120, 50)),
        pin("out", at(60, 90)),
    ];
    let wires = vec![
        wire(at(10, 10), at(50, 10)),
        wire(at(50, 10), at(100, 10)),
        wire(at(50, 10), at(50, 50)),
        wire(at(50, 50), at(100, 50)),
        wire(at(50, 50), at(50, 90)),
        wire(at(50, 90), at(60, 90)),
    ];
    let (pins, adj) = maps(&comps, &wires);
    assert_eq!(resolve_destinations(&comps[0], &pins, &adj), Ok(ids(&["a", "b", "out"])));
    assert_eq!(resolve_destinations(&comps[3], &pins, &adj), Ok(ids(&["in", "a", "b"])));
}

#[test]
fn discovery_order_follows_the_wires() {
    let comps = vec![
        pin("in", at(10, 10)),
        pin("x", at(20, 10)),
        pin("y", at(10, 20)),
        pin("z", at(10, 0)),
    ];
    let wires = vec![
        wire(at(10, 10), at(10, 20)),
        wire(at(10, 0), at(10, 10)),
        wire(at(10, 10), at(20, 10)),
    ];
    let (pins, adj) = maps(&comps, &wires);
    assert_eq!(resolve_destinations(&comps[0], &pins, &adj), Ok(ids(&["y", "z", "x"])));
}

#[test]
fn a_component_can_be_found_more_than_once() {
    let comps = vec![pin("in", at(10, 10)), gate("and", ComponentType::AND, at(130, 20))];
    let wires = vec![
        wire(at(10, 10), at(100, 10)),
        wire(at(10, 10), at(100, 30)),
        wire(at(10, 10), at(100, 10)),
    ];
    let (pins, adj) = maps(&comps, &wires);
    assert_eq!(resolve_destinations(&comps[0], &pins, &adj), Ok(ids(&["and", "and", "and"])));
}

#[test]
fn closed_loop_of_wires_ends() {
    let comps = vec![pin("in", at(0, 0))];
    let wires = vec![
        wire(at(0, 0), at(10, 0)),
        wire(at(10, 0), at(10, 10)),
        wire(at(10, 10), at(0, 10)),
        wire(at(0, 10), at(0, 0)),
    ];
    let (pins, adj) = maps(&comps, &wires);
    assert_eq!(resolve_destinations(&comps[0], &pins, &adj), Ok(ids(&[])));
}

#[test]
fn closed_loop_with_a_destination_on_it() {
    let comps = vec![pin("in", at(0, 0)), pin("out", at(20, 10))];
    let wires = vec![
        wire(at(0, 0), at(10, 0)),
        wire(at(10, 0), at(10, 10)),
        wire(at(10, 10), at(0, 0)),
        wire(at(10, 10), at(20, 10)),
    ];
    let (pins, adj) = maps(&comps, &wires);
    assert_eq!(resolve_destinations(&comps[0], &pins, &adj), Ok(ids(&["out"])));
    assert_eq!(resolve_destinations(&comps[1], &pins, &adj), Ok(ids(&["in", "in"])));
}

#[test]
fn own_pins_are_no_destination() {
    let comps = vec![gate("latch", ComponentType::NOR, at(100, 100)), pin("out", at(150, 100))];
    let wires = vec![
        wire(at(100, 100), at(120, 100)),
        wire(at(120, 100), at(150, 100)),
        wire(at(120, 100), at(120, 60)),
        wire(at(120, 60), at(60, 60)),
        wire(at(60, 60), at(60, 90)),
    ];
    let (pins, adj) = maps(&comps, &wires);
    assert_eq!(pins.get(at(60, 90)), Some(&"latch".to_string()));
    assert_eq!(resolve_destinations(&comps[0], &pins, &adj), Ok(ids(&["out"])));
    assert_eq!(resolve_destinations(&comps[1], &pins, &adj), Ok(ids(&["latch"])));
}

#[test]
fn resolving_never_holds_the_own_id() {
    let comps = vec![
        pin("p", at(0, 0)),
        gate("g", ComponentType::AND, at(130, 20)),
        gate("h", ComponentType::OR, at(230, 20)),
    ];
    let wires = vec![
        wire(at(0, 0), at(100, 10)),
        wire(at(130, 20), at(200, 10)),
        wire(at(130, 20), at(100, 30)),
        wire(at(230, 20), at(200, 30)),
        wire(at(230, 20), at(0, 0)),
    ];
    let (pins, adj) = maps(&comps, &wires);
    for c in &comps {
        let found = resolve_destinations(c, &pins, &adj).unwrap();
        assert!(!found.contains(&c.id));
    }
    assert_eq!(resolve_destinations(&comps[0], &pins, &adj), Ok(ids(&["g", "h"])));
    assert_eq!(resolve_destinations(&comps[1], &pins, &adj), Ok(ids(&["h"])));
    assert_eq!(resolve_destinations(&comps[2], &pins, &adj), Ok(ids(&["p"])));
}

#[test]
fn resolving_twice_finds_the_same() {
    let comps = vec![pin("in", at(0, 0)), pin("out", at(20, 10))];
    let wires = vec![
        wire(at(0, 0), at(10, 0)),
        wire(at(10, 0), at(10, 10)),
        wire(at(10, 10), at(0, 0)),
        wire(at(10, 10), at(20, 10)),
    ];
    let (pins, adj) = maps(&comps, &wires);
    for c in &comps {
        let first = resolve_destinations(c, &pins, &adj);
        let second = resolve_destinations(c, &pins, &adj);
        assert_eq!(first, second);
    }
}

#[test]
fn dangling_route() {
    let comps = vec![pin("in", at(0, 0))];
    let mut adj = WireMap::new();
    adj.connect(at(0, 0), at(10, 0));
    let pins = map_components_by_location(&comps).unwrap();
    assert_eq!(
        resolve_destinations(&comps[0], &pins, &adj),
        Err(CircError::DanglingRoute(at(10, 0)))
    );
}

#[test]
fn dangling_route_behind_a_junction_and_a_destination() {
    let comps = vec![pin("in", at(0, 0)), pin("out", at(10, 10))];
    let mut adj = WireMap::new();
    adj.connect(at(0, 0), at(10, 10));
    adj.connect(at(0, 0), at(10, 0));
    adj.connect(at(10, 0), at(20, 0));
    adj.connect(at(0, 0), at(30, 0));
    let pins = map_components_by_location(&comps).unwrap();
    assert_eq!(
        resolve_destinations(&comps[0], &pins, &adj),
        Err(CircError::DanglingRoute(at(20, 0)))
    );
}

#[test]
fn walk_marks_each_junction_once() {
    let comps = vec![pin("out", at(20, 10))];
    let wires = vec![
        wire(at(0, 0), at(10, 0)),
        wire(at(10, 0), at(10, 10)),
        wire(at(10, 10), at(0, 0)),
        wire(at(10, 10), at(20, 10)),
        wire(at(0, 0), at(10, 10)),
    ];
    let (pins, adj) = maps(&comps, &wires);
    let mut visited = vec![at(0, 0)];
    let routes = adj.get(at(0, 0)).unwrap().clone();
    let found = walk_routes(&adj, &pins, None, &routes, &mut visited);
    assert_eq!(found, Ok(ids(&["out"])));
    assert_eq!(visited, vec![at(0, 0), at(10, 0), at(10, 10)]);
}

#[test]
fn walk_passes_over_what_was_visited() {
    let comps = vec![pin("out", at(20, 10))];
    let wires = vec![wire(at(0, 0), at(10, 0)), wire(at(10, 0), at(20, 10))];
    let (pins, adj) = maps(&comps, &wires);
    let mut visited = vec![at(10, 0)];
    let found = walk_routes(&adj, &pins, None, &vec![at(10, 0), at(0, 0)], &mut visited);
    assert_eq!(found, Ok(ids(&[])));
    assert_eq!(visited, vec![at(10, 0), at(0, 0)]);
}

#[test]
fn walk_leaves_out_the_own_id_only() {
    let comps = vec![pin("a", at(20, 10)), pin("b", at(30, 10))];
    let wires = vec![wire(at(0, 0), at(20, 10)), wire(at(0, 0), at(30, 10))];
    let (pins, adj) = maps(&comps, &wires);
    let own = "a".to_string();
    let mut visited = vec![];
    let found = walk_routes(&adj, &pins, Some(&own), &vec![at(0, 0)], &mut visited);
    assert_eq!(found, Ok(ids(&["b"])));
    let mut visited = vec![];
    let found = walk_routes(&adj, &pins, None, &vec![at(0, 0)], &mut visited);
    assert_eq!(found, Ok(ids(&["a", "b"])));
}

#[test]
fn track_from_a_component() {
    let comps = vec![pin("in", at(160, 130)), gate("and", ComponentType::AND, at(240, 140))];
    let wires = vec![wire(at(160, 130), at(210, 130))];
    let (pins, adj) = maps(&comps, &wires);
    assert_eq!(
        track_wire_destinations(ModuleType::Component(comps[0].clone()), &pins, &adj),
        Ok(ids(&["and"]))
    );
    assert_eq!(
        track_wire_destinations(ModuleType::Component(comps[1].clone()), &pins, &adj),
        Err(CircError::NoWireAtComponent(at(240, 140)))
    );
}

#[test]
fn track_from_routes() {
    let comps = vec![pin("in", at(160, 130)), gate("and", ComponentType::AND, at(240, 140))];
    let wires = vec![wire(at(160, 130), at(200, 130)), wire(at(200, 130), at(210, 130))];
    let (pins, adj) = maps(&comps, &wires);
    assert_eq!(
        track_wire_destinations(ModuleType::WireDestinations(vec![at(200, 130)]), &pins, &adj),
        Ok(ids(&["in", "and"]))
    );
    assert_eq!(
        track_wire_destinations(ModuleType::WireDestinations(vec![]), &pins, &adj),
        Ok(ids(&[]))
    );
    assert_eq!(
        track_wire_destinations(ModuleType::WireDestinations(vec![at(1, 1)]), &pins, &adj),
        Err(CircError::DanglingRoute(at(1, 1)))
    );
}

#[test]
fn four_wires_in_a_loop_of_one_component_and_two_junctions() {
    let comps = vec![pin("in", at(0, 0))];
    let wires = vec![
        wire(at(0, 0), at(10, 0)),
        wire(at(10, 0), at(10, 10)),
        wire(at(10, 10), at(0, 0)),
        wire(at(10, 10), at(10, 0)),
    ];
    let (pins, adj) = maps(&comps, &wires);
    assert_eq!(resolve_destinations(&comps[0], &pins, &adj), Ok(ids(&[])));
    let mut visited = vec![at(0, 0)];
    let routes = adj.get(at(0, 0)).unwrap().clone();
    let own = "in".to_string();
    assert_eq!(walk_routes(&adj, &pins, Some(&own), &routes, &mut visited), Ok(ids(&[])));
    assert_eq!(visited, vec![at(0, 0), at(10, 0), at(10, 10)]);
}

fn wired_by_search(
    start: &Component,
    components: &Vec<Component>,
    wires: &Vec<Wire>,
) -> std::collections::BTreeSet<String> {
    let pins = map_components_by_location(components).unwrap();
    let neighbours = |c: Coordinate| -> Vec<Coordinate> {
        let mut v = vec![];
        for w in wires {
            if w.from == c {
                v.push(w.to);
            }
            if w.to == c {
                v.push(w.from);
            }
        }
        v
    };
    let mut walked = vec![start.loc];
    let mut frontier = vec![start.loc];
    let mut found = std::collections::BTreeSet::new();
    while let Some(c) = frontier.pop() {
        for n in neighbours(c) {
            if n == start.loc {
                continue;
            }
            match pins.get(n) {
                Some(id) => {
                    if *id != start.id {
                        found.insert(id.clone());
                    }
                }
                None => {
                    if !walked.contains(&n) {
                        walked.push(n);
                        frontier.push(n);
                    }
                }
            }
        }
    }
    found
}

#[test]
fn destinations_are_the_components_that_a_search_finds() {
    let comps = vec![
        pin("p0", at(0, 0)),
        gate("g1", ComponentType::AND, at(130, 20)),
        gate("g2", ComponentType::NOR, at(240, 120)),
        gate("g3", ComponentType::NOT, at(120, 200)),
        pin("p4", at(400, 400)),
        pin("p5", at(300, 20)),
    ];
    let wires = vec![
        wire(at(0, 0), at(50, 0)),
        wire(at(50, 0), at(100, 10)),
        wire(at(50, 0), at(50, 100)),
        wire(at(50, 100), at(200, 110)),
        wire(at(50, 100), at(50, 200)),
        wire(at(50, 200), at(100, 200)),
        wire(at(130, 20), at(150, 20)),
        wire(at(150, 20), at(300, 20)),
        wire(at(150, 20), at(150, 130)),
        wire(at(150, 130), at(200, 130)),
        wire(at(150, 130), at(100, 30)),
        wire(at(240, 120), at(400, 400)),
        wire(at(120, 200), at(50, 200)),
        wire(at(150, 20), at(50, 0)),
        wire(at(400, 400), at(300, 20)),
    ];
    let (pins, adj) = maps(&comps, &wires);
    for c in &comps {
        let found = resolve_destinations(c, &pins, &adj).unwrap();
        let set: std::collections::BTreeSet<String> = found.into_iter().collect();
        assert_eq!(set, wired_by_search(c, &comps, &wires));
    }
    assert_eq!(
        resolve_destinations(&comps[0], &pins, &adj),
        Ok(ids(&["g1", "g2", "g3", "p5", "g2", "g1"]))
    );
}
