use logic_lib::error::CircError;
use logic_lib::netlist::{resolve_all, serialize, transpile};
use logic_lib::types::{Component, ComponentType, Coordinate, Wire};
use logic_lib::wiring::{map_components_by_location, map_wires_by_location};

fn at(x: u32, y: u32) -> Coordinate {
    Coordinate { x, y }
}

fn wire(a: Coordinate, b: Coordinate) -> Wire {
    Wire { from: a, to: b }
}

fn component(id: &str, kind: ComponentType, loc: Coordinate, attributes: &[(&str, &str)]) -> Component {
    Component {
        lib: 1,
        name: String::from("gate"),
        loc,
        id: String::from(id),
        attributes: attributes.iter().map(|(k, v)| (k.to_string(), v.to_string())).collect(),
        component_type: kind,
    }
}

fn ids(v: &[&str]) -> Vec<String> {
    v.iter().map(|s| s.to_string()).collect()
}

#[test]
fn one_component_without_destinations_is_defined_and_not_attached() {
    let comps = vec![component("comp_0", ComponentType::AND, at(100, 100), &[])];
    let text = serialize(&comps, &vec![vec![]]);
    assert_eq!(text, "#define comp_0\n- type: AND\n\n");
    assert!(!text.contains("#attach"));
    assert_eq!(serialize(&comps, &vec![]), "#define comp_0\n- type: AND\n\n");
}

#[test]
fn nothing_serializes_to_nothing() {
    assert_eq!(serialize(&vec![], &vec![]), "");
    assert_eq!(serialize(&vec![], &vec![ids(&["x"])]), "");
}

#[test]
fn attributes_come_in_their_order() {
    let comps = vec![component(
        "comp_0",
        ComponentType::XNOR,
        at(100, 100),
        &[("facing", "north"), ("inputs", "3"), ("label", "a b: c")],
    )];
    assert_eq!(
        serialize(&comps, &vec![vec![]]),
        "#define comp_0\n- type: XNOR\n- facing: north\n- inputs: 3\n- label: a b: c\n\n"
    );
}

#[test]
fn definitions_come_before_attachments() {
    let comps = vec![
        component("comp_0", ComponentType::PIN, at(10, 10), &[("output", "false")]),
        component("comp_1", ComponentType::NOT, at(100, 10), &[]),
        component("comp_2", ComponentType::PIN, at(200, 10), &[]),
    ];
    let lists = vec![ids(&["comp_1"]), ids(&["comp_2", "comp_0", "comp_2"]), vec![]];
    assert_eq!(
        serialize(&comps, &lists),
        "#define comp_0\n- type: PIN\n- output: false\n\n\
         #define comp_1\n- type: NOT\n\n\
         #define comp_2\n- type: PIN\n\n\
         #attach comp_0 comp_1\n\
         #attach comp_1 comp_2\n\
         #attach comp_1 comp_0\n\
         #attach comp_1 comp_2\n"
    );
}

#[test]
fn lists_beyond_the_components_are_passed_over() {
    let comps = vec![component("a", ComponentType::OR, at(100, 100), &[])];
    assert_eq!(
        serialize(&comps, &vec![ids(&["b"]), ids(&["c"])]),
        "#define a\n- type: OR\n\n#attach a b\n"
    );
}

#[test]
fn resolve_all_keeps_the_order_of_the_components() {
    let comps = vec![
        component("comp_0", ComponentType::PIN, at(160, 130), &[]),
        component("comp_1", ComponentType::AND, at(240, 140), &[]),
        component("comp_2", ComponentType::PIN, at(300, 140), &[]),
    ];
    let wires = vec![wire(at(160, 130), at(210, 130)), wire(at(240, 140), at(300, 140))];
    let pins = map_components_by_location(&comps).unwrap();
    let adj = map_wires_by_location(&wires);
    assert_eq!(
        resolve_all(&comps, &pins, &adj),
        Ok(vec![ids(&["comp_1"]), ids(&["comp_2"]), ids(&[])])
    );
}

#[test]
fn transpile_writes_the_whole_netlist() {
    let comps = vec![
        component("comp_0", ComponentType::PIN, at(160, 130), &[("tristate", "false")]),
        component("comp_1", ComponentType::AND, at(240, 140), &[]),
        component("comp_2", ComponentType::PIN, at(300, 140), &[("output", "true")]),
    ];
    let wires = vec![wire(at(160, 130), at(210, 130)), wire(at(240, 140), at(300, 140))];
    let pins = map_components_by_location(&comps).unwrap();
    let adj = map_wires_by_location(&wires);
    assert_eq!(
        transpile(&comps, &pins, &adj),
        Ok(String::from(
            "#define comp_0\n- type: PIN\n- tristate: false\n\n\
             #define comp_1\n- type: AND\n\n\
             #define comp_2\n- type: PIN\n- output: true\n\n\
             #attach comp_0 comp_1\n\
             #attach comp_1 comp_2\n"
        ))
    );
}

#[test]
fn transpile_fails_with_the_first_component_that_fails() {
    let comps = vec![
        component("comp_0", ComponentType::PIN, at(160, 130), &[]),
        component("comp_1", ComponentType::AND, at(240, 140), &[]),
        component("comp_2", ComponentType::PIN, at(300, 140), &[]),
    ];
    let wires = vec![wire(at(160, 130), at(210, 130))];
    let pins = map_components_by_location(&comps).unwrap();
    let adj = map_wires_by_location(&wires);
    assert_eq!(transpile(&comps, &pins, &adj), Err(CircError::NoWireAtComponent(at(240, 140))));
    assert_eq!(resolve_all(&comps, &pins, &adj), Err(CircError::NoWireAtComponent(at(240, 140))));
}

#[test]
fn transpile_of_one_component_without_wires_fails() {
    let comps = vec![component("comp_0", ComponentType::AND, at(100, 100), &[])];
    let pins = map_components_by_location(&comps).unwrap();
    let adj = map_wires_by_location(&vec![]);
    assert_eq!(transpile(&comps, &pins, &adj), Err(CircError::NoWireAtComponent(at(100, 100))));
}
