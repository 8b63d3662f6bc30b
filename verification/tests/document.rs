use logic_lib::document::{parse_schematic, read_schematic, Schematic};
use logic_lib::error::CircError;
use logic_lib::types::{Component, ComponentType, Coordinate, Wire};
use xmltree::{Element, XMLNode};

fn at(x: u32, y: u32) -> Coordinate {
    Coordinate { x, y }
}

fn element(name: &str, attributes: &[(&str, &str)], children: Vec<XMLNode>) -> Element {
    let mut e = Element::new(name);
    for (k, v) in attributes {
        e.attributes.insert(k.to_string(), v.to_string());
    }
    e.children = children;
    e
}

fn node(name: &str, attributes: &[(&str, &str)], children: Vec<XMLNode>) -> XMLNode {
    XMLNode::Element(element(name, attributes, children))
}

fn project(circuit_children: Vec<XMLNode>) -> Element {
    element("project", &[], vec![node("circuit", &[("name", "main")], circuit_children)])
}

fn in_circuit(body: &str) -> String {
    format!(
        "<?xml version=\"1.0\" encoding=\"UTF-8\" standalone=\"no\"?>\n\
         <project source=\"2.7.1\" version=\"1.0\">\n\
         <lib desc=\"#Wiring\" name=\"0\"/>\n\
         <circuit name=\"main\">\n{}\n</circuit>\n</project>\n",
        body
    )
}

fn failure(r: Result<Schematic, CircError>) -> Option<CircError> {
    r.err()
}

const SAMPLE: &str = "<?xml version=\"1.0\" encoding=\"UTF-8\" standalone=\"no\"?>
<project source=\"2.7.1\" version=\"1.0\">
  This file is intended to be loaded by Logisim.
  <lib desc=\"#Wiring\" name=\"0\"/>
  <lib desc=\"#Gates\" name=\"1\"/>
  <main name=\"main\"/>
  <circuit name=\"main\">
    <a name=\"circuit\" val=\"main\"/>
    <a name=\"clabel\" val=\"\"/>
    <wire from=\"(160,130)\" to=\"(210,130)\"/>
    <wire from=\"(240,140)\" to=\"(300,140)\"/>
    <comp lib=\"0\" loc=\"(160,130)\" name=\"Pin\">
      <a name=\"tristate\" val=\"false\"/>
    </comp>
    <comp lib=\"1\" loc=\"(240,140)\" name=\"AND Gate\">
      <a name=\"size\" val=\"30\"/>
      <a name=\"inputs\" val=\"2\"/>
    </comp>
    <comp lib=\"0\" loc=\"(300,140)\" name=\"Pin\">
      <a name=\"facing\" val=\"west\"/>
      <a name=\"output\" val=\"true\"/>
    </comp>
  </circuit>
  <circuit name=\"other\">
    <wire from=\"(1,1)\" to=\"(2,2)\"/>
  </circuit>
</project>
";

#[test]
fn sample_document_is_read_in_order() {
    let s = parse_schematic(SAMPLE).unwrap();
    assert_eq!(
        s.wires,
        vec![
            Wire { from: at(160, 130), to: at(210, 130) },
            Wire { from: at(240, 140), to: at(300, 140) }
        ]
    );
    assert_eq!(
        s.components,
        vec![
            Component {
                lib: 0,
                name: "Pin".to_string(),
                loc: at(160, 130),
                id: "comp_0".to_string(),
                attributes: vec![("tristate".to_string(), "false".to_string())],
                component_type: ComponentType::PIN,
            },
            Component {
                lib: 1,
                name: "AND Gate".to_string(),
                loc: at(240, 140),
                id: "comp_1".to_string(),
                attributes: vec![
                    ("size".to_string(), "30".to_string()),
                    ("inputs".to_string(), "2".to_string())
                ],
                component_type: ComponentType::AND,
            },
            Component {
                lib: 0,
                name: "Pin".to_string(),
                loc: at(300, 140),
                id: "comp_2".to_string(),
                attributes: vec![
                    ("facing".to_string(), "west".to_string()),
                    ("output".to_string(), "true".to_string())
                ],
                component_type: ComponentType::PIN,
            },
        ]
    );
}

#[test]
fn ids_count_the_components_only() {
    let mut body = String::new();
    for i in 0..12 {
        body.push_str(&format!("<wire from=\"({},0)\" to=\"({},5)\"/>\n", i, i));
        body.push_str(&format!("<comp lib=\"0\" loc=\"({},7)\" name=\"Pin\"/>\n", i));
    }
    let s = parse_schematic(&in_circuit(&body)).unwrap();
    assert_eq!(s.components.len(), 12);
    assert_eq!(s.wires.len(), 12);
    for i in 0..12 {
        assert_eq!(s.components[i].id, format!("comp_{}", i));
        assert_eq!(s.components[i].loc, at(i as u32, 7));
    }
}

#[test]
fn empty_circuit_holds_nothing() {
    let s = parse_schematic("<project><circuit/></project>").unwrap();
    assert_eq!(s.components, vec![]);
    assert_eq!(s.wires, vec![]);
}

#[test]
fn first_circuit_is_the_one_that_is_read() {
    let text = "<project><circuit><wire from=\"(1,1)\" to=\"(2,2)\"/></circuit>\
                <circuit><wire from=\"(3,3)\" to=\"(4,4)\"/></circuit></project>";
    let s = parse_schematic(text).unwrap();
    assert_eq!(s.wires, vec![Wire { from: at(1, 1), to: at(2, 2) }]);
}

#[test]
fn other_elements_of_the_circuit_are_passed_over() {
    let s = parse_schematic(&in_circuit("<a name=\"x\"/><note loc=\"bad\"/><Comp/><WIRE/>")).unwrap();
    assert_eq!(s.components, vec![]);
    assert_eq!(s.wires, vec![]);
}

#[test]
fn later_value_of_an_attribute_takes_the_place_of_the_earlier() {
    let body = "<comp lib=\"1\" loc=\"(240,140)\" name=\"OR Gate\">\
                <a name=\"inputs\" val=\"2\"/><a name=\"facing\" val=\"north\"/>\
                <b name=\"inputs\" val=\"9\"/><a name=\"inputs\" val=\"5\"/></comp>";
    let s = parse_schematic(&in_circuit(body)).unwrap();
    assert_eq!(
        s.components[0].attributes,
        vec![
            ("inputs".to_string(), "5".to_string()),
            ("facing".to_string(), "north".to_string())
        ]
    );
}

#[test]
fn text_that_is_no_document() {
    assert_eq!(failure(parse_schematic("")), Some(CircError::MalformedDocument));
    assert_eq!(failure(parse_schematic("not markup")), Some(CircError::MalformedDocument));
    assert_eq!(failure(parse_schematic("<project><circuit></project>")), Some(CircError::MalformedDocument));
    assert_eq!(failure(parse_schematic("<project>")), Some(CircError::MalformedDocument));
}

#[test]
fn document_without_a_circuit() {
    assert_eq!(failure(parse_schematic("<project/>")), Some(CircError::MalformedDocument));
    assert_eq!(
        failure(parse_schematic("<project><main><circuit/></main></project>")),
        Some(CircError::MalformedDocument)
    );
    assert_eq!(failure(parse_schematic("<circuit/>")), Some(CircError::MalformedDocument));
}

#[test]
fn child_of_the_circuit_that_is_no_element() {
    assert_eq!(
        failure(parse_schematic(&in_circuit("<wire from=\"(1,1)\" to=\"(2,2)\"/> stray text"))),
        Some(CircError::MalformedDocument)
    );
    assert_eq!(
        failure(parse_schematic(&in_circuit("<!-- a remark -->"))),
        Some(CircError::MalformedDocument)
    );
}

#[test]
fn child_of_a_component_that_is_no_element() {
    let body = "<comp lib=\"0\" loc=\"(1,1)\" name=\"Pin\">label</comp>";
    assert_eq!(failure(parse_schematic(&in_circuit(body))), Some(CircError::MalformedDocument));
}

#[test]
fn component_that_lacks_an_attribute() {
    for body in [
        "<comp loc=\"(1,1)\" name=\"Pin\"/>",
        "<comp lib=\"0\" name=\"Pin\"/>",
        "<comp lib=\"0\" loc=\"(1,1)\"/>",
        "<comp lib=\"0\" loc=\"(1,1)\" name=\"Pin\"><a name=\"x\"/></comp>",
        "<comp lib=\"0\" loc=\"(1,1)\" name=\"Pin\"><a val=\"x\"/></comp>",
        "<wire from=\"(1,1)\"/>",
        "<wire to=\"(1,1)\"/>",
    ] {
        assert_eq!(failure(parse_schematic(&in_circuit(body))), Some(CircError::MalformedDocument));
    }
}

#[test]
fn library_that_is_no_number() {
    let body = "<comp lib=\"one\" loc=\"(1,1)\" name=\"Pin\"/>";
    assert_eq!(failure(parse_schematic(&in_circuit(body))), Some(CircError::MalformedDocument));
}

#[test]
fn unsupported_component_type() {
    let body = "<wire from=\"(1,1)\" to=\"(2,2)\"/><comp lib=\"0\" loc=\"(1,1)\" name=\"Pin\"/>\
                <comp lib=\"1\" loc=\"(5,5)\" name=\"Buffer\"/>";
    assert_eq!(
        failure(parse_schematic(&in_circuit(body))),
        Some(CircError::UnsupportedComponentType(2))
    );
}

#[test]
fn unsupported_type_is_judged_before_number_and_coordinate() {
    let body = "<comp lib=\"x\" loc=\"nowhere\" name=\"Clock\">text</comp>";
    assert_eq!(
        failure(parse_schematic(&in_circuit(body))),
        Some(CircError::UnsupportedComponentType(0))
    );
}

#[test]
fn malformed_coordinate() {
    let body = "<wire from=\"(1,1)\" to=\"(2,2)\"/><wire from=\"(1,1)\" to=\"(2)\"/>";
    assert_eq!(failure(parse_schematic(&in_circuit(body))), Some(CircError::MalformedCoordinate(1)));
    let body = "<wire from=\"1;1\" to=\"(2,2)\"/>";
    assert_eq!(failure(parse_schematic(&in_circuit(body))), Some(CircError::MalformedCoordinate(0)));
    let body = "<comp lib=\"0\" loc=\"(a,1)\" name=\"Pin\"/>";
    assert_eq!(failure(parse_schematic(&in_circuit(body))), Some(CircError::MalformedCoordinate(0)));
    let body = "<comp lib=\"zero\" loc=\"(a,1)\" name=\"Pin\"/>";
    assert_eq!(failure(parse_schematic(&in_circuit(body))), Some(CircError::MalformedDocument));
}

#[test]
fn first_failure_in_document_order_is_the_failure() {
    let body = "<wire from=\"(1,1)\" to=\"\"/><comp lib=\"1\" loc=\"(5,5)\" name=\"Buffer\"/>";
    assert_eq!(failure(parse_schematic(&in_circuit(body))), Some(CircError::MalformedCoordinate(0)));
    let body = "<comp lib=\"1\" loc=\"(5,5)\" name=\"Buffer\"/><wire from=\"(1,1)\" to=\"\"/>";
    assert_eq!(
        failure(parse_schematic(&in_circuit(body))),
        Some(CircError::UnsupportedComponentType(0))
    );
}

#[test]
fn layout_is_not_judged_while_reading() {
    let body = "<comp lib=\"1\" loc=\"(0,0)\" name=\"AND Gate\"><a name=\"facing\" val=\"up\"/></comp>";
    let s = parse_schematic(&in_circuit(body)).unwrap();
    assert_eq!(s.components[0].attributes, vec![("facing".to_string(), "up".to_string())]);
}

#[test]
fn tree_built_by_hand_is_read_alike() {
    let root = project(vec![
        node("wire", &[("from", "(160,130)"), ("to", "(210,130)")], vec![]),
        node(
            "comp",
            &[("lib", "1"), ("loc", "(240,140)"), ("name", "NOT Gate")],
            vec![
                node("a", &[("name", "facing"), ("val", "south")], vec![]),
                node("other", &[], vec![]),
            ],
        ),
    ]);
    let s = read_schematic(&root).unwrap();
    assert_eq!(s.wires, vec![Wire { from: at(160, 130), to: at(210, 130) }]);
    assert_eq!(
        s.components,
        vec![Component {
            lib: 1,
            name: "NOT Gate".to_string(),
            loc: at(240, 140),
            id: "comp_0".to_string(),
            attributes: vec![("facing".to_string(), "south".to_string())],
            component_type: ComponentType::NOT,
        }]
    );
}

#[test]
fn tree_with_a_remark_among_the_children() {
    let root = project(vec![
        node("wire", &[("from", "(1,1)"), ("to", "(2,2)")], vec![]),
        XMLNode::Comment("a remark".to_string()),
    ]);
    assert_eq!(failure(read_schematic(&root)), Some(CircError::MalformedDocument));
    let root = element(
        "project",
        &[],
        vec![
            XMLNode::Text("words".to_string()),
            node("circuits", &[], vec![]),
            node("circuit", &[], vec![node("wire", &[("from", "(1,1)"), ("to", "(2,2)")], vec![])]),
        ],
    );
    assert_eq!(read_schematic(&root).unwrap().wires, vec![Wire { from: at(1, 1), to: at(2, 2) }]);
}

#[test]
fn tree_without_a_circuit() {
    let root = element("project", &[], vec![node("lib", &[], vec![])]);
    assert_eq!(failure(read_schematic(&root)), Some(CircError::MalformedDocument));
    let root = element("circuit", &[], vec![]);
    assert_eq!(failure(read_schematic(&root)), Some(CircError::MalformedDocument));
}
