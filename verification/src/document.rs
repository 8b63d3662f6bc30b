//! Reading a schematic out of a markup document.
//!
//! The document is parsed by the `xmltree` crate. What comes back is a tree
//! of elements that is opaque here: the functions that ask it for a name,
//! an attribute or a child are believed, not proved, and say so. Everything
//! that is done with their answers is proved.

use vstd::prelude::*;
use vstd::string::StringExecFns;
use crate::error::CircError;
use crate::text::{
    coordinate_of, decimal, decimal_text, number_of, parse_string_to_coordinate, parse_u32,
    same_text,
};
use crate::types::{
    attributes_view, component_views, set_attribute, with_attribute, AttributesView, Component,
    ComponentType, ComponentView, Wire,
};

verus! {

/// An element of a parsed document, as `xmltree` holds it.
#[verifier::external_type_specification]
#[verifier::external_body]
pub struct ExElement(xmltree::Element);

/// The reason for which `xmltree` could not parse a document.
#[verifier::external_type_specification]
#[verifier::external_body]
pub struct ExParseError(xmltree::ParseError);

/// An element as plain values: its name, its attributes, and its children
/// in order, where a child that is not itself an element (text, a comment)
/// stands as `None`.
pub struct Markup {
    pub name: Seq<char>,
    pub attributes: Map<Seq<char>, Seq<char>>,
    pub children: Seq<Option<Markup>>,
}

/// The name of an element, without prefix or namespace.
pub uninterp spec fn element_name(e: xmltree::Element) -> Seq<char>;

/// The attributes of an element, by name.
pub uninterp spec fn element_attributes(e: xmltree::Element) -> Map<Seq<char>, Seq<char>>;

/// The children of an element, in document order.
pub uninterp spec fn element_children(e: xmltree::Element) -> Seq<Option<Markup>>;

/// The root element of the document that a text writes; `None` where the
/// text is not a well-formed document.
pub uninterp spec fn parsed_markup(text: Seq<char>) -> Option<Markup>;

/// An element as plain values.
pub open spec fn markup_of(e: xmltree::Element) -> Markup {
    Markup {
        name: element_name(e),
        attributes: element_attributes(e),
        children: element_children(e),
    }
}

/// The first of `children` that is an element named `name`.
pub open spec fn first_named(children: Seq<Option<Markup>>, name: Seq<char>) -> Option<Markup>
    decreases children.len(),
{
    if children.len() == 0 {
        None
    } else {
        match children[0] {
            Some(m) => if m.name == name {
                Some(m)
            } else {
                first_named(children.drop_first(), name)
            },
            None => first_named(children.drop_first(), name),
        }
    }
}

/// `xmltree::Element::parse` on the bytes of `text`. Believed: the result
/// depends on the text alone, and is the root element where the text is a
/// well-formed document, an error where it is not. The crate builds the
/// tree by recursion, one call for each level of nesting: how deep a
/// document may nest is a matter of the stack, and no part of what is
/// believed.
#[verifier::external_body]
fn parse_markup(text: &str) -> (r: Result<xmltree::Element, xmltree::ParseError>)
    ensures
        match r {
            Ok(e) => parsed_markup(text@) == Some(markup_of(e)),
            Err(_) => parsed_markup(text@) is None,
        },
{
    xmltree::Element::parse(text.as_bytes())
}

/// `xmltree::Element::get_child` with a name. Believed: it hands back the
/// first child that is an element of that name, and nothing where there is
/// none.
#[verifier::external_body]
fn child_named<'a>(e: &'a xmltree::Element, name: &str) -> (r: Option<&'a xmltree::Element>)
    ensures
        match r {
            Some(c) => first_named(element_children(*e), name@) == Some(markup_of(*c)),
            None => first_named(element_children(*e), name@) is None,
        },
{
    e.get_child(name)
}

/// The length of the field `children` of an `xmltree::Element`. Believed:
/// it is the number of the element's children.
#[verifier::external_body]
fn child_count(e: &xmltree::Element) -> (n: usize)
    ensures
        n == element_children(*e).len(),
{
    e.children.len()
}

/// `xmltree::XMLNode::as_element` on the child at position `i`. Believed:
/// it hands back that child where it is an element, and nothing where it is
/// text, a comment or an instruction.
#[verifier::external_body]
fn child_at<'a>(e: &'a xmltree::Element, i: usize) -> (r: Option<&'a xmltree::Element>)
    requires
        i < element_children(*e).len(),
    ensures
        match r {
            Some(c) => element_children(*e)[i as int] == Some(markup_of(*c)),
            None => element_children(*e)[i as int] is None,
        },
{
    e.children[i].as_element()
}

/// The field `name` of an `xmltree::Element`. Believed: it is the
/// element's name.
#[verifier::external_body]
fn name_of<'a>(e: &'a xmltree::Element) -> (r: &'a str)
    ensures
        r@ == element_name(*e),
{
    e.name.as_str()
}

/// A lookup in the field `attributes` of an `xmltree::Element`. Believed:
/// it hands back the value of the attribute of that name, and nothing where
/// the element has none.
#[verifier::external_body]
fn attribute_of<'a>(e: &'a xmltree::Element, key: &str) -> (r: Option<&'a String>)
    ensures
        match r {
            Some(v) => element_attributes(*e).contains_key(key@) && element_attributes(*e)[key@]
                == v@,
            None => !element_attributes(*e).contains_key(key@),
        },
{
    e.attributes.get(key)
}

/// The components and wires of a schematic, in document order.
pub struct Schematic {
    pub components: Vec<Component>,
    pub wires: Vec<Wire>,
}

/// A schematic as plain values.
pub struct SchematicView {
    pub components: Seq<ComponentView>,
    pub wires: Seq<Wire>,
}

impl View for Schematic {
    type V = SchematicView;

    open spec fn view(&self) -> SchematicView {
        SchematicView { components: component_views(self.components@), wires: self.wires@ }
    }
}

/// The attributes that the first `count` of a component's children set:
/// each child named `a` lets its `name` stand for its `val`. `None` where
/// one of them is no element, or is named `a` and lacks one of the two.
pub open spec fn attributes_read(children: Seq<Option<Markup>>, count: nat) -> Option<
    AttributesView,
>
    decreases count,
{
    if count == 0 {
        Some(Seq::empty())
    } else {
        match attributes_read(children, (count - 1) as nat) {
            None => None,
            Some(attributes) => match children[count - 1] {
                None => None,
                Some(m) => if m.name != "a"@ {
                    Some(attributes)
                } else if m.attributes.contains_key("name"@) && m.attributes.contains_key("val"@) {
                    Some(with_attribute(attributes, m.attributes["name"@], m.attributes["val"@]))
                } else {
                    None
                },
            },
        }
    }
}

/// The id of the component that `ordinal` components come before.
pub open spec fn component_id(ordinal: nat) -> Seq<char> {
    "comp_"@ + decimal(ordinal)
}

/// The component that the element `m` describes, where `m` is the child at
/// `position` of the circuit and `ordinal` components come before it.
///
/// The element needs the attributes `lib`, `name` and `loc`; its name has
/// to be one of the closed set; its children have to set its attributes;
/// `lib` has to write a number and `loc` a coordinate. What fails first, in
/// this order, is the failure.
pub open spec fn component_read(m: Markup, position: nat, ordinal: nat) -> Result<
    ComponentView,
    CircError,
> {
    if !m.attributes.contains_key("lib"@) || !m.attributes.contains_key("name"@)
        || !m.attributes.contains_key("loc"@) {
        Err(CircError::MalformedDocument)
    } else {
        match ComponentType::of_name(m.attributes["name"@]) {
            None => Err(CircError::UnsupportedComponentType(position as usize)),
            Some(kind) => match attributes_read(m.children, m.children.len()) {
                None => Err(CircError::MalformedDocument),
                Some(attributes) => match number_of(m.attributes["lib"@]) {
                    None => Err(CircError::MalformedDocument),
                    Some(lib) => match coordinate_of(m.attributes["loc"@]) {
                        None => Err(CircError::MalformedCoordinate(position as usize)),
                        Some(loc) => Ok(
                            ComponentView {
                                lib,
                                name: m.attributes["name"@],
                                loc,
                                id: component_id(ordinal),
                                attributes,
                                component_type: kind,
                            },
                        ),
                    },
                },
            },
        }
    }
}

/// The wire that the element `m` describes, where `m` is the child at
/// `position` of the circuit. The element needs the attributes `from` and
/// `to`, and each has to write a coordinate.
pub open spec fn wire_read(m: Markup, position: nat) -> Result<Wire, CircError> {
    if !m.attributes.contains_key("from"@) || !m.attributes.contains_key("to"@) {
        Err(CircError::MalformedDocument)
    } else {
        match coordinate_of(m.attributes["from"@]) {
            None => Err(CircError::MalformedCoordinate(position as usize)),
            Some(from) => match coordinate_of(m.attributes["to"@]) {
                None => Err(CircError::MalformedCoordinate(position as usize)),
                Some(to) => Ok(Wire { from, to }),
            },
        }
    }
}

/// The schematic that the first `count` children of a circuit describe: a
/// child named `comp` is a component, one named `wire` a wire, and any
/// other element is passed over. The first child that is no element, or
/// that fails to describe what its name says, is the failure.
pub open spec fn children_read(children: Seq<Option<Markup>>, count: nat) -> Result<
    SchematicView,
    CircError,
>
    decreases count,
{
    if count == 0 {
        Ok(SchematicView { components: Seq::empty(), wires: Seq::empty() })
    } else {
        match children_read(children, (count - 1) as nat) {
            Err(e) => Err(e),
            Ok(s) => match children[count - 1] {
                None => Err(CircError::MalformedDocument),
                Some(m) => if m.name == "comp"@ {
                    match component_read(m, (count - 1) as nat, s.components.len()) {
                        Err(e) => Err(e),
                        Ok(c) => Ok(
                            SchematicView { components: s.components.push(c), wires: s.wires },
                        ),
                    }
                } else if m.name == "wire"@ {
                    match wire_read(m, (count - 1) as nat) {
                        Err(e) => Err(e),
                        Ok(w) => Ok(
                            SchematicView { components: s.components, wires: s.wires.push(w) },
                        ),
                    }
                } else {
                    Ok(s)
                },
            },
        }
    }
}

/// The schematic that a document describes: that of the children of the
/// first child of its root that is named `circuit`.
pub open spec fn schematic_of(root: Markup) -> Result<SchematicView, CircError> {
    match first_named(root.children, "circuit"@) {
        None => Err(CircError::MalformedDocument),
        Some(circuit) => children_read(circuit.children, circuit.children.len()),
    }
}

/// The schematic that a text describes.
pub open spec fn schematic_of_text(text: Seq<char>) -> Result<SchematicView, CircError> {
    match parsed_markup(text) {
        None => Err(CircError::MalformedDocument),
        Some(root) => schematic_of(root),
    }
}

/// Reads the attributes that the children of a component set.
fn read_attributes(elem: &xmltree::Element) -> (r: Option<Vec<(String, String)>>)
    ensures
        match r {
            Some(v) => attributes_read(element_children(*elem), element_children(*elem).len())
                == Some(attributes_view(v@)),
            None => attributes_read(element_children(*elem), element_children(*elem).len())
                is None,
        },
{
    let ghost children = element_children(*elem);
    let count = child_count(elem);
    let mut attributes: Vec<(String, String)> = Vec::new();
    let mut i: usize = 0;
    assert(attributes_view(attributes@) =~= Seq::<(Seq<char>, Seq<char>)>::empty());
    while i < count
        invariant
            i <= count,
            count == children.len(),
            children == element_children(*elem),
            attributes_read(children, i as nat) == Some(attributes_view(attributes@)),
        decreases count - i,
    {
        match child_at(elem, i) {
            None => {
                proof {
                    lemma_attributes_read_stays(children, (i + 1) as nat, count as nat);
                }
                return None;
            },
            Some(child) => {
                if same_text(name_of(child), "a") {
                    let name = attribute_of(child, "name");
                    let value = attribute_of(child, "val");
                    match (name, value) {
                        (Some(name), Some(value)) => {
                            set_attribute(&mut attributes, name.clone(), value.clone());
                        },
                        _ => {
                            proof {
                                lemma_attributes_read_stays(
                                    children,
                                    (i + 1) as nat,
                                    count as nat,
                                );
                            }
                            return None;
                        },
                    }
                }
            },
        }
        i += 1;
    }
    Some(attributes)
}

/// Once reading the attributes has failed, it has failed for good.
proof fn lemma_attributes_read_stays(children: Seq<Option<Markup>>, k: nat, count: nat)
    requires
        k <= count,
        attributes_read(children, k) is None,
    ensures
        attributes_read(children, count) is None,
    decreases count - k,
{
    if k < count {
        lemma_attributes_read_stays(children, k + 1, count);
    }
}

/// Once reading the children has failed, the failure stays.
proof fn lemma_children_read_stays(children: Seq<Option<Markup>>, k: nat, count: nat)
    requires
        k <= count,
        children_read(children, k) is Err,
    ensures
        children_read(children, count) == children_read(children, k),
    decreases count - k,
{
    if k < count {
        lemma_children_read_stays(children, k + 1, count);
    }
}

/// Reads the component that an element describes.
fn read_component(elem: &xmltree::Element, position: usize, ordinal: usize) -> (r: Result<
    Component,
    CircError,
>)
    ensures
        match r {
            Ok(c) => component_read(markup_of(*elem), position as nat, ordinal as nat) == Ok::<
                ComponentView,
                CircError,
            >(c@),
            Err(e) => component_read(markup_of(*elem), position as nat, ordinal as nat) == Err::<
                ComponentView,
                CircError,
            >(e),
        },
{
    let lib = match attribute_of(elem, "lib") {
        Some(v) => v,
        None => {
            return Err(CircError::MalformedDocument);
        },
    };
    let name = match attribute_of(elem, "name") {
        Some(v) => v,
        None => {
            return Err(CircError::MalformedDocument);
        },
    };
    let loc = match attribute_of(elem, "loc") {
        Some(v) => v,
        None => {
            return Err(CircError::MalformedDocument);
        },
    };
    let kind = match ComponentType::from_name(name.as_str()) {
        Some(kind) => kind,
        None => {
            return Err(CircError::UnsupportedComponentType(position));
        },
    };
    let attributes = match read_attributes(elem) {
        Some(attributes) => attributes,
        None => {
            return Err(CircError::MalformedDocument);
        },
    };
    let lib = match parse_u32(lib.as_str()) {
        Some(lib) => lib,
        None => {
            return Err(CircError::MalformedDocument);
        },
    };
    let loc = match parse_string_to_coordinate(loc.as_str()) {
        Some(loc) => loc,
        None => {
            return Err(CircError::MalformedCoordinate(position));
        },
    };
    let mut id = String::from_str("comp_");
    id.append(decimal_text(ordinal).as_str());
    Ok(Component { lib, name: name.clone(), loc, id, attributes, component_type: kind })
}

/// Reads the wire that an element describes.
fn read_wire(elem: &xmltree::Element, position: usize) -> (r: Result<Wire, CircError>)
    ensures
        r == wire_read(markup_of(*elem), position as nat),
{
    let from = match attribute_of(elem, "from") {
        Some(v) => v,
        None => {
            return Err(CircError::MalformedDocument);
        },
    };
    let to = match attribute_of(elem, "to") {
        Some(v) => v,
        None => {
            return Err(CircError::MalformedDocument);
        },
    };
    let from = match parse_string_to_coordinate(from.as_str()) {
        Some(c) => c,
        None => {
            return Err(CircError::MalformedCoordinate(position));
        },
    };
    let to = match parse_string_to_coordinate(to.as_str()) {
        Some(c) => c,
        None => {
            return Err(CircError::MalformedCoordinate(position));
        },
    };
    Ok(Wire { from, to })
}

/// Reads the schematic that the document with the root `root` describes.
pub fn read_schematic(root: &xmltree::Element) -> (r: Result<Schematic, CircError>)
    ensures
        match r {
            Ok(s) => schematic_of(markup_of(*root)) == Ok::<SchematicView, CircError>(s@),
            Err(e) => schematic_of(markup_of(*root)) == Err::<SchematicView, CircError>(e),
        },
{
    let circuit = match child_named(root, "circuit") {
        Some(circuit) => circuit,
        None => {
            return Err(CircError::MalformedDocument);
        },
    };
    let ghost children = element_children(*circuit);
    let count = child_count(circuit);
    let mut components: Vec<Component> = Vec::new();
    let mut wires: Vec<Wire> = Vec::new();
    let mut i: usize = 0;
    assert(component_views(components@) =~= Seq::<ComponentView>::empty());
    while i < count
        invariant
            i <= count,
            count == children.len(),
            children == element_children(*circuit),
            first_named(element_children(*root), "circuit"@) == Some(markup_of(*circuit)),
            children_read(children, i as nat) == Ok::<SchematicView, CircError>(
                SchematicView { components: component_views(components@), wires: wires@ },
            ),
        decreases count - i,
    {
        let ghost had = component_views(components@);
        match child_at(circuit, i) {
            None => {
                proof {
                    lemma_children_read_stays(children, (i + 1) as nat, count as nat);
                }
                return Err(CircError::MalformedDocument);
            },
            Some(child) => {
                if same_text(name_of(child), "comp") {
                    match read_component(child, i, components.len()) {
                        Ok(c) => {
                            components.push(c);
                            assert(component_views(components@) =~= had.push(c@));
                        },
                        Err(e) => {
                            proof {
                                lemma_children_read_stays(children, (i + 1) as nat, count as nat);
                            }
                            return Err(e);
                        },
                    }
                } else if same_text(name_of(child), "wire") {
                    match read_wire(child, i) {
                        Ok(w) => {
                            wires.push(w);
                        },
                        Err(e) => {
                            proof {
                                lemma_children_read_stays(children, (i + 1) as nat, count as nat);
                            }
                            return Err(e);
                        },
                    }
                }
            },
        }
        i += 1;
    }
    Ok(Schematic { components, wires })
}

/// Reads the schematic that a text describes.
pub fn parse_schematic(text: &str) -> (r: Result<Schematic, CircError>)
    ensures
        match r {
            Ok(s) => schematic_of_text(text@) == Ok::<SchematicView, CircError>(s@),
            Err(e) => schematic_of_text(text@) == Err::<SchematicView, CircError>(e),
        },
{
    match parse_markup(text) {
        Ok(root) => read_schematic(&root),
        Err(_) => Err(CircError::MalformedDocument),
    }
}

} // verus!
