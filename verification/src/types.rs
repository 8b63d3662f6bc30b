//! The records a schematic is made of.

use vstd::prelude::*;
use vstd::string::StringExecFns;

verus! {

/// A point of the grid.
#[derive(Clone, Copy, Debug, PartialEq, Eq, Structural, Hash)]
pub struct Coordinate {
    pub x: u32,
    pub y: u32,
}

/// One drawn wire segment. The two ends are interchangeable.
#[derive(Clone, Copy, Debug, PartialEq, Eq, Structural)]
pub struct Wire {
    pub from: Coordinate,
    pub to: Coordinate,
}

/// The closed set of component kinds.
#[derive(Clone, Copy, Debug, PartialEq, Eq, Structural)]
pub enum ComponentType {
    AND,
    OR,
    NAND,
    NOR,
    XOR,
    XNOR,
    NOT,
    PIN,
}

impl ComponentType {
    /// The upper-case name of the kind.
    pub open spec fn text(self) -> Seq<char> {
        match self {
            ComponentType::AND => "AND"@,
            ComponentType::OR => "OR"@,
            ComponentType::NAND => "NAND"@,
            ComponentType::NOR => "NOR"@,
            ComponentType::XOR => "XOR"@,
            ComponentType::XNOR => "XNOR"@,
            ComponentType::NOT => "NOT"@,
            ComponentType::PIN => "PIN"@,
        }
    }

    /// The kind that a component name stands for; `None` for a name outside
    /// the closed set.
    pub open spec fn of_name(name: Seq<char>) -> Option<ComponentType> {
        if name == "AND Gate"@ {
            Some(ComponentType::AND)
        } else if name == "OR Gate"@ {
            Some(ComponentType::OR)
        } else if name == "NAND Gate"@ {
            Some(ComponentType::NAND)
        } else if name == "NOR Gate"@ {
            Some(ComponentType::NOR)
        } else if name == "XOR Gate"@ {
            Some(ComponentType::XOR)
        } else if name == "XNOR Gate"@ {
            Some(ComponentType::XNOR)
        } else if name == "NOT Gate"@ {
            Some(ComponentType::NOT)
        } else if name == "Pin"@ {
            Some(ComponentType::PIN)
        } else {
            None
        }
    }

    /// Reads the kind that a component name stands for.
    pub fn from_name(name: &str) -> (r: Option<ComponentType>)
        ensures
            r == ComponentType::of_name(name@),
    {
        let name = String::from_str(name);
        if name == String::from_str("AND Gate") {
            Some(ComponentType::AND)
        } else if name == String::from_str("OR Gate") {
            Some(ComponentType::OR)
        } else if name == String::from_str("NAND Gate") {
            Some(ComponentType::NAND)
        } else if name == String::from_str("NOR Gate") {
            Some(ComponentType::NOR)
        } else if name == String::from_str("XOR Gate") {
            Some(ComponentType::XOR)
        } else if name == String::from_str("XNOR Gate") {
            Some(ComponentType::XNOR)
        } else if name == String::from_str("NOT Gate") {
            Some(ComponentType::NOT)
        } else if name == String::from_str("Pin") {
            Some(ComponentType::PIN)
        } else {
            None
        }
    }

    /// The upper-case name of the kind.
    pub fn name(&self) -> (r: &'static str)
        ensures
            r@ == self.text(),
    {
        match self {
            ComponentType::AND => "AND",
            ComponentType::OR => "OR",
            ComponentType::NAND => "NAND",
            ComponentType::NOR => "NOR",
            ComponentType::XOR => "XOR",
            ComponentType::XNOR => "XNOR",
            ComponentType::NOT => "NOT",
            ComponentType::PIN => "PIN",
        }
    }
}

/// A placed component.
///
/// `attributes` holds the attribute names and values in the order in which
/// they were first set; [`attribute_value`] says which value a name stands
/// for.
#[derive(Clone, Debug, PartialEq, Eq)]
pub struct Component {
    pub lib: u32,
    pub name: String,
    pub loc: Coordinate,
    pub id: String,
    pub attributes: Vec<(String, String)>,
    pub component_type: ComponentType,
}

/// Where a connectivity walk starts: at a component, or at a list of grid
/// points that are taken as already reached.
#[derive(Clone, Debug, PartialEq, Eq)]
pub enum ModuleType {
    Component(Component),
    WireDestinations(Vec<Coordinate>),
}

/// A list of attributes as plain text: names and values, in order.
pub type AttributesView = Seq<(Seq<char>, Seq<char>)>;

/// The plain text of a list of attributes.
pub open spec fn attributes_view(attributes: Seq<(String, String)>) -> AttributesView {
    attributes.map_values(|a: (String, String)| (a.0@, a.1@))
}

/// A component as plain values.
pub struct ComponentView {
    pub lib: u32,
    pub name: Seq<char>,
    pub loc: Coordinate,
    pub id: Seq<char>,
    pub attributes: AttributesView,
    pub component_type: ComponentType,
}

impl View for Component {
    type V = ComponentView;

    open spec fn view(&self) -> ComponentView {
        ComponentView {
            lib: self.lib,
            name: self.name@,
            loc: self.loc,
            id: self.id@,
            attributes: attributes_view(self.attributes@),
            component_type: self.component_type,
        }
    }
}

/// The components of a list as plain values.
pub open spec fn component_views(components: Seq<Component>) -> Seq<ComponentView> {
    components.map_values(|c: Component| c@)
}

/// The value that `name` stands for in a list of attributes: that of the
/// first entry with this name.
pub open spec fn attribute_value(attributes: AttributesView, name: Seq<char>) -> Option<Seq<char>>
    decreases attributes.len(),
{
    if attributes.len() == 0 {
        None
    } else if attributes[0].0 == name {
        Some(attributes[0].1)
    } else {
        attribute_value(attributes.drop_first(), name)
    }
}

/// Looks `name` up in a list of attributes.
pub fn get_attribute<'a>(attributes: &'a Vec<(String, String)>, name: &str) -> (r: Option<
    &'a String,
>)
    ensures
        match r {
            Some(v) => attribute_value(attributes_view(attributes@), name@) == Some(v@),
            None => attribute_value(attributes_view(attributes@), name@) is None,
        },
{
    let key = String::from_str(name);
    let ghost all = attributes_view(attributes@);
    let mut i: usize = 0;
    assert(all.skip(0) =~= all);
    while i < attributes.len()
        invariant
            i <= attributes.len(),
            key@ == name@,
            all == attributes_view(attributes@),
            attribute_value(all, name@) == attribute_value(all.skip(i as int), name@),
        decreases attributes.len() - i,
    {
        assert(all.skip(i as int)[0] == all[i as int]);
        if attributes[i].0 == key {
            return Some(&attributes[i].1);
        }
        assert(all.skip(i as int).drop_first() =~= all.skip(i as int + 1));
        i += 1;
    }
    None
}

/// A list of attributes in which `name` stands for `value`: the first entry
/// with this name gets the value, and where there is none, a new entry
/// comes last.
pub open spec fn with_attribute(attributes: AttributesView, name: Seq<char>, value: Seq<char>)
    -> AttributesView
    decreases attributes.len(),
{
    if attributes.len() == 0 {
        seq![(name, value)]
    } else if attributes[0].0 == name {
        seq![(name, value)] + attributes.drop_first()
    } else {
        seq![attributes[0]] + with_attribute(attributes.drop_first(), name, value)
    }
}

/// Where the first entry named `name` is at position `i`, it is that entry
/// that gets the value.
proof fn lemma_with_attribute_found(
    attributes: AttributesView,
    name: Seq<char>,
    value: Seq<char>,
    i: int,
)
    requires
        0 <= i < attributes.len(),
        attributes[i].0 == name,
        forall|j: int| 0 <= j < i ==> (#[trigger] attributes[j]).0 != name,
    ensures
        with_attribute(attributes, name, value) == attributes.update(i, (name, value)),
    decreases i,
{
    if i == 0 {
        assert(seq![(name, value)] + attributes.drop_first() =~= attributes.update(
            0,
            (name, value),
        ));
    } else {
        let rest = attributes.drop_first();
        assert forall|j: int| 0 <= j < i - 1 implies (#[trigger] rest[j]).0 != name by {
            assert(rest[j] == attributes[j + 1]);
        }
        lemma_with_attribute_found(rest, name, value, i - 1);
        assert(seq![attributes[0]] + rest.update(i - 1, (name, value)) =~= attributes.update(
            i,
            (name, value),
        ));
    }
}

/// Where no entry is named `name`, a new entry comes last.
proof fn lemma_with_attribute_new(attributes: AttributesView, name: Seq<char>, value: Seq<char>)
    requires
        forall|j: int| 0 <= j < attributes.len() ==> (#[trigger] attributes[j]).0 != name,
    ensures
        with_attribute(attributes, name, value) == attributes.push((name, value)),
    decreases attributes.len(),
{
    if attributes.len() == 0 {
        assert(seq![(name, value)] =~= attributes.push((name, value)));
    } else {
        let rest = attributes.drop_first();
        assert forall|j: int| 0 <= j < rest.len() implies (#[trigger] rest[j]).0 != name by {
            assert(rest[j] == attributes[j + 1]);
        }
        lemma_with_attribute_new(rest, name, value);
        assert(seq![attributes[0]] + rest.push((name, value)) =~= attributes.push((name, value)));
    }
}

/// Lets `name` stand for `value` in a list of attributes.
pub fn set_attribute(attributes: &mut Vec<(String, String)>, name: String, value: String)
    ensures
        attributes_view(final(attributes)@) == with_attribute(
            attributes_view(old(attributes)@),
            name@,
            value@,
        ),
{
    let ghost all = attributes_view(attributes@);
    let mut i: usize = 0;
    while i < attributes.len()
        invariant
            i <= attributes.len(),
            attributes@ == old(attributes)@,
            all == attributes_view(attributes@),
            forall|j: int| 0 <= j < i ==> (#[trigger] all[j]).0 != name@,
        decreases attributes.len() - i,
    {
        if attributes[i].0 == name {
            proof {
                lemma_with_attribute_found(all, name@, value@, i as int);
            }
            attributes.set(i, (name, value));
            assert(attributes_view(attributes@) =~= all.update(i as int, (name@, value@)));
            return ;
        }
        i += 1;
    }
    proof {
        lemma_with_attribute_new(all, name@, value@);
    }
    attributes.push((name, value));
    assert(attributes_view(attributes@) =~= all.push((name@, value@)));
}

} // verus!
