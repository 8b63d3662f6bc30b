//! Where the input pins of a component lie on the grid.
//!
//! A gate's pins stand off from its placement coordinate by a distance that
//! its kind fixes, against the direction it faces, and fan out across that
//! direction in steps of ten grid units.

use vstd::prelude::*;
use vstd::string::StringExecFns;
use crate::common::Direction;
use crate::error::CircError;
use crate::text::{number_of, parse_u32};
use crate::types::{
    attribute_value, attributes_view, get_attribute, AttributesView, Component, ComponentType,
    ComponentView, Coordinate,
};

verus! {

/// The distance between a component's placement coordinate and the line on
/// which its pins lie.
pub open spec fn standoff(kind: ComponentType) -> int {
    match kind {
        ComponentType::AND | ComponentType::OR => 30,
        ComponentType::NAND | ComponentType::NOR | ComponentType::XOR => 40,
        ComponentType::XNOR => 50,
        ComponentType::NOT => 20,
        ComponentType::PIN => 0,
    }
}

/// The facing that a list of attributes asks for: east where it names none,
/// and `None` where it names one that is not supported.
pub open spec fn facing_of(attributes: AttributesView) -> Option<Direction> {
    match attribute_value(attributes, "facing"@) {
        None => Some(Direction::East),
        Some(v) => if v == "north"@ {
            Some(Direction::North)
        } else if v == "south"@ {
            Some(Direction::South)
        } else if v == "west"@ {
            Some(Direction::West)
        } else {
            None
        },
    }
}

/// How the pins of a component fan out: whether one lies on the centre line,
/// and how many pairs lie beside it. `None` where the input count does not
/// write a number.
pub open spec fn pin_shape(kind: ComponentType, attributes: AttributesView) -> Option<(bool, nat)> {
    if kind == ComponentType::NOT {
        Some((true, 0nat))
    } else {
        match attribute_value(attributes, "inputs"@) {
            None => Some((false, 1nat)),
            Some(v) => match number_of(v) {
                None => None,
                Some(n) => Some((n % 2 == 1, (n / 2) as nat)),
            },
        }
    }
}

/// The number of pins of a shape.
pub open spec fn pin_count(shape: (bool, nat)) -> nat {
    2 * shape.1 + if shape.0 {
        1nat
    } else {
        0nat
    }
}

/// The signed distance of the pin `i` of a shape from the centre line: the
/// centre pin first, where there is one, then the pairs from the inside
/// out, the negative side before the positive.
pub open spec fn pin_offset(shape: (bool, nat), i: int) -> int {
    if shape.0 && i == 0 {
        0
    } else {
        let j = if shape.0 {
            i - 1
        } else {
            i
        };
        if j % 2 == 0 {
            -10 * (j / 2 + 1)
        } else {
            10 * (j / 2 + 1)
        }
    }
}

/// The place of a pin that lies `offset` from the centre line of a component
/// at `loc` with the given facing and stand-off.
pub open spec fn pin_place(loc: Coordinate, facing: Direction, distance: int, offset: int) -> (
    int,
    int,
) {
    match facing {
        Direction::North => (loc.x + offset, loc.y + distance),
        Direction::South => (loc.x + offset, loc.y - distance),
        Direction::West => (loc.x + distance, loc.y + offset),
        Direction::East => (loc.x - distance, loc.y + offset),
    }
}

/// Whether a place lies on the grid.
pub open spec fn on_grid(place: (int, int)) -> bool {
    0 <= place.0 <= u32::MAX && 0 <= place.1 <= u32::MAX
}

/// The grid point of a place on the grid.
pub open spec fn grid_point(place: (int, int)) -> Coordinate {
    Coordinate { x: place.0 as u32, y: place.1 as u32 }
}

/// The places of all the pins of a gate, in order.
pub open spec fn pin_places(loc: Coordinate, facing: Direction, distance: int, shape: (bool, nat))
    -> Seq<(int, int)> {
    Seq::new(pin_count(shape), |i: int| pin_place(loc, facing, distance, pin_offset(shape, i)))
}

/// The pin coordinates of a component, or why it has none.
///
/// A pin component has one pin, at its own coordinate, whatever its
/// attributes. Any other component needs a supported facing, a well-formed
/// input count where it names one (an inverter takes one input and does not
/// look), and all its pins on the grid.
pub open spec fn pin_layout(component: ComponentView) -> Result<Seq<Coordinate>, CircError> {
    let loc = component.loc;
    let kind = component.component_type;
    if kind == ComponentType::PIN {
        Ok(seq![loc])
    } else {
        match facing_of(component.attributes) {
            None => Err(CircError::UnsupportedOrientation(loc)),
            Some(facing) => match pin_shape(kind, component.attributes) {
                None => Err(CircError::MalformedInputCount(loc)),
                Some(shape) => {
                    let places = pin_places(loc, facing, standoff(kind), shape);
                    if forall|i: int| 0 <= i < places.len() ==> on_grid(#[trigger] places[i]) {
                        Ok(places.map_values(|p: (int, int)| grid_point(p)))
                    } else {
                        Err(CircError::PinOffGrid(loc))
                    }
                },
            },
        }
    }
}

/// A gate that names neither a facing nor an input count has two pins: ten
/// units to either side of its centre line, one stand-off to the west of
/// its coordinate.
pub proof fn lemma_plain_gate_pins(component: ComponentView)
    requires
        component.component_type != ComponentType::PIN,
        component.component_type != ComponentType::NOT,
        attribute_value(component.attributes, "facing"@) is None,
        attribute_value(component.attributes, "inputs"@) is None,
        component.loc.x >= standoff(component.component_type),
        component.loc.y >= 10,
        component.loc.y + 10 <= u32::MAX,
    ensures
        pin_layout(component) == Ok::<Seq<Coordinate>, CircError>(
            seq![
                Coordinate {
                    x: (component.loc.x - standoff(component.component_type)) as u32,
                    y: (component.loc.y - 10) as u32,
                },
                Coordinate {
                    x: (component.loc.x - standoff(component.component_type)) as u32,
                    y: (component.loc.y + 10) as u32,
                },
            ],
        ),
{
    let loc = component.loc;
    let d = standoff(component.component_type);
    let places = pin_places(loc, Direction::East, d, (false, 1nat));
    assert(places[0] == (loc.x - d, loc.y - 10));
    assert(places[1] == (loc.x - d, loc.y + 10));
    assert(places.map_values(|p: (int, int)| grid_point(p)) =~= seq![
        Coordinate { x: (loc.x - d) as u32, y: (loc.y - 10) as u32 },
        Coordinate { x: (loc.x - d) as u32, y: (loc.y + 10) as u32 },
    ]);
}

/// An inverter has one pin, on its centre line, one stand-off against the
/// direction it faces: to the north of its coordinate on the grid's scale
/// where it faces north.
pub proof fn lemma_inverter_pin(component: ComponentView, facing: Direction)
    requires
        component.component_type == ComponentType::NOT,
        facing_of(component.attributes) == Some(facing),
        on_grid(pin_place(component.loc, facing, 20, 0)),
    ensures
        pin_layout(component) == Ok::<Seq<Coordinate>, CircError>(
            seq![grid_point(pin_place(component.loc, facing, 20, 0))],
        ),
        facing == Direction::North ==> pin_place(component.loc, facing, 20, 0) == (
            component.loc.x as int,
            component.loc.y + 20,
        ),
{
    let places = pin_places(component.loc, facing, 20, (true, 0nat));
    assert(places[0] == pin_place(component.loc, facing, 20, 0));
    assert(places.map_values(|p: (int, int)| grid_point(p)) =~= seq![
        grid_point(pin_place(component.loc, facing, 20, 0)),
    ]);
}

/// A layout that succeeds has as many pins as its shape says, and a pin
/// component has its own coordinate for its one pin.
pub proof fn lemma_pin_count(component: ComponentView)
    ensures
        pin_layout(component) matches Ok(pins) ==> if component.component_type
            == ComponentType::PIN {
            pins == seq![component.loc]
        } else {
            pin_shape(component.component_type, component.attributes) matches Some(shape)
                && pins.len() == pin_count(shape)
        },
{
}

/// The stand-off distance of a kind of component.
fn standoff_of(kind: ComponentType) -> (d: i64)
    ensures
        d == standoff(kind),
{
    match kind {
        ComponentType::AND | ComponentType::OR => 30,
        ComponentType::NAND | ComponentType::NOR | ComponentType::XOR => 40,
        ComponentType::XNOR => 50,
        ComponentType::NOT => 20,
        ComponentType::PIN => 0,
    }
}

/// Reads the facing out of a list of attributes.
pub fn read_facing(attributes: &Vec<(String, String)>) -> (r: Option<Direction>)
    ensures
        r == facing_of(attributes_view(attributes@)),
{
    match get_attribute(attributes, "facing") {
        None => Some(Direction::East),
        Some(v) => {
            if *v == String::from_str("north") {
                Some(Direction::North)
            } else if *v == String::from_str("south") {
                Some(Direction::South)
            } else if *v == String::from_str("west") {
                Some(Direction::West)
            } else {
                None
            }
        },
    }
}

/// Reads the shape of the pin fan out of a component's kind and attributes.
fn read_shape(kind: ComponentType, attributes: &Vec<(String, String)>) -> (r: Option<(bool, u32)>)
    ensures
        match r {
            Some(s) => pin_shape(kind, attributes_view(attributes@)) == Some((s.0, s.1 as nat)),
            None => pin_shape(kind, attributes_view(attributes@)) is None,
        },
{
    match kind {
        ComponentType::NOT => Some((true, 0)),
        _ => match get_attribute(attributes, "inputs") {
            None => Some((false, 1)),
            Some(v) => match parse_u32(v.as_str()) {
                None => None,
                Some(n) => Some((n % 2 == 1, n / 2)),
            },
        },
    }
}

/// Computes the place of one pin, and says whether it lies on the grid.
fn place_pin(loc: Coordinate, facing: Direction, distance: i64, offset: i64) -> (r: Option<
    Coordinate,
>)
    requires
        0 <= distance <= 50,
        -0x1_0000_0000_0 <= offset <= 0x1_0000_0000_0,
    ensures
        match r {
            Some(c) => on_grid(pin_place(loc, facing, distance as int, offset as int)) && c
                == grid_point(pin_place(loc, facing, distance as int, offset as int)),
            None => !on_grid(pin_place(loc, facing, distance as int, offset as int)),
        },
{
    let x: i64 = loc.x as i64;
    let y: i64 = loc.y as i64;
    let (px, py): (i64, i64) = match facing {
        Direction::North => (x + offset, y + distance),
        Direction::South => (x + offset, y - distance),
        Direction::West => (x + distance, y + offset),
        Direction::East => (x - distance, y + offset),
    };
    if 0 <= px && px <= 0xffff_ffff && 0 <= py && py <= 0xffff_ffff {
        Some(Coordinate { x: px as u32, y: py as u32 })
    } else {
        None
    }
}

/// Computes the pin coordinates of a component.
#[verifier::loop_isolation(false)]
pub fn calculate_input_coords(component: &Component) -> (r: Result<Vec<Coordinate>, CircError>)
    ensures
        match r {
            Ok(v) => pin_layout(component@) == Ok::<Seq<Coordinate>, CircError>(v@),
            Err(e) => pin_layout(component@) == Err::<Seq<Coordinate>, CircError>(e),
        },
{
    let loc = component.loc;
    let kind = component.component_type;
    let mut pins: Vec<Coordinate> = Vec::new();
    if let ComponentType::PIN = kind {
        pins.push(loc);
        assert(pins@ =~= seq![loc]);
        return Ok(pins);
    }
    let facing = match read_facing(&component.attributes) {
        Some(f) => f,
        None => {
            return Err(CircError::UnsupportedOrientation(loc));
        },
    };
    let (centre, pairs): (bool, u32) = match read_shape(kind, &component.attributes) {
        Some(s) => s,
        None => {
            return Err(CircError::MalformedInputCount(loc));
        },
    };
    let distance = standoff_of(kind);
    let ghost shape = (centre, pairs as nat);
    let ghost places = pin_places(loc, facing, distance as int, shape);
    if centre {
        match place_pin(loc, facing, distance, 0) {
            Some(c) => {
                pins.push(c);
            },
            None => {
                assert(!on_grid(places[0]));
                return Err(CircError::PinOffGrid(loc));
            },
        }
    }
    let ghost first: int = if centre {
        1
    } else {
        0
    };
    let mut k: u32 = 0;
    while k < pairs
        invariant
            k <= pairs,
            pins@.len() == first + 2 * k,
            forall|i: int| 0 <= i < pins@.len() ==> on_grid(#[trigger] places[i]),
            forall|i: int| 0 <= i < pins@.len() ==> pins@[i] == grid_point(#[trigger] places[i]),
        decreases pairs - k,
    {
        let step: i64 = 10 * (k as i64 + 1);
        let ghost at = first + 2 * k;
        assert(pin_offset(shape, at) == -step);
        assert(pin_offset(shape, at + 1) == step);
        let low = match place_pin(loc, facing, distance, -step) {
            Some(c) => c,
            None => {
                assert(!on_grid(places[at]));
                return Err(CircError::PinOffGrid(loc));
            },
        };
        let high = match place_pin(loc, facing, distance, step) {
            Some(c) => c,
            None => {
                assert(!on_grid(places[at + 1]));
                return Err(CircError::PinOffGrid(loc));
            },
        };
        pins.push(low);
        pins.push(high);
        k += 1;
    }
    assert(pins@ =~= places.map_values(|p: (int, int)| grid_point(p)));
    Ok(pins)
}

} // verus!
