//! The parser: a schematic together with the two maps that resolving it is
//! built on.

use vstd::prelude::*;
use crate::document::{parse_schematic, schematic_of_text, SchematicView};
use crate::error::CircError;
use crate::netlist::{logic_code, transpile};
use crate::resolve::{
    resolve_destinations, resolves_to, texts, track_wire_destinations, walk_result,
};
use crate::types::{
    component_views, Component, ComponentType, ComponentView, ModuleType, Wire,
};
use crate::wiring::{
    adjacency, layout_failure, map_components_by_location, map_wires_by_location, pin_map,
    PinMap, WireMap,
};

verus! {

/// A schematic and its maps. The maps are always those of the components
/// and wires that the parser holds, and every component it holds has a
/// layout.
pub struct CircParser {
    components: Vec<Component>,
    wires: Vec<Wire>,
    components_map: PinMap,
    wires_map: WireMap,
}

/// The schematic that a parser holds once it has taken in `schematic`: the
/// schematic itself, unless one of its components has no layout.
pub open spec fn taken_in(schematic: SchematicView) -> Result<SchematicView, CircError> {
    match layout_failure(schematic.components) {
        Some(e) => Err(e),
        None => Ok(schematic),
    }
}

/// The schematic that a parser holds once it has parsed `text`.
pub open spec fn parsed(text: Seq<char>) -> Result<SchematicView, CircError> {
    match schematic_of_text(text) {
        Err(e) => Err(e),
        Ok(schematic) => taken_in(schematic),
    }
}

impl CircParser {
    #[verifier::type_invariant]
    spec fn consistent(&self) -> bool {
        &&& layout_failure(component_views(self.components@)) is None
        &&& self.components_map@ == pin_map(component_views(self.components@))
        &&& self.wires_map@ == adjacency(self.wires@)
    }

    /// The components that the parser holds, in document order.
    pub closed spec fn components(&self) -> Seq<ComponentView> {
        component_views(self.components@)
    }

    /// The wires that the parser holds, in document order.
    pub closed spec fn wires(&self) -> Seq<Wire> {
        self.wires@
    }

    /// The schematic that the parser holds.
    pub open spec fn schematic(&self) -> SchematicView {
        SchematicView { components: self.components(), wires: self.wires() }
    }

    /// A parser that holds nothing.
    pub fn new() -> (r: CircParser)
        ensures
            r.components() == Seq::<ComponentView>::empty(),
            r.wires() == Seq::<Wire>::empty(),
    {
        let components: Vec<Component> = Vec::new();
        let wires: Vec<Wire> = Vec::new();
        let components_map = PinMap::new();
        let wires_map = WireMap::new();
        proof {
            assert(component_views(components@) =~= Seq::<ComponentView>::empty());
            assert(components_map@ =~= pin_map(component_views(components@)));
            assert(wires_map@ =~= adjacency(wires@));
        }
        CircParser { components, wires, components_map, wires_map }
    }

    /// Takes in a schematic in place of what the parser held. Where one of
    /// the components has no layout, the parser keeps what it held.
    pub fn load(&mut self, components: Vec<Component>, wires: Vec<Wire>) -> (r: Result<
        (),
        CircError,
    >)
        ensures
            match taken_in(
                SchematicView { components: component_views(components@), wires: wires@ },
            ) {
                Ok(s) => r is Ok && final(self).schematic() == s,
                Err(e) => r == Err::<(), CircError>(e)
                    && final(self).schematic() == old(self).schematic(),
            },
    {
        let components_map = match map_components_by_location(&components) {
            Ok(map) => map,
            Err(e) => {
                return Err(e);
            },
        };
        let wires_map = map_wires_by_location(&wires);
        *self = CircParser { components, wires, components_map, wires_map };
        Ok(())
    }

    /// Parses the text of a document and takes in the schematic that it
    /// describes. Where the text describes none, or one of the components
    /// has no layout, the parser keeps what it held.
    pub fn parse(&mut self, text: &str) -> (r: Result<(), CircError>)
        ensures
            match parsed(text@) {
                Ok(s) => r is Ok && final(self).schematic() == s,
                Err(e) => r == Err::<(), CircError>(e)
                    && final(self).schematic() == old(self).schematic(),
            },
    {
        match parse_schematic(text) {
            Ok(schematic) => self.load(schematic.components, schematic.wires),
            Err(e) => Err(e),
        }
    }

    /// The kind that a component name stands for; `None` for a name outside
    /// the closed set.
    pub fn get_component_type(&self, name: &str) -> (r: Option<ComponentType>)
        ensures
            r == ComponentType::of_name(name@),
    {
        ComponentType::from_name(name)
    }

    /// The components that the parser holds.
    pub fn component_list(&self) -> (r: &Vec<Component>)
        ensures
            component_views(r@) == self.components(),
    {
        &self.components
    }

    /// The wires that the parser holds.
    pub fn wire_list(&self) -> (r: &Vec<Wire>)
        ensures
            r@ == self.wires(),
    {
        &self.wires
    }

    /// Finds the components that `component` is wired to in the schematic
    /// that the parser holds.
    pub fn resolve_destinations(&self, component: &Component) -> (r: Result<Vec<String>, CircError>)
        ensures
            resolves_to(adjacency(self.wires()), pin_map(self.components()), component@, r),
            r matches Ok(found) ==> forall|i: int|
                0 <= i < found@.len() ==> (#[trigger] found@[i])@ != component.id@,
    {
        proof {
            use_type_invariant(self);
        }
        resolve_destinations(component, &self.components_map, &self.wires_map)
    }

    /// Walks from `module` through the schematic that the parser holds.
    pub fn track_wire_destinations(&self, module: ModuleType) -> (r: Result<Vec<String>, CircError>)
        ensures
            match r {
                Ok(found) => walk_result(
                    adjacency(self.wires()),
                    pin_map(self.components()),
                    module,
                ) == Ok::<Seq<Seq<char>>, CircError>(texts(found@)),
                Err(e) => walk_result(adjacency(self.wires()), pin_map(self.components()), module)
                    == Err::<Seq<Seq<char>>, CircError>(e),
            },
    {
        proof {
            use_type_invariant(self);
        }
        track_wire_destinations(module, &self.components_map, &self.wires_map)
    }

    /// Writes the netlist of the schematic that the parser holds.
    pub fn transpile_to_logic_code(&self) -> (r: Result<String, CircError>)
        ensures
            match r {
                Ok(text) => logic_code(
                    adjacency(self.wires()),
                    pin_map(self.components()),
                    self.components(),
                ) == Ok::<Seq<char>, CircError>(text@),
                Err(e) => logic_code(
                    adjacency(self.wires()),
                    pin_map(self.components()),
                    self.components(),
                ) == Err::<Seq<char>, CircError>(e),
            },
    {
        proof {
            use_type_invariant(self);
        }
        transpile(&self.components, &self.components_map, &self.wires_map)
    }
}

} // verus!
