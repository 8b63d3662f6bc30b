//! The netlist as text.
//!
//! First comes one block for each component, in order: a line with its id,
//! a line with its kind, a line for each attribute, and an empty line.
//! Then comes one line for each component and each of its destinations.

use vstd::prelude::*;
use vstd::string::StringExecFns;
use crate::error::CircError;
use crate::resolve::{destinations, resolve_destinations, texts};
use crate::types::{
    attributes_view, component_views, AttributesView, Component, ComponentView, Coordinate,
};
use crate::wiring::{PinMap, WireMap};

verus! {

/// The lines of a list of attributes.
pub open spec fn attribute_lines(attributes: AttributesView) -> Seq<char>
    decreases attributes.len(),
{
    if attributes.len() == 0 {
        Seq::empty()
    } else {
        attribute_lines(attributes.drop_last()) + "- "@ + attributes.last().0 + ": "@
            + attributes.last().1 + "\n"@
    }
}

/// The block that defines a component.
pub open spec fn definition(component: ComponentView) -> Seq<char> {
    "#define "@ + component.id + "\n"@ + "- type: "@ + component.component_type.text() + "\n"@
        + attribute_lines(component.attributes) + "\n"@
}

/// The blocks that define a list of components, in order.
pub open spec fn definitions(components: Seq<ComponentView>) -> Seq<char>
    decreases components.len(),
{
    if components.len() == 0 {
        Seq::empty()
    } else {
        definitions(components.drop_last()) + definition(components.last())
    }
}

/// The lines that attach the component `id` to each of its destinations, in
/// order.
pub open spec fn attach_lines(id: Seq<char>, destinations: Seq<Seq<char>>) -> Seq<char>
    decreases destinations.len(),
{
    if destinations.len() == 0 {
        Seq::empty()
    } else {
        attach_lines(id, destinations.drop_last()) + "#attach "@ + id + " "@ + destinations.last()
            + "\n"@
    }
}

/// The destinations of the component at position `i`, where `lists` holds
/// them; none where it does not.
pub open spec fn destinations_at(lists: Seq<Seq<Seq<char>>>, i: int) -> Seq<Seq<char>> {
    if 0 <= i < lists.len() {
        lists[i]
    } else {
        Seq::empty()
    }
}

/// The attach lines of the first `count` components, in order.
pub open spec fn attachments(
    components: Seq<ComponentView>,
    lists: Seq<Seq<Seq<char>>>,
    count: nat,
) -> Seq<char>
    decreases count,
{
    if count == 0 {
        Seq::empty()
    } else {
        attachments(components, lists, (count - 1) as nat) + attach_lines(
            components[count - 1].id,
            destinations_at(lists, count - 1),
        )
    }
}

/// The netlist of a list of components and their destinations.
pub open spec fn netlist_text(components: Seq<ComponentView>, lists: Seq<Seq<Seq<char>>>) -> Seq<
    char,
> {
    definitions(components) + attachments(components, lists, components.len())
}

/// The texts of a list of lists of strings.
pub open spec fn list_texts(lists: Seq<Vec<String>>) -> Seq<Seq<Seq<char>>> {
    lists.map_values(|v: Vec<String>| texts(v@))
}

/// Components without destinations have a netlist of definitions only.
pub proof fn lemma_no_destinations(
    components: Seq<ComponentView>,
    lists: Seq<Seq<Seq<char>>>,
    count: nat,
)
    requires
        count <= components.len(),
        forall|i: int| 0 <= i < lists.len() ==> (#[trigger] lists[i]).len() == 0,
    ensures
        attachments(components, lists, count) == Seq::<char>::empty(),
        count == components.len() ==> netlist_text(components, lists) == definitions(components),
    decreases count,
{
    if count > 0 {
        lemma_no_destinations(components, lists, (count - 1) as nat);
        assert(destinations_at(lists, count - 1).len() == 0);
        assert(attachments(components, lists, count) =~= Seq::<char>::empty());
    }
    if count == components.len() {
        assert(netlist_text(components, lists) =~= definitions(components));
    }
}

/// Writes the lines of a list of attributes behind `out`.
fn write_attributes(out: &mut String, attributes: &Vec<(String, String)>)
    ensures
        final(out)@ == old(out)@ + attribute_lines(attributes_view(attributes@)),
{
    let ghost all = attributes_view(attributes@);
    let mut i: usize = 0;
    assert(all.take(0) =~= Seq::<(Seq<char>, Seq<char>)>::empty());
    assert(out@ =~= old(out)@ + attribute_lines(all.take(0)));
    while i < attributes.len()
        invariant
            i <= attributes.len(),
            all == attributes_view(attributes@),
            out@ == old(out)@ + attribute_lines(all.take(i as int)),
        decreases attributes.len() - i,
    {
        let ghost head = out@;
        out.append("- ");
        out.append(attributes[i].0.as_str());
        out.append(": ");
        out.append(attributes[i].1.as_str());
        out.append("\n");
        proof {
            let next = all.take(i + 1);
            assert(next.drop_last() =~= all.take(i as int));
            assert(next.last() == all[i as int]);
            assert(out@ =~= old(out)@ + attribute_lines(next));
        }
        i += 1;
    }
    assert(all.take(i as int) =~= all);
}

/// Writes the block that defines `component` behind `out`.
fn write_definition(out: &mut String, component: &Component)
    ensures
        final(out)@ == old(out)@ + definition(component@),
{
    out.append("#define ");
    out.append(component.id.as_str());
    out.append("\n");
    out.append("- type: ");
    out.append(component.component_type.name());
    out.append("\n");
    write_attributes(out, &component.attributes);
    out.append("\n");
    assert(out@ =~= old(out)@ + definition(component@));
}

/// Writes the lines that attach `id` to each of `destinations` behind
/// `out`.
fn write_attach_lines(out: &mut String, id: &String, destinations: &Vec<String>)
    ensures
        final(out)@ == old(out)@ + attach_lines(id@, texts(destinations@)),
{
    let ghost all = texts(destinations@);
    let mut i: usize = 0;
    assert(all.take(0) =~= Seq::<Seq<char>>::empty());
    assert(out@ =~= old(out)@ + attach_lines(id@, all.take(0)));
    while i < destinations.len()
        invariant
            i <= destinations.len(),
            all == texts(destinations@),
            out@ == old(out)@ + attach_lines(id@, all.take(i as int)),
        decreases destinations.len() - i,
    {
        out.append("#attach ");
        out.append(id.as_str());
        out.append(" ");
        out.append(destinations[i].as_str());
        out.append("\n");
        proof {
            let next = all.take(i + 1);
            assert(next.drop_last() =~= all.take(i as int));
            assert(next.last() == all[i as int]);
            assert(out@ =~= old(out)@ + attach_lines(id@, next));
        }
        i += 1;
    }
    assert(all.take(i as int) =~= all);
}

/// Writes the netlist of `components`, where `destinations` holds the
/// destinations of each component at the component's own position. A
/// component for which it holds none has none.
pub fn serialize(components: &Vec<Component>, destinations: &Vec<Vec<String>>) -> (r: String)
    ensures
        r@ == netlist_text(component_views(components@), list_texts(destinations@)),
{
    let ghost all = component_views(components@);
    let ghost lists = list_texts(destinations@);
    let mut out = String::new();
    let mut i: usize = 0;
    assert(all.take(0) =~= Seq::<ComponentView>::empty());
    assert(out@ =~= definitions(all.take(0)));
    while i < components.len()
        invariant
            i <= components.len(),
            all == component_views(components@),
            out@ == definitions(all.take(i as int)),
        decreases components.len() - i,
    {
        write_definition(&mut out, &components[i]);
        proof {
            let next = all.take(i + 1);
            assert(next.drop_last() =~= all.take(i as int));
            assert(next.last() == components@[i as int]@);
        }
        i += 1;
    }
    assert(all.take(i as int) =~= all);
    let mut i: usize = 0;
    assert(out@ =~= definitions(all) + attachments(all, lists, 0));
    let none: Vec<String> = Vec::new();
    assert(texts(none@) =~= Seq::<Seq<char>>::empty());
    while i < components.len()
        invariant
            i <= components.len(),
            all == component_views(components@),
            lists == list_texts(destinations@),
            texts(none@) == Seq::<Seq<char>>::empty(),
            out@ == definitions(all) + attachments(all, lists, i as nat),
        decreases components.len() - i,
    {
        if i < destinations.len() {
            write_attach_lines(&mut out, &components[i].id, &destinations[i]);
        } else {
            write_attach_lines(&mut out, &components[i].id, &none);
        }
        proof {
            assert(all[i as int].id == components@[i as int].id@);
            assert(out@ =~= definitions(all) + attachments(all, lists, (i + 1) as nat));
        }
        i += 1;
    }
    out
}

/// The destinations of each of a list of components, in order, or the
/// failure of the first component that has one.
pub open spec fn all_destinations(
    adj: Map<Coordinate, Seq<Coordinate>>,
    pins: Map<Coordinate, Seq<char>>,
    components: Seq<ComponentView>,
) -> Result<Seq<Seq<Seq<char>>>, CircError>
    decreases components.len(),
{
    if components.len() == 0 {
        Ok(Seq::empty())
    } else {
        match all_destinations(adj, pins, components.drop_last()) {
            Err(e) => Err(e),
            Ok(lists) => match destinations(adj, pins, components.last()) {
                Err(e) => Err(e),
                Ok(found) => Ok(lists.push(found)),
            },
        }
    }
}

/// A failure among the first `k` components is the failure of the whole
/// list.
proof fn lemma_failure_stays(
    adj: Map<Coordinate, Seq<Coordinate>>,
    pins: Map<Coordinate, Seq<char>>,
    components: Seq<ComponentView>,
    k: int,
)
    requires
        0 <= k <= components.len(),
        all_destinations(adj, pins, components.take(k)) is Err,
    ensures
        all_destinations(adj, pins, components) == all_destinations(adj, pins, components.take(k)),
    decreases components.len() - k,
{
    if k == components.len() {
        assert(components.take(k) =~= components);
    } else {
        assert(components.take(k + 1).drop_last() =~= components.take(k));
        lemma_failure_stays(adj, pins, components, k + 1);
    }
}

/// Resolves the destinations of each of `components`, in order.
pub fn resolve_all(components: &Vec<Component>, pins: &PinMap, wires: &WireMap) -> (r: Result<
    Vec<Vec<String>>,
    CircError,
>)
    ensures
        match r {
            Ok(lists) => all_destinations(wires@, pins@, component_views(components@)) == Ok::<
                Seq<Seq<Seq<char>>>,
                CircError,
            >(list_texts(lists@)),
            Err(e) => all_destinations(wires@, pins@, component_views(components@)) == Err::<
                Seq<Seq<Seq<char>>>,
                CircError,
            >(e),
        },
{
    let ghost all = component_views(components@);
    let mut lists: Vec<Vec<String>> = Vec::new();
    let mut i: usize = 0;
    assert(all.take(0) =~= Seq::<ComponentView>::empty());
    assert(list_texts(lists@) =~= Seq::<Seq<Seq<char>>>::empty());
    while i < components.len()
        invariant
            i <= components.len(),
            all == component_views(components@),
            all_destinations(wires@, pins@, all.take(i as int)) == Ok::<
                Seq<Seq<Seq<char>>>,
                CircError,
            >(list_texts(lists@)),
        decreases components.len() - i,
    {
        let ghost next = all.take(i + 1);
        assert(next.drop_last() =~= all.take(i as int));
        assert(next.last() == components@[i as int]@);
        let ghost had = lists@;
        match resolve_destinations(&components[i], pins, wires) {
            Ok(found) => {
                lists.push(found);
                assert(list_texts(lists@) =~= list_texts(had).push(texts(found@)));
            },
            Err(e) => {
                proof {
                    lemma_failure_stays(wires@, pins@, all, i + 1);
                }
                return Err(e);
            },
        }
        i += 1;
    }
    assert(all.take(i as int) =~= all);
    Ok(lists)
}

/// The netlist of a schematic, or the failure of the first component whose
/// destinations cannot be resolved.
pub open spec fn logic_code(
    adj: Map<Coordinate, Seq<Coordinate>>,
    pins: Map<Coordinate, Seq<char>>,
    components: Seq<ComponentView>,
) -> Result<Seq<char>, CircError> {
    match all_destinations(adj, pins, components) {
        Ok(lists) => Ok(netlist_text(components, lists)),
        Err(e) => Err(e),
    }
}

/// Resolves the destinations of each of `components` and writes the
/// netlist.
pub fn transpile(components: &Vec<Component>, pins: &PinMap, wires: &WireMap) -> (r: Result<
    String,
    CircError,
>)
    ensures
        match r {
            Ok(text) => logic_code(wires@, pins@, component_views(components@)) == Ok::<
                Seq<char>,
                CircError,
            >(text@),
            Err(e) => logic_code(wires@, pins@, component_views(components@)) == Err::<
                Seq<char>,
                CircError,
            >(e),
        },
{
    match resolve_all(components, pins, wires) {
        Ok(lists) => Ok(serialize(components, &lists)),
        Err(e) => Err(e),
    }
}

} // verus!
