//! Changes to a room: new layers, new objects, and other items at its pickup locations.

use vstd::prelude::*;
use crate::model;
use crate::model::{
    Area, Connection, LayerDependencies, ResourceKey, SclyLayer, SclyObject, SclyProperty,
};
use crate::objects;
use crate::tables;
use crate::tables::{ObjectLocation, ObjectsToRemove, PickupLocation, RoomInfo, Tables};
use crate::text;

verus! {

/// The most layers that a room can have, one for each bit of its flags.
pub const MAX_LAYERS: u32 = 64;

/// The existing relay of the Artifact Temple that shows the progress.
pub const SHOW_PROGRESS_RELAY: u32 = 1048869;

/// The existing relay of the Artifact Temple that starts the showing.
pub const START_PROGRESS_RELAY: u32 = 68158836;

/// The room with one more layer on top, empty and active; `None` if it has no bit left for one.
pub open spec fn with_layer(a: model::AreaView, name: Seq<char>) -> Option<model::AreaView> {
    if a.layer_count >= MAX_LAYERS {
        None
    } else {
        Some(
            model::AreaView {
                layer_count: (a.layer_count + 1) as u32,
                flags: a.flags | (1u64 << (a.layer_count as u64)),
                layers: a.layers.push(Seq::empty()),
                added_layers: a.added_layers.push(name),
                ..a
            },
        )
    }
}

/// The room with one more object in a layer; `None` if it has no such layer.
pub open spec fn with_object(
    a: model::AreaView,
    layer: int,
    object: model::ObjectView,
) -> Option<model::AreaView> {
    if 0 <= layer < a.layers.len() {
        Some(
            model::AreaView {
                layers: a.layers.update(layer, a.layers[layer].push(object)),
                ..a
            },
        )
    } else {
        None
    }
}

/// The position of the first object with an id.
pub open spec fn first_with_id(objects: Seq<model::ObjectView>, id: u32) -> Option<int>
    decreases objects.len(),
{
    if objects.len() == 0 {
        None
    } else if objects[0].instance_id == id {
        Some(0)
    } else {
        match first_with_id(objects.drop_first(), id) {
            Some(i) => Some(i + 1),
            None => None,
        }
    }
}

/// The room with one object changed; `None` if there is no such object, or none that can change
/// that way.
pub open spec fn with_change(
    a: model::AreaView,
    at: ObjectLocation,
    change: spec_fn(model::ObjectView) -> Option<model::ObjectView>,
) -> Option<model::AreaView> {
    if at.layer >= a.layers.len() {
        None
    } else {
        let objects = a.layers[at.layer as int];
        match first_with_id(objects, at.instance_id) {
            None => None,
            Some(i) => match change(objects[i]) {
                None => None,
                Some(object) => Some(
                    model::AreaView {
                        layers: a.layers.update(at.layer as int, objects.update(i, object)),
                        ..a
                    },
                ),
            },
        }
    }
}

/// The position found is that of an object with the id, and no earlier one has it.
pub proof fn lemma_first_with_id(objects: Seq<model::ObjectView>, id: u32)
    ensures
        match first_with_id(objects, id) {
            Some(i) => {
                &&& 0 <= i < objects.len()
                &&& objects[i].instance_id == id
                &&& forall|j: int| 0 <= j < i ==> (#[trigger] objects[j]).instance_id != id
            },
            None => forall|j: int|
                0 <= j < objects.len() ==> (#[trigger] objects[j]).instance_id != id,
        },
    decreases objects.len(),
{
    if objects.len() > 0 && objects[0].instance_id != id {
        let rest = objects.drop_first();
        lemma_first_with_id(rest, id);
        let end = match first_with_id(rest, id) {
            Some(i) => i,
            None => rest.len() as int,
        };
        assert forall|j: int| 0 <= j < end + 1 implies (#[trigger] objects[j]).instance_id
            != id by {
            if j > 0 {
                assert(rest[j - 1] == objects[j]);
            }
        }
    }
}

/// Finds the first object of a layer with an id.
fn find_object(layer: &SclyLayer, id: u32) -> (r: Option<usize>)
    ensures
        match r {
            Some(i) => first_with_id(layer@, id) == Some(i as int) && i < layer.objects@.len(),
            None => first_with_id(layer@, id) is None,
        },
{
    proof {
        lemma_first_with_id(layer@, id);
    }
    for i in 0..layer.objects.len()
        invariant
            forall|j: int| 0 <= j < i ==> (#[trigger] layer@[j]).instance_id != id,
            match first_with_id(layer@, id) {
                Some(i) => 0 <= i < layer@.len() && layer@[i].instance_id == id && forall|j: int|
                    0 <= j < i ==> (#[trigger] layer@[j]).instance_id != id,
                None => forall|j: int|
                    0 <= j < layer@.len() ==> (#[trigger] layer@[j]).instance_id != id,
            },
    {
        assert(layer@[i as int] == layer.objects@[i as int]@);
        if layer.objects[i].instance_id == id {
            return Some(i);
        }
    }
    None
}

/// Finds an object of a room.
fn find_in_area(area: &Area, at: &ObjectLocation) -> (r: Option<usize>)
    ensures
        match r {
            Some(i) => {
                &&& at.layer < area.layers@.len()
                &&& i < area.layers@[at.layer as int].objects@.len()
                &&& first_with_id(area@.layers[at.layer as int], at.instance_id) == Some(i as int)
            },
            None => at.layer >= area@.layers.len() || first_with_id(
                area@.layers[at.layer as int],
                at.instance_id,
            ) is None,
        },
{
    if at.layer as usize >= area.layers.len() {
        return None;
    }
    find_object(&area.layers[at.layer as usize], at.instance_id)
}

/// Changing one object changes the view of the room at that place.
proof fn lemma_object_changed(old_layers: Seq<SclyLayer>, new_layers: Seq<SclyLayer>, l: int, i: int)
    requires
        0 <= l < old_layers.len(),
        new_layers.len() == old_layers.len(),
        forall|k: int| 0 <= k < old_layers.len() && k != l ==> new_layers[k] == old_layers[k],
        0 <= i < old_layers[l].objects@.len(),
        new_layers[l].objects@.len() == old_layers[l].objects@.len(),
        forall|k: int|
            0 <= k < old_layers[l].objects@.len() && k != i ==> new_layers[l].objects@[k]
                == old_layers[l].objects@[k],
    ensures
        model::views(new_layers) == model::views(old_layers).update(
            l,
            old_layers[l]@.update(i, new_layers[l].objects@[i]@),
        ),
{
    assert(new_layers[l]@ =~= old_layers[l]@.update(i, new_layers[l].objects@[i]@));
    assert(model::views(new_layers) =~= model::views(old_layers).update(
        l,
        old_layers[l]@.update(i, new_layers[l].objects@[i]@),
    ));
}

impl Area {
    /// Adds a layer, empty and active, on top of the others.
    pub fn add_layer(self, name: String) -> (r: Option<Area>)
        ensures
            r is Some <==> with_layer(self@, name@) is Some,
            r is Some ==> (r->0)@ == with_layer(self@, name@)->0,
    {
        let mut area = self;
        if area.layer_count >= MAX_LAYERS {
            return None;
        }
        let bit = 1u64 << (area.layer_count as u64);
        area.flags = area.flags | bit;
        area.layer_count = area.layer_count + 1;
        let layer = SclyLayer { objects: Vec::new() };
        assert(layer@ =~= Seq::empty());
        area.layers.push(layer);
        area.added_layers.push(name);
        assert(area@.layers =~= self@.layers.push(Seq::empty()));
        assert(area@.added_layers =~= self@.added_layers.push(name@));
        Some(area)
    }

    /// Adds an object to a layer.
    pub fn add_object(self, layer: usize, object: SclyObject) -> (r: Option<Area>)
        ensures
            r is Some <==> with_object(self@, layer as int, object@) is Some,
            r is Some ==> (r->0)@ == with_object(self@, layer as int, object@)->0,
    {
        let mut area = self;
        if layer >= area.layers.len() {
            return None;
        }
        area.layers[layer].objects.push(object);
        assert(area.layers@[layer as int]@ =~= self.layers@[layer as int]@.push(object@));
        assert(area@.layers =~= self@.layers.update(
            layer as int,
            self@.layers[layer as int].push(object@),
        ));
        Some(area)
    }
}

/// The layers without the objects to remove; `None` if one of those names a layer that is not
/// there.
pub open spec fn without_objects(
    layers: Seq<Seq<model::ObjectView>>,
    removals: Seq<tables::ObjectsToRemoveView>,
) -> Option<Seq<Seq<model::ObjectView>>>
    decreases removals.len(),
{
    if removals.len() == 0 {
        Some(layers)
    } else {
        let first = removals[0];
        if first.layer >= layers.len() {
            None
        } else {
            let kept = layers[first.layer as int].filter(
                |o: model::ObjectView| !first.instance_ids.contains(o.instance_id),
            );
            without_objects(layers.update(first.layer as int, kept), removals.drop_first())
        }
    }
}

/// Whether an id is among others.
fn has_id(ids: &Vec<u32>, id: u32) -> (r: bool)
    ensures
        r == ids@.contains(id),
{
    for i in 0..ids.len()
        invariant
            forall|j: int| 0 <= j < i ==> ids@[j] != id,
    {
        if ids[i] == id {
            return true;
        }
    }
    false
}

/// Removes the objects of a layer that have one of the ids.
fn remove_from_layer(layer: &mut SclyLayer, ids: &Vec<u32>)
    ensures
        final(layer)@ == old(layer)@.filter(
            |o: model::ObjectView| !ids@.contains(o.instance_id),
        ),
{
    let ghost original = layer@;
    let ghost keep = |o: model::ObjectView| !ids@.contains(o.instance_id);
    let total = layer.objects.len();
    let mut i: usize = 0;
    let mut seen: usize = 0;
    assert(original.take(0).filter(keep) =~= Seq::empty()) by {
        reveal(Seq::filter);
    }
    assert(layer@.skip(0) =~= original);
    while seen < total
        invariant
            total == original.len(),
            keep == (|o: model::ObjectView| !ids@.contains(o.instance_id)),
            seen <= total,
            i <= layer.objects.len(),
            layer.objects.len() - i == total - seen,
            layer@.take(i as int) == original.take(seen as int).filter(keep),
            layer@.skip(i as int) == original.skip(seen as int),
        decreases total - seen,
    {
        let ghost before = layer@;
        assert(layer@[i as int] == layer@.skip(i as int)[0]);
        assert(layer@[i as int] == original[seen as int]);
        assert(layer@[i as int] == layer.objects@[i as int]@);
        assert(original.take(seen + 1).filter(keep) == if keep(original[seen as int]) {
            original.take(seen as int).filter(keep).push(original[seen as int])
        } else {
            original.take(seen as int).filter(keep)
        }) by {
            reveal(Seq::filter);
            assert(original.take(seen + 1).drop_last() =~= original.take(seen as int));
        }
        if has_id(ids, layer.objects[i].instance_id) {
            layer.objects.remove(i);
            assert(layer@ =~= before.remove(i as int));
            assert(layer@.take(i as int) =~= before.take(i as int));
            assert(layer@.skip(i as int) =~= before.skip(i as int).skip(1));
        } else {
            assert(layer@.take(i + 1) =~= layer@.take(i as int).push(layer@[i as int]));
            assert(layer@.skip(i + 1) =~= before.skip(i as int).skip(1));
            i = i + 1;
        }
        assert(original.skip(seen as int).skip(1) =~= original.skip(seen + 1));
        seen = seen + 1;
    }
    assert(original.take(total as int) =~= original);
    assert(layer@.take(i as int) =~= layer@);
}

/// Removes objects from the layers.
pub fn remove_objects(layers: Vec<SclyLayer>, removals: &Vec<ObjectsToRemove>) -> (r: Option<
    Vec<SclyLayer>,
>)
    ensures
        r is Some <==> without_objects(
            model::views(layers@),
            model::views(removals@),
        ) is Some,
        r is Some ==> model::views((r->0)@) == without_objects(
            model::views(layers@),
            model::views(removals@),
        )->0,
{
    let mut result = layers;
    let ghost all = model::views(removals@);
    assert(all.skip(0) =~= all);
    for i in 0..removals.len()
        invariant
            all == model::views(removals@),
            without_objects(model::views(layers@), all) == without_objects(
                model::views(result@),
                all.skip(i as int),
            ),
    {
        let ghost now = result@;
        assert(all.skip(i as int)[0] == removals@[i as int]@);
        assert(all.skip(i as int).drop_first() =~= all.skip(i + 1));
        let layer = removals[i].layer as usize;
        if layer >= result.len() {
            return None;
        }
        remove_from_layer(&mut result[layer], &removals[i].instance_ids);
        assert(model::views(result@) =~= model::views(now).update(
            layer as int,
            result@[layer as int]@,
        ));
    }
    assert(all.skip(removals@.len() as int) =~= Seq::empty());
    Some(result)
}

/// The connections that the starting relay has after the change: none to the relay that shows the
/// progress, and one to the new relay.
pub open spec fn redirected(object: model::ObjectView, new_relay: u32) -> model::ObjectView {
    model::ObjectView {
        connections: object.connections.filter(
            |c: Connection| c.target_object_id != SHOW_PROGRESS_RELAY,
        ).push(Connection { state: 9, message: 13, target_object_id: new_relay }),
        ..object
    }
}

/// The flags of the Artifact Temple: the new layer is active exactly with the Artifact of Truth,
/// and another artifact makes its own layer active.
pub open spec fn temple_flags(flags: u64, pickup_kind: u32) -> u64 {
    let truth = if pickup_kind != objects::TRUTH_KIND {
        flags & !(1u64 << 24u64)
    } else {
        flags
    };
    if objects::TRUTH_KIND < pickup_kind <= objects::LAST_ARTIFACT_KIND {
        truth | (1u64 << ((pickup_kind - 28) as u64))
    } else {
        truth
    }
}

/// The Artifact Temple with the Artifact of Truth required, and the next unused id; `None` if the
/// room is not as expected.
pub open spec fn truth_required(a: model::AreaView, pickup_kind: u32, fresh: u32) -> Option<
    (model::AreaView, u32),
> {
    if a.layer_count != objects::ARTIFACT_OF_TRUTH_REQ_LAYER || fresh == u32::MAX {
        None
    } else {
        let layered = with_layer(a, "Randomizer - Got Artifact 1"@)->0;
        let flagged = model::AreaView { flags: temple_flags(layered.flags, pickup_kind), ..layered };
        let new_relay = objects::relay(
            fresh,
            seq![Connection { state: 9, message: 13, target_object_id: SHOW_PROGRESS_RELAY }],
            "Relay Show Progress1"@,
        );
        match with_object(flagged, objects::ARTIFACT_OF_TRUTH_REQ_LAYER as int, new_relay) {
            None => None,
            Some(related) => match with_change(
                related,
                ObjectLocation { layer: 1, instance_id: START_PROGRESS_RELAY },
                |o: model::ObjectView| Some(redirected(o, fresh)),
            ) {
                None => None,
                Some(done) => Some((done, (fresh + 1) as u32)),
            },
        }
    }
}

/// Redirects the relay that starts the showing of progress.
fn redirect(object: &mut SclyObject, new_relay: u32)
    ensures
        final(object)@ == redirected(old(object)@, new_relay),
{
    let ghost all = object.connections@;
    let ghost keep = |c: Connection| c.target_object_id != SHOW_PROGRESS_RELAY;
    let mut kept: Vec<Connection> = Vec::new();
    assert(all.take(0).filter(keep) =~= Seq::empty()) by {
        reveal(Seq::filter);
    }
    for i in 0..object.connections.len()
        invariant
            all == object.connections@,
            keep == (|c: Connection| c.target_object_id != SHOW_PROGRESS_RELAY),
            kept@ == all.take(i as int).filter(keep),
    {
        assert(all.take(i + 1).filter(keep) == if keep(all[i as int]) {
            all.take(i as int).filter(keep).push(all[i as int])
        } else {
            all.take(i as int).filter(keep)
        }) by {
            reveal(Seq::filter);
            assert(all.take(i + 1).drop_last() =~= all.take(i as int));
        }
        let c = object.connections[i];
        if c.target_object_id != SHOW_PROGRESS_RELAY {
            kept.push(c);
        }
    }
    assert(all.take(all.len() as int) =~= all);
    kept.push(Connection { state: 9, message: 13, target_object_id: new_relay });
    object.connections = kept;
}

/// Makes the Artifact of Truth required to complete the game.
pub fn fix_artifact_of_truth_requirement(area: Area, pickup_kind: u32, fresh: u32) -> (r: Option<
    (Area, u32),
>)
    ensures
        r is Some <==> truth_required(area@, pickup_kind, fresh) is Some,
        r is Some ==> ((r->0).0@, (r->0).1) == truth_required(area@, pickup_kind, fresh)->0,
{
    if area.layer_count != objects::ARTIFACT_OF_TRUTH_REQ_LAYER || fresh == u32::MAX {
        return None;
    }
    let mut area = match area.add_layer("Randomizer - Got Artifact 1".to_owned()) {
        Some(area) => area,
        None => {
            return None;
        },
    };
    if pickup_kind != objects::TRUTH_KIND {
        area.flags = area.flags & !(1u64 << 24u64);
    }
    if pickup_kind > objects::TRUTH_KIND && pickup_kind <= objects::LAST_ARTIFACT_KIND {
        area.flags = area.flags | (1u64 << ((pickup_kind - 28) as u64));
    }
    let mut connections: Vec<Connection> = Vec::new();
    connections.push(
        Connection { state: 9, message: 13, target_object_id: SHOW_PROGRESS_RELAY },
    );
    let new_relay = SclyObject {
        instance_id: fresh,
        connections,
        property_data: SclyProperty::Relay { name: "Relay Show Progress1".to_owned(), active: 1 },
    };
    let mut area = match area.add_object(
        objects::ARTIFACT_OF_TRUTH_REQ_LAYER as usize,
        new_relay,
    ) {
        Some(area) => area,
        None => {
            return None;
        },
    };
    let at = ObjectLocation { layer: 1, instance_id: START_PROGRESS_RELAY };
    let i = match find_in_area(&area, &at) {
        Some(i) => i,
        None => {
            return None;
        },
    };
    let ghost before = area.layers@;
    redirect(&mut area.layers[1].objects[i], fresh);
    proof {
        lemma_object_changed(before, area.layers@, 1, i as int);
    }
    Some((area, fresh + 1))
}

/// The name of the layer that is added for a pickup location.
pub open spec fn pickup_layer_name(location_idx: int, pickup_name: Seq<u8>) -> Seq<char> {
    "Randomizer - Pickup "@ + text::decimal_text(location_idx as nat) + " (\""@ + text::escaped(
        pickup_name,
    ) + "\")"@
}

/// Names the layer that is added for a pickup location.
pub fn name_pickup_layer(location_idx: usize, pickup_name: &Vec<u8>) -> (r: String)
    ensures
        r@ == pickup_layer_name(location_idx as int, pickup_name@),
{
    let mut name = "Randomizer - Pickup ".to_owned();
    let number = text::decimal(location_idx as u64);
    name.append(number.as_str());
    name.append(" (\"");
    let escaped = text::escape(pickup_name);
    name.append(escaped.as_str());
    name.append("\")");
    name
}

/// The resources that a room needs for an item: those of the item and, for a message that does
/// not interrupt, the text of that message.
pub open spec fn needed_resources(
    t: tables::TablesView,
    item: int,
    skip_hudmenus: bool,
) -> Seq<ResourceKey> {
    if skip_hudmenus {
        t.items[item].deps.push(
            ResourceKey {
                file_id: tables::skip_hudmemo_id(t.ids, item),
                fourcc: model::STRG,
            },
        )
    } else {
        t.items[item].deps
    }
}

/// Lists the resources that a room needs for an item.
pub fn list_needed_resources(t: &Tables, item: usize, skip_hudmenus: bool) -> (r: Vec<ResourceKey>)
    requires
        t@.wf(),
        skip_hudmenus ==> t@.has_message_ids(),
        item < t@.items.len(),
    ensures
        r@ == needed_resources(t@, item as int, skip_hudmenus),
{
    let deps = &t.items[item].deps;
    assert(t@.items[item as int] == t.items@[item as int]@);
    let mut r: Vec<ResourceKey> = Vec::new();
    for i in 0..deps.len()
        invariant
            r@ == deps@.take(i as int),
    {
        r.push(deps[i]);
    }
    assert(deps@.take(deps@.len() as int) =~= deps@);
    if skip_hudmenus {
        r.push(
            ResourceKey {
                file_id: tables::skip_hudmemos_strg_id(&t.ids, item),
                fourcc: model::STRG,
            },
        );
    }
    r
}

/// The objects that are added for a pickup location, and the connections that lead to them from
/// the pickup: a relay and, for an artifact, a function that switches on its layer.
pub open spec fn added_objects(
    place: tables::PickupLocationView,
    pickup_kind: u32,
    fresh: u32,
) -> Seq<model::ObjectView> {
    let first = objects::post_pickup_relay(fresh, place.post_pickup_relay_connections);
    if objects::is_artifact_kind(pickup_kind) {
        seq![first, objects::artifact_layer_change((fresh + 1) as u32, pickup_kind)]
    } else {
        seq![first]
    }
}

/// The connections from a pickup to the objects that are added for it.
pub open spec fn added_connections(pickup_kind: u32, fresh: u32) -> Seq<Connection> {
    let first = Connection { state: 1, message: 13, target_object_id: fresh };
    if objects::is_artifact_kind(pickup_kind) {
        seq![
            first,
            Connection { state: 1, message: 7, target_object_id: (fresh + 1) as u32 },
        ]
    } else {
        seq![first]
    }
}

/// The room with several more objects in a layer.
pub open spec fn with_objects(
    a: model::AreaView,
    layer: int,
    added: Seq<model::ObjectView>,
) -> Option<model::AreaView>
    decreases added.len(),
{
    if added.len() == 0 {
        Some(a)
    } else {
        match with_objects(a, layer, added.drop_last()) {
            None => None,
            Some(b) => with_object(b, layer, added.last()),
        }
    }
}

/// A pickup object that holds another item and tells more objects when it is taken.
pub open spec fn refilled(
    object: model::ObjectView,
    item: model::PickupModel,
    connections: Seq<Connection>,
) -> Option<model::ObjectView> {
    match objects::with_pickup_updated(object, item) {
        None => None,
        Some(o) => Some(model::ObjectView { connections: o.connections + connections, ..o }),
    }
}

/// The room with one item changed at each of the three objects of a location.
pub open spec fn with_item(
    a: model::AreaView,
    place: tables::PickupLocationView,
    location_idx: int,
    item: int,
    fresh: u32,
    t: tables::TablesView,
    skip_hudmenus: bool,
) -> Option<model::AreaView> {
    let meta = t.items[item];
    match with_change(
        a,
        place.location,
        |o: model::ObjectView|
            refilled(o, meta.pickup, added_connections(meta.pickup.kind, fresh)),
    ) {
        None => None,
        Some(b) => match with_change(
            b,
            place.hudmemo,
            |o: model::ObjectView|
                objects::with_hudmemo_updated(
                    o,
                    meta.hudmemo_strg,
                    tables::skip_hudmemo_id(t.ids, item),
                    location_idx,
                    skip_hudmenus,
                ),
        ) {
            None => None,
            Some(c) => with_change(
                c,
                place.attainment_audio,
                |o: model::ObjectView|
                    objects::with_audio_updated(o, meta.attainment_audio_file_name),
            ),
        },
    }
}

/// The room with a layer for a location: the layer, what it needs, and, in the Artifact Temple,
/// the requirement of the Artifact of Truth. With it the next unused id.
pub open spec fn with_pickup_layer(
    a: model::AreaView,
    location_idx: int,
    item: int,
    only_location: bool,
    fresh: u32,
    t: tables::TablesView,
    skip_hudmenus: bool,
) -> Option<(model::AreaView, u32)> {
    let meta = t.items[item];
    match with_layer(a, pickup_layer_name(location_idx, meta.pickup_name)) {
        None => None,
        Some(b) => {
            let c = model::AreaView {
                added_dependencies: b.added_dependencies.push(
                    model::LayerDependenciesView {
                        layer: b.layer_count - 1,
                        deps: needed_resources(t, item, skip_hudmenus),
                    },
                ),
                ..b
            };
            if a.mrea_file_id == t.ids.artifact_temple_mrea {
                if only_location {
                    truth_required(c, meta.pickup.kind, fresh)
                } else {
                    None
                }
            } else {
                Some((c, fresh))
            }
        },
    }
}

/// The number of objects that are added for a pickup.
pub open spec fn added_count(pickup_kind: u32) -> int {
    if objects::is_artifact_kind(pickup_kind) {
        2
    } else {
        1
    }
}

/// The room with an item put at one of its locations, and the next unused id; `None` if the room
/// is not as expected or the ids run out.
pub open spec fn with_location(
    a: model::AreaView,
    place: tables::PickupLocationView,
    location_idx: int,
    item: int,
    only_location: bool,
    fresh: u32,
    t: tables::TablesView,
    skip_hudmenus: bool,
) -> Option<(model::AreaView, u32)> {
    let kind = t.items[item].pickup.kind;
    match with_pickup_layer(a, location_idx, item, only_location, fresh, t, skip_hudmenus) {
        None => None,
        Some((b, id)) => if id + added_count(kind) > u32::MAX {
            None
        } else {
            match with_objects(b, a.layer_count as int, added_objects(place, kind, id)) {
                None => None,
                Some(c) => match with_item(c, place, location_idx, item, id, t, skip_hudmenus) {
                    None => None,
                    Some(d) => Some((d, (id + added_count(kind)) as u32)),
                },
            }
        },
    }
}

/// Adds the layer for a location.
fn add_pickup_layer(
    area: Area,
    location_idx: usize,
    item: usize,
    only_location: bool,
    fresh: u32,
    t: &Tables,
    skip_hudmenus: bool,
) -> (r: Option<(Area, u32)>)
    requires
        t@.wf(),
        skip_hudmenus ==> t@.has_message_ids(),
        item < t@.items.len(),
    ensures
        r is Some <==> with_pickup_layer(
            area@,
            location_idx as int,
            item as int,
            only_location,
            fresh,
            t@,
            skip_hudmenus,
        ) is Some,
        r is Some ==> ((r->0).0@, (r->0).1) == with_pickup_layer(
            area@,
            location_idx as int,
            item as int,
            only_location,
            fresh,
            t@,
            skip_hudmenus,
        )->0,
{
    let meta = &t.items[item];
    assert(t@.items[item as int] == meta@);
    let is_temple = area.mrea_file_id == t.ids.artifact_temple_mrea;
    let mut area = match area.add_layer(name_pickup_layer(location_idx, &meta.pickup_name)) {
        Some(area) => area,
        None => {
            return None;
        },
    };
    let ghost layered = area@;
    let needed = LayerDependencies {
        layer: (area.layer_count - 1) as usize,
        deps: list_needed_resources(t, item, skip_hudmenus),
    };
    area.added_dependencies.push(needed);
    assert(area@.added_dependencies =~= layered.added_dependencies.push(needed@));
    if is_temple {
        if only_location {
            fix_artifact_of_truth_requirement(area, meta.pickup.kind, fresh)
        } else {
            None
        }
    } else {
        Some((area, fresh))
    }
}

/// Puts an item into the three objects of a location.
fn put_item(
    area: Area,
    place: &PickupLocation,
    location_idx: usize,
    item: usize,
    fresh: u32,
    t: &Tables,
    skip_hudmenus: bool,
) -> (r: Option<Area>)
    requires
        t@.wf(),
        skip_hudmenus ==> t@.has_message_ids(),
        item < t@.items.len(),
        fresh < u32::MAX,
    ensures
        r is Some <==> with_item(
            area@,
            place@,
            location_idx as int,
            item as int,
            fresh,
            t@,
            skip_hudmenus,
        ) is Some,
        r is Some ==> (r->0)@ == with_item(
            area@,
            place@,
            location_idx as int,
            item as int,
            fresh,
            t@,
            skip_hudmenus,
        )->0,
{
    let mut area = area;
    let meta = &t.items[item];
    assert(t@.items[item as int] == meta@);
    let kind = meta.pickup.kind;

    let l = place.location.layer as usize;
    let i = match find_in_area(&area, &place.location) {
        Some(i) => i,
        None => {
            return None;
        },
    };
    let ghost before = area.layers@;
    let ghost old_object = before[l as int].objects@[i as int]@;
    if !objects::update_pickup(&mut area.layers[l].objects[i], &meta.pickup) {
        return None;
    }
    area.layers[l].objects[i].connections.push(
        Connection { state: 1, message: 13, target_object_id: fresh },
    );
    if kind >= objects::TRUTH_KIND && kind <= objects::LAST_ARTIFACT_KIND {
        area.layers[l].objects[i].connections.push(
            Connection { state: 1, message: 7, target_object_id: fresh + 1 },
        );
    }
    proof {
        let p = objects::with_pickup_updated(old_object, meta.pickup)->0;
        assert(area.layers@[l as int].objects@[i as int]@.connections =~= p.connections
            + added_connections(kind, fresh));
        lemma_object_changed(before, area.layers@, l as int, i as int);
    }

    let l = place.hudmemo.layer as usize;
    let i = match find_in_area(&area, &place.hudmemo) {
        Some(i) => i,
        None => {
            return None;
        },
    };
    let ghost before = area.layers@;
    let skip_strg: u32 = if skip_hudmenus {
        tables::skip_hudmemos_strg_id(&t.ids, item)
    } else {
        0
    };
    if !objects::update_hudmemo(
        &mut area.layers[l].objects[i],
        meta.hudmemo_strg,
        skip_strg,
        location_idx,
        skip_hudmenus,
    ) {
        return None;
    }
    proof {
        lemma_object_changed(before, area.layers@, l as int, i as int);
    }

    let l = place.attainment_audio.layer as usize;
    let i = match find_in_area(&area, &place.attainment_audio) {
        Some(i) => i,
        None => {
            return None;
        },
    };
    let ghost before = area.layers@;
    if !objects::update_attainment_audio(
        &mut area.layers[l].objects[i],
        &meta.attainment_audio_file_name,
    ) {
        return None;
    }
    proof {
        lemma_object_changed(before, area.layers@, l as int, i as int);
    }
    Some(area)
}

/// Puts an item at one location of a room.
pub fn patch_location(
    area: Area,
    place: &PickupLocation,
    location_idx: usize,
    item: usize,
    only_location: bool,
    fresh: u32,
    t: &Tables,
    skip_hudmenus: bool,
) -> (r: Option<(Area, u32)>)
    requires
        t@.wf(),
        skip_hudmenus ==> t@.has_message_ids(),
        item < t@.items.len(),
    ensures
        r is Some <==> with_location(
            area@,
            place@,
            location_idx as int,
            item as int,
            only_location,
            fresh,
            t@,
            skip_hudmenus,
        ) is Some,
        r is Some ==> ((r->0).0@, (r->0).1) == with_location(
            area@,
            place@,
            location_idx as int,
            item as int,
            only_location,
            fresh,
            t@,
            skip_hudmenus,
        )->0,
{
    let kind = t.items[item].pickup.kind;
    assert(t@.items[item as int] == t.items@[item as int]@);
    let new_layer = area.layer_count as usize;
    let (area, id) = match add_pickup_layer(
        area,
        location_idx,
        item,
        only_location,
        fresh,
        t,
        skip_hudmenus,
    ) {
        Some(layered) => layered,
        None => {
            return None;
        },
    };
    let is_artifact = kind >= objects::TRUTH_KIND && kind <= objects::LAST_ARTIFACT_KIND;
    let count: u32 = if is_artifact { 2 } else { 1 };
    if id > u32::MAX - count {
        return None;
    }
    let ghost layered = area@;
    let ghost added = added_objects(place@, kind, id);
    proof {
        reveal_with_fuel(with_objects, 3);
        assert(added.drop_last() =~= if is_artifact {
            seq![added[0]]
        } else {
            Seq::empty()
        });
        assert(seq![added[0]].drop_last() =~= Seq::empty());
    }
    let relay = objects::post_pickup_relay_template(id, &place.post_pickup_relay_connections);
    let mut area = match area.add_object(new_layer, relay) {
        Some(area) => area,
        None => {
            return None;
        },
    };
    if is_artifact {
        let function = objects::artifact_layer_change_template(id + 1, kind);
        area = match area.add_object(new_layer, function) {
            Some(area) => area,
            None => {
                return None;
            },
        };
    }
    assert(with_objects(layered, new_layer as int, added) == Some(area@));
    match put_item(area, place, location_idx, item, id, t, skip_hudmenus) {
        Some(area) => Some((area, id + count)),
        None => None,
    }
}

/// The room with items put at its locations from the `k`-th on, and the next unused id. The items
/// are those that follow `next` in the list of all locations.
pub open spec fn with_locations(
    a: model::AreaView,
    places: Seq<tables::PickupLocationView>,
    k: int,
    items: Seq<usize>,
    next: int,
    fresh: u32,
    t: tables::TablesView,
    skip_hudmenus: bool,
) -> Option<(model::AreaView, u32)>
    decreases places.len() - k,
{
    if k >= places.len() {
        Some((a, fresh))
    } else if next >= items.len() || items[next] >= t.items.len() {
        None
    } else {
        match with_location(
            a,
            places[k],
            next,
            items[next] as int,
            places.len() == 1,
            fresh,
            t,
            skip_hudmenus,
        ) {
            None => None,
            Some((b, id)) => with_locations(b, places, k + 1, items, next + 1, id, t, skip_hudmenus),
        }
    }
}

/// A patched room, and the next unused id; `None` if the room is not as expected, or the items or
/// ids run out.
pub open spec fn patched_area(
    a: model::AreaView,
    room: tables::RoomInfoView,
    items: Seq<usize>,
    next: int,
    fresh: u32,
    t: tables::TablesView,
    skip_hudmenus: bool,
) -> Option<(model::AreaView, u32)> {
    match without_objects(a.layers, room.objects_to_remove) {
        None => None,
        Some(layers) => with_locations(
            model::AreaView { layers, ..a },
            room.pickup_locations,
            0,
            items,
            next,
            fresh,
            t,
            skip_hudmenus,
        ),
    }
}

/// Patches a room: removes what is in the way, and puts the next items at its locations.
#[verifier::spinoff_prover]
#[verifier::rlimit(60)]
pub fn modify_pickups_in_mrea(
    area: Area,
    room: &RoomInfo,
    items: &Vec<usize>,
    next: usize,
    fresh: u32,
    t: &Tables,
    skip_hudmenus: bool,
) -> (r: Option<(Area, u32)>)
    requires
        t@.wf(),
        skip_hudmenus ==> t@.has_message_ids(),
        next <= items@.len(),
    ensures
        r is Some <==> patched_area(
            area@,
            room@,
            items@,
            next as int,
            fresh,
            t@,
            skip_hudmenus,
        ) is Some,
        r is Some ==> ((r->0).0@, (r->0).1) == patched_area(
            area@,
            room@,
            items@,
            next as int,
            fresh,
            t@,
            skip_hudmenus,
        )->0,
        r is Some ==> next + room.pickup_locations@.len() <= items@.len(),
{
    let Area { mrea_file_id, layer_count, flags, layers, added_layers, added_dependencies } = area;
    let layers = match remove_objects(layers, &room.objects_to_remove) {
        Some(layers) => layers,
        None => {
            return None;
        },
    };
    let mut current = Area {
        mrea_file_id,
        layer_count,
        flags,
        layers,
        added_layers,
        added_dependencies,
    };
    let mut id = fresh;
    let count = room.pickup_locations.len();
    let ghost places = room@.pickup_locations;
    let ghost whole = patched_area(area@, room@, items@, next as int, fresh, t@, skip_hudmenus);
    for k in 0..count
        invariant
            t@.wf(),
            skip_hudmenus ==> t@.has_message_ids(),
            count == room.pickup_locations@.len(),
            places == room@.pickup_locations,
            next + k <= items@.len(),
            whole == patched_area(
                area@,
                room@,
                items@,
                next as int,
                fresh,
                t@,
                skip_hudmenus,
            ),
            whole == with_locations(
                current@,
                places,
                k as int,
                items@,
                next + k,
                id,
                t@,
                skip_hudmenus,
            ),
    {
        assert(places[k as int] == room.pickup_locations@[k as int]@);
        if items.len() - k == next {
            return None;
        }
        let item = items[next + k];
        if item >= t.items.len() {
            return None;
        }
        match patch_location(
            current,
            &room.pickup_locations[k],
            next + k,
            item,
            count == 1,
            id,
            t,
            skip_hudmenus,
        ) {
            Some((patched, new_id)) => {
                current = patched;
                id = new_id;
            },
            None => {
                return None;
            },
        }
    }
    Some((current, id))
}

} // verus!
