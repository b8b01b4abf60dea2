//! What patching promises of a room.

use vstd::prelude::*;
use crate::area;
use crate::model;
use crate::objects;
use crate::tables;
use crate::tables::ObjectLocation;
use crate::text;

verus! {

/// A room counts its layers right.
pub open spec fn is_sound(a: model::AreaView) -> bool {
    a.layers.len() == a.layer_count
}

/// A room is the Artifact Temple.
pub open spec fn is_temple(a: model::AreaView, t: tables::TablesView) -> bool {
    a.mrea_file_id == t.ids.artifact_temple_mrea
}

/// The first `n` layers hold objects with the same ids in the same order.
pub open spec fn same_ids(
    old_layers: Seq<Seq<model::ObjectView>>,
    new_layers: Seq<Seq<model::ObjectView>>,
    n: int,
) -> bool {
    &&& n <= old_layers.len()
    &&& n <= new_layers.len()
    &&& forall|l: int| 0 <= l < n ==> (#[trigger] new_layers[l]).len() == old_layers[l].len()
    &&& forall|l: int, i: int|
        0 <= l < n && 0 <= i < old_layers[l].len() ==> (#[trigger] new_layers[l][i]).instance_id
            == old_layers[l][i].instance_id
}

/// The object that an id in a layer stands for.
pub open spec fn object_at(a: model::AreaView, at: ObjectLocation) -> Option<model::ObjectView> {
    if at.layer >= a.layers.len() {
        None
    } else {
        match area::first_with_id(a.layers[at.layer as int], at.instance_id) {
            Some(i) => Some(a.layers[at.layer as int][i]),
            None => None,
        }
    }
}

/// A change leaves the id of an object alone.
pub open spec fn keeps_id(
    change: spec_fn(model::ObjectView) -> Option<model::ObjectView>,
) -> bool {
    forall|o: model::ObjectView|
        (#[trigger] change(o)) is Some ==> change(o)->0.instance_id == o.instance_id
}

/// The first object with an id stays the first where the ids up to it stay.
pub proof fn lemma_first_stays(
    old_objects: Seq<model::ObjectView>,
    new_objects: Seq<model::ObjectView>,
    id: u32,
)
    requires
        area::first_with_id(old_objects, id) is Some,
        old_objects.len() <= new_objects.len(),
        forall|i: int|
            0 <= i < old_objects.len() ==> (#[trigger] new_objects[i]).instance_id
                == old_objects[i].instance_id,
    ensures
        area::first_with_id(new_objects, id) == area::first_with_id(old_objects, id),
{
    area::lemma_first_with_id(old_objects, id);
    area::lemma_first_with_id(new_objects, id);
    let i = area::first_with_id(old_objects, id)->0;
    assert(new_objects[i].instance_id == id);
}

/// What a change of one object does to the room: nothing but that.
proof fn lemma_change(
    a: model::AreaView,
    at: ObjectLocation,
    change: spec_fn(model::ObjectView) -> Option<model::ObjectView>,
    other: ObjectLocation,
)
    requires
        keeps_id(change),
        area::with_change(a, at, change) is Some,
    ensures
        ({
            let b = area::with_change(a, at, change)->0;
            &&& b == (model::AreaView { layers: b.layers, ..a })
            &&& b.layers.len() == a.layers.len()
            &&& same_ids(a.layers, b.layers, a.layers.len() as int)
            &&& object_at(a, at) is Some
            &&& object_at(b, at) == change(object_at(a, at)->0)
            &&& object_at(a, other) is Some && other != at ==> object_at(b, other) == object_at(
                a,
                other,
            )
        }),
{
    let b = area::with_change(a, at, change)->0;
    let objects = a.layers[at.layer as int];
    area::lemma_first_with_id(objects, at.instance_id);
    let i = area::first_with_id(objects, at.instance_id)->0;
    assert(change(objects[i]) is Some);
    lemma_first_stays(objects, b.layers[at.layer as int], at.instance_id);
    if object_at(a, other) is Some && other != at {
        let others = a.layers[other.layer as int];
        area::lemma_first_with_id(others, other.instance_id);
        lemma_first_stays(others, b.layers[other.layer as int], other.instance_id);
    }
}

/// What one more object does to the room: nothing but that.
proof fn lemma_object(
    a: model::AreaView,
    layer: int,
    object: model::ObjectView,
    other: ObjectLocation,
)
    requires
        area::with_object(a, layer, object) is Some,
        object_at(a, other) is Some,
    ensures
        object_at(area::with_object(a, layer, object)->0, other) == object_at(a, other),
{
    let b = area::with_object(a, layer, object)->0;
    let others = a.layers[other.layer as int];
    area::lemma_first_with_id(others, other.instance_id);
    lemma_first_stays(others, b.layers[other.layer as int], other.instance_id);
}

/// The flag of a layer.
pub open spec fn is_active(flags: u64, layer: u32) -> bool {
    flags & (1u64 << layer) != 0
}

/// A new layer is active, and the others stay as they are.
pub proof fn law_new_layer_is_active(a: model::AreaView, name: Seq<char>, layer: u32)
    requires
        area::with_layer(a, name) is Some,
        layer < area::MAX_LAYERS,
    ensures
        is_active((area::with_layer(a, name)->0).flags, layer) <==> layer == a.layer_count
            || is_active(a.flags, layer),
{
    let flags = a.flags;
    let n = a.layer_count;
    assert(((flags | (1u64 << (n as u64))) & (1u64 << layer) != 0) == (layer == n || flags & (1u64
        << layer) != 0)) by (bit_vector)
        requires
            n < 64,
            layer < 64,
    ;
}

/// In the Artifact Temple the layer of the Artifact of Truth is active exactly if that artifact is
/// found there, the layer of another artifact is active if that one is, and all other layers stay
/// as they are.
pub proof fn law_temple_layers(flags: u64, pickup_kind: u32, layer: u32)
    requires
        layer < area::MAX_LAYERS,
        is_active(flags, objects::ARTIFACT_OF_TRUTH_REQ_LAYER),
    ensures
        is_active(area::temple_flags(flags, pickup_kind), layer) <==> if layer
            == objects::ARTIFACT_OF_TRUTH_REQ_LAYER {
            pickup_kind == objects::TRUTH_KIND
        } else {
            is_active(flags, layer) || (objects::is_artifact_kind(pickup_kind) && layer
                == objects::artifact_layer(pickup_kind))
        },
{
    let cleared = flags & !(1u64 << 24u64);
    let other: u32 = if objects::TRUTH_KIND < pickup_kind <= objects::LAST_ARTIFACT_KIND {
        (pickup_kind - 28) as u32
    } else {
        2
    };
    assert(((flags & !(1u64 << 24u64)) & (1u64 << layer) != 0) == (layer != 24 && flags & (1u64
        << layer) != 0)) by (bit_vector)
        requires
            layer < 64,
    ;
    assert(((cleared | (1u64 << (other as u64))) & (1u64 << layer) != 0) == (layer == other
        || cleared & (1u64 << layer) != 0)) by (bit_vector)
        requires
            other < 64,
            layer < 64,
    ;
}

/// The relay that started the showing of progress tells the new relay, and no longer the one that
/// shows it, of which the new one is another.
pub proof fn law_progress_is_redirected(object: model::ObjectView, new_relay: u32)
    requires
        new_relay != area::SHOW_PROGRESS_RELAY,
    ensures
        area::redirected(object, new_relay).connections.last().target_object_id == new_relay,
        forall|i: int|
            0 <= i < area::redirected(object, new_relay).connections.len() ==> (
            #[trigger] area::redirected(object, new_relay).connections[i]).target_object_id
                != area::SHOW_PROGRESS_RELAY,
{
    let keep = |c: model::Connection| c.target_object_id != area::SHOW_PROGRESS_RELAY;
    let kept = object.connections.filter(keep);
    object.connections.lemma_filter_len(keep);
    assert forall|i: int| 0 <= i < kept.len() implies (#[trigger] kept[i]).target_object_id
        != area::SHOW_PROGRESS_RELAY by {
        object.connections.lemma_filter_pred(keep, i);
    }
}

/// The name of an added layer holds no zero, so that it can end in one.
pub proof fn law_layer_name_holds_no_nul(location_idx: int, pickup_name: Seq<u8>)
    ensures
        !area::pickup_layer_name(location_idx, pickup_name).contains('\0'),
{
    text::lemma_escaped_has_no_nul(pickup_name);
    text::lemma_decimal_has_no_nul(location_idx as nat);
    reveal_strlit("Randomizer - Pickup ");
    reveal_strlit(" (\"");
    reveal_strlit("\")");
    let name = area::pickup_layer_name(location_idx, pickup_name);
    let number = text::decimal_text(location_idx as nat);
    let escaped = text::escaped(pickup_name);
    assert forall|i: int| 0 <= i < name.len() implies name[i] != '\0' by {
        if 20 <= i < 20 + number.len() {
            assert(number.contains(number[i - 20]));
        } else if 23 + number.len() <= i < 23 + number.len() + escaped.len() {
            assert(escaped.contains(escaped[i - 23 - number.len()]));
        }
    }
}

/// The object is still there, and does what it did, whatever it is connected to.
pub open spec fn keeps_property(
    a: model::AreaView,
    b: model::AreaView,
    at: ObjectLocation,
) -> bool {
    object_at(a, at) is Some ==> object_at(b, at) is Some && object_at(b, at)->0.property_data
        == object_at(a, at)->0.property_data
}

/// What the requirement of the Artifact of Truth does to the room.
proof fn lemma_truth(a: model::AreaView, kind: u32, fresh: u32, other: ObjectLocation)
    requires
        area::truth_required(a, kind, fresh) is Some,
    ensures
        keeps_property(a, (area::truth_required(a, kind, fresh)->0).0, other),
        is_sound(a) ==> ({
            let (b, id) = area::truth_required(a, kind, fresh)->0;
            &&& b == (model::AreaView {
                layer_count: (a.layer_count + 1) as u32,
                flags: b.flags,
                layers: b.layers,
                added_layers: a.added_layers.push("Randomizer - Got Artifact 1"@),
                ..a
            })
            &&& a.layer_count < area::MAX_LAYERS
            &&& id == fresh + 1
            &&& b.layers.len() == a.layers.len() + 1
            &&& same_ids(a.layers, b.layers, a.layers.len() as int)
            &&& b.layers.last().len() == 1
            &&& b.layers.last()[0].instance_id == fresh
        }),
{
    let layered = area::with_layer(a, "Randomizer - Got Artifact 1"@)->0;
    let flagged = model::AreaView { flags: area::temple_flags(layered.flags, kind), ..layered };
    let new_relay = objects::relay(
        fresh,
        seq![
            model::Connection {
                state: 9,
                message: 13,
                target_object_id: area::SHOW_PROGRESS_RELAY,
            },
        ],
        "Relay Show Progress1"@,
    );
    let layer = objects::ARTIFACT_OF_TRUTH_REQ_LAYER as int;
    let related = area::with_object(flagged, layer, new_relay)->0;
    let at = ObjectLocation { layer: 1, instance_id: area::START_PROGRESS_RELAY };
    let change = |o: model::ObjectView| Some(area::redirected(o, fresh));
    if object_at(a, other) is Some {
        assert(object_at(flagged, other) == object_at(a, other));
        lemma_object(flagged, layer, new_relay, other);
    }
    lemma_change(related, at, change, other);
}

/// What added objects do to the room.
proof fn lemma_added(
    a: model::AreaView,
    layer: int,
    place: tables::PickupLocationView,
    kind: u32,
    fresh: u32,
    other: ObjectLocation,
)
    requires
        fresh + area::added_count(kind) <= u32::MAX,
        area::with_objects(a, layer, area::added_objects(place, kind, fresh)) is Some,
    ensures
        ({
            let added = area::added_objects(place, kind, fresh);
            let b = area::with_objects(a, layer, added)->0;
            &&& b == (model::AreaView { layers: b.layers, ..a })
            &&& 0 <= layer < a.layers.len()
            &&& b.layers == a.layers.update(layer, a.layers[layer] + added)
            &&& added.len() == area::added_count(kind)
            &&& forall|i: int|
                0 <= i < added.len() ==> (#[trigger] added[i]).instance_id == fresh + i
            &&& object_at(a, other) is Some ==> object_at(b, other) == object_at(a, other)
        }),
{
    let added = area::added_objects(place, kind, fresh);
    reveal_with_fuel(area::with_objects, 3);
    assert(seq![added[0]].drop_last() =~= Seq::empty());
    let one = area::with_object(a, layer, added[0])->0;
    if added.len() == 2 {
        assert(added.drop_last() =~= seq![added[0]]);
        if object_at(a, other) is Some {
            lemma_object(a, layer, added[0], other);
            lemma_object(one, layer, added[1], other);
        }
    } else {
        assert(added.drop_last() =~= Seq::empty());
        if object_at(a, other) is Some {
            lemma_object(a, layer, added[0], other);
        }
    }
    let b = area::with_objects(a, layer, added)->0;
    assert(b.layers[layer] =~= a.layers[layer] + added);
    assert(b.layers =~= a.layers.update(layer, a.layers[layer] + added));
}

/// What stands at a location: the item's model, its message, and its sound.
pub open spec fn holds_item(
    a: model::AreaView,
    place: tables::PickupLocationView,
    location_idx: int,
    item: int,
    t: tables::TablesView,
    skip_hudmenus: bool,
) -> bool {
    let meta = t.items[item];
    let without_pause = skip_hudmenus && !objects::is_always_modal(location_idx);
    &&& match object_at(a, place.location) {
        Some(o) => match o.property_data {
            model::PropertyView::Pickup(p) => p.model == meta.pickup,
            _ => false,
        },
        None => false,
    }
    &&& match object_at(a, place.hudmemo) {
        Some(o) => match o.property_data {
            model::PropertyView::HudMemo(memo) => {
                &&& without_pause ==> memo.strg == tables::skip_hudmemo_id(t.ids, item)
                    && memo.memo_type == 0 && memo.first_message_timer == objects::FIVE_SECONDS
                &&& !without_pause ==> memo.strg == meta.hudmemo_strg
            },
            _ => false,
        },
        None => false,
    }
    &&& match object_at(a, place.attainment_audio) {
        Some(o) => match o.property_data {
            model::PropertyView::StreamedAudio { audio_file_name, others: _ } => audio_file_name
                == meta.attainment_audio_file_name.drop_last(),
            _ => false,
        },
        None => false,
    }
}

/// What filling the three objects of a location does to the room.
proof fn lemma_item(
    a: model::AreaView,
    place: tables::PickupLocationView,
    location_idx: int,
    item: int,
    fresh: u32,
    t: tables::TablesView,
    skip_hudmenus: bool,
    other: ObjectLocation,
)
    requires
        area::with_item(a, place, location_idx, item, fresh, t, skip_hudmenus) is Some,
    ensures
        ({
            let b = area::with_item(a, place, location_idx, item, fresh, t, skip_hudmenus)->0;
            &&& b == (model::AreaView { layers: b.layers, ..a })
            &&& b.layers.len() == a.layers.len()
            &&& same_ids(a.layers, b.layers, a.layers.len() as int)
            &&& holds_item(b, place, location_idx, item, t, skip_hudmenus)
            &&& other != place.location && other != place.hudmemo && other
                != place.attainment_audio ==> keeps_property(a, b, other)
        }),
{
    let meta = t.items[item];
    let fill = |o: model::ObjectView|
        area::refilled(o, meta.pickup, area::added_connections(meta.pickup.kind, fresh));
    let tell = |o: model::ObjectView|
        objects::with_hudmemo_updated(
            o,
            meta.hudmemo_strg,
            tables::skip_hudmemo_id(t.ids, item),
            location_idx,
            skip_hudmenus,
        );
    let sound = |o: model::ObjectView|
        objects::with_audio_updated(o, meta.attainment_audio_file_name);
    let b = area::with_change(a, place.location, fill)->0;
    let c = area::with_change(b, place.hudmemo, tell)->0;
    lemma_change(a, place.location, fill, other);
    lemma_change(b, place.hudmemo, tell, other);
    lemma_change(c, place.attainment_audio, sound, other);
    lemma_change(b, place.hudmemo, tell, place.location);
    lemma_change(c, place.attainment_audio, sound, place.location);
    lemma_change(c, place.attainment_audio, sound, place.hudmemo);
}

/// The number of layers that are added for a location.
pub open spec fn added_layer_count(a: model::AreaView, t: tables::TablesView) -> int {
    if is_temple(a, t) {
        2
    } else {
        1
    }
}

/// The names of the layers that are added for a location.
pub open spec fn added_layer_names(
    a: model::AreaView,
    location_idx: int,
    item: int,
    t: tables::TablesView,
) -> Seq<Seq<char>> {
    let name = area::pickup_layer_name(location_idx, t.items[item].pickup_name);
    if is_temple(a, t) {
        seq![name, "Randomizer - Got Artifact 1"@]
    } else {
        seq![name]
    }
}

/// Putting an item at a location adds one layer, in the Artifact Temple two; the room is given the
/// resources of the item for the new layer; the objects that were there stay, with their ids and
/// their order; and the ids of the added objects are the next unused ones, each used once.
pub proof fn law_location_adds(
    a: model::AreaView,
    place: tables::PickupLocationView,
    location_idx: int,
    item: int,
    only_location: bool,
    fresh: u32,
    t: tables::TablesView,
    skip_hudmenus: bool,
)
    requires
        is_sound(a),
        area::with_location(
            a,
            place,
            location_idx,
            item,
            only_location,
            fresh,
            t,
            skip_hudmenus,
        ) is Some,
    ensures
        ({
            let (b, id) = area::with_location(
                a,
                place,
                location_idx,
                item,
                only_location,
                fresh,
                t,
                skip_hudmenus,
            )->0;
            let more = added_layer_count(a, t);
            let count = area::added_count(t.items[item].pickup.kind);
            let n = a.layers.len() as int;
            &&& b == (model::AreaView {
                layer_count: (a.layer_count + more) as u32,
                flags: b.flags,
                layers: b.layers,
                added_layers: a.added_layers + added_layer_names(a, location_idx, item, t),
                added_dependencies: a.added_dependencies.push(
                    model::LayerDependenciesView {
                        layer: n,
                        deps: area::needed_resources(t, item, skip_hudmenus),
                    },
                ),
                ..a
            })
            &&& n + more <= area::MAX_LAYERS
            &&& is_sound(b)
            &&& same_ids(a.layers, b.layers, n)
            &&& id == fresh + more - 1 + count
            &&& b.layers[n].len() == count
            &&& forall|i: int|
                0 <= i < count ==> (#[trigger] b.layers[n][i]).instance_id == fresh + more - 1 + i
            &&& is_temple(a, t) ==> only_location && b.layers[n + 1].len() == 1 && b.layers[n
                + 1][0].instance_id == fresh
        }),
{
    let meta = t.items[item];
    let kind = meta.pickup.kind;
    let name = area::pickup_layer_name(location_idx, meta.pickup_name);
    let b = area::with_layer(a, name)->0;
    let c = model::AreaView {
        added_dependencies: b.added_dependencies.push(
            model::LayerDependenciesView {
                layer: b.layer_count - 1,
                deps: area::needed_resources(t, item, skip_hudmenus),
            },
        ),
        ..b
    };
    if is_temple(a, t) {
        lemma_truth(c, kind, fresh, place.location);
    }
    let (d, id) = area::with_pickup_layer(
        a,
        location_idx,
        item,
        only_location,
        fresh,
        t,
        skip_hudmenus,
    )->0;
    lemma_added(d, a.layer_count as int, place, kind, id, place.location);
    let e = area::with_objects(
        d,
        a.layer_count as int,
        area::added_objects(place, kind, id),
    )->0;
    lemma_item(e, place, location_idx, item, id, t, skip_hudmenus, place.location);
    let f = area::with_item(e, place, location_idx, item, id, t, skip_hudmenus)->0;
    assert(f.added_layers =~= a.added_layers + added_layer_names(a, location_idx, item, t));
    assert(same_ids(c.layers, d.layers, c.layers.len() as int));
    assert(d.layers[a.layer_count as int].len() == 0);
    assert(same_ids(a.layers, d.layers, a.layers.len() as int));
    assert(same_ids(d.layers, e.layers, a.layers.len() as int));
    assert(same_ids(e.layers, f.layers, e.layers.len() as int));
}

/// Putting an item at a location puts it there, with its message and its sound.
pub proof fn law_location_holds_item(
    a: model::AreaView,
    place: tables::PickupLocationView,
    location_idx: int,
    item: int,
    only_location: bool,
    fresh: u32,
    t: tables::TablesView,
    skip_hudmenus: bool,
)
    requires
        area::with_location(
            a,
            place,
            location_idx,
            item,
            only_location,
            fresh,
            t,
            skip_hudmenus,
        ) is Some,
    ensures
        holds_item(
            (area::with_location(
                a,
                place,
                location_idx,
                item,
                only_location,
                fresh,
                t,
                skip_hudmenus,
            )->0).0,
            place,
            location_idx,
            item,
            t,
            skip_hudmenus,
        ),
{
    let (d, id) = area::with_pickup_layer(
        a,
        location_idx,
        item,
        only_location,
        fresh,
        t,
        skip_hudmenus,
    )->0;
    let e = area::with_objects(
        d,
        a.layer_count as int,
        area::added_objects(place, t.items[item].pickup.kind, id),
    )->0;
    lemma_item(e, place, location_idx, item, id, t, skip_hudmenus, place.location);
}

/// Putting an item at a location leaves the objects of other locations as they are, but for what
/// they are connected to.
pub proof fn law_location_leaves_others(
    a: model::AreaView,
    place: tables::PickupLocationView,
    location_idx: int,
    item: int,
    only_location: bool,
    fresh: u32,
    t: tables::TablesView,
    skip_hudmenus: bool,
    other: ObjectLocation,
)
    requires
        area::with_location(
            a,
            place,
            location_idx,
            item,
            only_location,
            fresh,
            t,
            skip_hudmenus,
        ) is Some,
        other != place.location,
        other != place.hudmemo,
        other != place.attainment_audio,
    ensures
        keeps_property(
            a,
            (area::with_location(
                a,
                place,
                location_idx,
                item,
                only_location,
                fresh,
                t,
                skip_hudmenus,
            )->0).0,
            other,
        ),
{
    let meta = t.items[item];
    let kind = meta.pickup.kind;
    let b = area::with_layer(a, area::pickup_layer_name(location_idx, meta.pickup_name))->0;
    let c = model::AreaView {
        added_dependencies: b.added_dependencies.push(
            model::LayerDependenciesView {
                layer: b.layer_count - 1,
                deps: area::needed_resources(t, item, skip_hudmenus),
            },
        ),
        ..b
    };
    assert(keeps_property(a, c, other));
    if is_temple(a, t) {
        lemma_truth(c, kind, fresh, other);
    }
    let (d, id) = area::with_pickup_layer(
        a,
        location_idx,
        item,
        only_location,
        fresh,
        t,
        skip_hudmenus,
    )->0;
    lemma_added(d, a.layer_count as int, place, kind, id, other);
    let e = area::with_objects(
        d,
        a.layer_count as int,
        area::added_objects(place, kind, id),
    )->0;
    lemma_item(e, place, location_idx, item, id, t, skip_hudmenus, other);
}

/// The objects from the `n`-th layer on have ids in a range.
pub open spec fn ids_in_range(
    layers: Seq<Seq<model::ObjectView>>,
    n: int,
    low: u32,
    high: u32,
) -> bool {
    forall|l: int, i: int|
        n <= l < layers.len() && 0 <= i < layers[l].len() ==> low <= (
        #[trigger] layers[l][i]).instance_id < high
}

/// No two objects from the `n`-th layer on have the same id.
pub open spec fn ids_distinct(layers: Seq<Seq<model::ObjectView>>, n: int) -> bool {
    forall|l: int, i: int, m: int, j: int|
        n <= l < layers.len() && 0 <= i < layers[l].len() && n <= m < layers.len() && 0 <= j
            < layers[m].len() && (l != m || i != j) ==> (#[trigger] layers[l][i]).instance_id != (
        #[trigger] layers[m][j]).instance_id
}

/// The number of layers that are added for some locations.
pub open spec fn layers_for(a: model::AreaView, t: tables::TablesView, locations: int) -> int {
    if is_temple(a, t) {
        2 * locations
    } else {
        locations
    }
}

/// The requests for resources of some locations.
pub open spec fn are_requested(
    old_requests: Seq<model::LayerDependenciesView>,
    new_requests: Seq<model::LayerDependenciesView>,
    a: model::AreaView,
    items: Seq<usize>,
    next: int,
    locations: int,
    t: tables::TablesView,
    skip_hudmenus: bool,
) -> bool {
    let count = old_requests.len() as int;
    &&& new_requests.len() == count + locations
    &&& new_requests.take(count) == old_requests
    &&& forall|j: int|
        0 <= j < locations ==> #[trigger] new_requests[count + j] == (
        model::LayerDependenciesView {
            layer: a.layers.len() + layers_for(a, t, j),
            deps: area::needed_resources(t, items[next + j] as int, skip_hudmenus),
        })
}

/// A room that locations were added to.
pub open spec fn is_grown(
    a: model::AreaView,
    b: model::AreaView,
    items: Seq<usize>,
    next: int,
    locations: int,
    low: u32,
    high: u32,
    t: tables::TablesView,
    skip_hudmenus: bool,
) -> bool {
    let n = a.layers.len() as int;
    &&& b.mrea_file_id == a.mrea_file_id
    &&& is_sound(b)
    &&& b.layers.len() == n + layers_for(a, t, locations)
    &&& same_ids(a.layers, b.layers, n)
    &&& low <= high
    &&& ids_in_range(b.layers, n, low, high)
    &&& ids_distinct(b.layers, n)
    &&& are_requested(
        a.added_dependencies,
        b.added_dependencies,
        a,
        items,
        next,
        locations,
        t,
        skip_hudmenus,
    )
}

/// Two steps that add layers with new ids are one.
proof fn lemma_ids_compose(
    a: Seq<Seq<model::ObjectView>>,
    b: Seq<Seq<model::ObjectView>>,
    c: Seq<Seq<model::ObjectView>>,
    low: u32,
    middle: u32,
    high: u32,
)
    requires
        low <= middle <= high,
        same_ids(a, b, a.len() as int),
        ids_in_range(b, a.len() as int, low, middle),
        ids_distinct(b, a.len() as int),
        same_ids(b, c, b.len() as int),
        ids_in_range(c, b.len() as int, middle, high),
        ids_distinct(c, b.len() as int),
    ensures
        same_ids(a, c, a.len() as int),
        ids_in_range(c, a.len() as int, low, high),
        ids_distinct(c, a.len() as int),
{
    let n = a.len() as int;
    let m = b.len() as int;
    assert forall|l: int, i: int| 0 <= l < n && 0 <= i < a[l].len() implies (
    #[trigger] c[l][i]).instance_id == a[l][i].instance_id by {
        assert(c[l][i].instance_id == b[l][i].instance_id);
    }
    assert forall|l: int, i: int| n <= l < c.len() && 0 <= i < c[l].len() implies low <= (
    #[trigger] c[l][i]).instance_id < high by {
        if l < m {
            assert(c[l][i].instance_id == b[l][i].instance_id);
        }
    }
    assert forall|l: int, i: int, g: int, j: int|
        n <= l < c.len() && 0 <= i < c[l].len() && n <= g < c.len() && 0 <= j < c[g].len() && (l
            != g || i != j) implies (#[trigger] c[l][i]).instance_id != (
    #[trigger] c[g][j]).instance_id by {
        if l < m {
            assert(c[l][i].instance_id == b[l][i].instance_id);
        }
        if g < m {
            assert(c[g][j].instance_id == b[g][j].instance_id);
        }
    }
}

/// The requests of one location and of those after it.
proof fn lemma_requests_compose(
    a: model::AreaView,
    b: model::AreaView,
    new_requests: Seq<model::LayerDependenciesView>,
    items: Seq<usize>,
    next: int,
    locations: int,
    t: tables::TablesView,
    skip_hudmenus: bool,
)
    requires
        locations > 0,
        a.mrea_file_id == b.mrea_file_id,
        b.layers.len() == a.layers.len() + layers_for(a, t, 1),
        b.added_dependencies == a.added_dependencies.push(
            model::LayerDependenciesView {
                layer: a.layers.len() as int,
                deps: area::needed_resources(t, items[next] as int, skip_hudmenus),
            },
        ),
        are_requested(
            b.added_dependencies,
            new_requests,
            b,
            items,
            next + 1,
            locations - 1,
            t,
            skip_hudmenus,
        ),
    ensures
        are_requested(
            a.added_dependencies,
            new_requests,
            a,
            items,
            next,
            locations,
            t,
            skip_hudmenus,
        ),
{
    let count = a.added_dependencies.len() as int;
    let first = new_requests.take(count + 1);
    assert(first == b.added_dependencies);
    assert forall|j: int| 0 <= j < count implies new_requests[j] == a.added_dependencies[j] by {
        assert(first[j] == b.added_dependencies[j]);
    }
    assert(new_requests.take(count) =~= a.added_dependencies);
    assert forall|j: int| 0 <= j < locations implies #[trigger] new_requests[count + j] == (
    model::LayerDependenciesView {
        layer: a.layers.len() + layers_for(a, t, j),
        deps: area::needed_resources(t, items[next + j] as int, skip_hudmenus),
    }) by {
        if j == 0 {
            assert(first[count] == b.added_dependencies[count]);
        } else {
            assert(new_requests[(count + 1) + (j - 1)] == new_requests[count + j]);
        }
    }
}

/// What is needed of one location to add up several.
proof fn lemma_location_grows(
    a: model::AreaView,
    place: tables::PickupLocationView,
    location_idx: int,
    item: int,
    only_location: bool,
    fresh: u32,
    t: tables::TablesView,
    skip_hudmenus: bool,
)
    requires
        is_sound(a),
        area::with_location(
            a,
            place,
            location_idx,
            item,
            only_location,
            fresh,
            t,
            skip_hudmenus,
        ) is Some,
    ensures
        ({
            let (b, id) = area::with_location(
                a,
                place,
                location_idx,
                item,
                only_location,
                fresh,
                t,
                skip_hudmenus,
            )->0;
            let n = a.layers.len() as int;
            &&& b.mrea_file_id == a.mrea_file_id
            &&& is_sound(b)
            &&& b.layers.len() == n + layers_for(a, t, 1)
            &&& b.added_dependencies == a.added_dependencies.push(
                model::LayerDependenciesView {
                    layer: n,
                    deps: area::needed_resources(t, item, skip_hudmenus),
                },
            )
            &&& fresh <= id
            &&& same_ids(a.layers, b.layers, n)
            &&& ids_in_range(b.layers, n, fresh, id)
            &&& ids_distinct(b.layers, n)
        }),
{
    law_location_adds(a, place, location_idx, item, only_location, fresh, t, skip_hudmenus);
    let (b, id) = area::with_location(
        a,
        place,
        location_idx,
        item,
        only_location,
        fresh,
        t,
        skip_hudmenus,
    )->0;
    let n = a.layers.len() as int;
    let more = added_layer_count(a, t);
    assert forall|l: int, i: int|
        n <= l < b.layers.len() && 0 <= i < b.layers[l].len() implies (
    #[trigger] b.layers[l][i]).instance_id == if l == n {
        fresh + more - 1 + i
    } else {
        fresh as int
    } && (l == n || i == 0) by {
        if l == n {
            assert(b.layers[n][i].instance_id == fresh + more - 1 + i);
        }
    }
}

/// Putting items at some locations of a room.
#[verifier::spinoff_prover]
proof fn lemma_locations_grow(
    a: model::AreaView,
    places: Seq<tables::PickupLocationView>,
    k: int,
    items: Seq<usize>,
    next: int,
    fresh: u32,
    t: tables::TablesView,
    skip_hudmenus: bool,
)
    requires
        is_sound(a),
        0 <= k <= places.len(),
        area::with_locations(a, places, k, items, next, fresh, t, skip_hudmenus) is Some,
    ensures
        ({
            let (b, id) = area::with_locations(
                a,
                places,
                k,
                items,
                next,
                fresh,
                t,
                skip_hudmenus,
            )->0;
            is_grown(a, b, items, next, places.len() - k, fresh, id, t, skip_hudmenus)
        }),
    decreases places.len() - k,
{
    let (c, last) = area::with_locations(a, places, k, items, next, fresh, t, skip_hudmenus)->0;
    if k < places.len() {
        let item = items[next] as int;
        let only = places.len() == 1;
        lemma_location_grows(a, places[k], next, item, only, fresh, t, skip_hudmenus);
        let (b, id) = area::with_location(
            a,
            places[k],
            next,
            item,
            only,
            fresh,
            t,
            skip_hudmenus,
        )->0;
        lemma_locations_grow(b, places, k + 1, items, next + 1, id, t, skip_hudmenus);
        lemma_ids_compose(a.layers, b.layers, c.layers, fresh, id, last);
        lemma_requests_compose(
            a,
            b,
            c.added_dependencies,
            items,
            next,
            places.len() - k,
            t,
            skip_hudmenus,
        );
    } else {
        let requests = a.added_dependencies;
        assert(requests.take(requests.len() as int) =~= requests);
    }
}

/// A patched room keeps its id and, but for those that are removed, its objects; it has one layer
/// more for each location, in the Artifact Temple two; the objects in these have ids from the next
/// unused one on, each its own; and the room is given the resources of each of its items.
pub proof fn law_room_grows(
    a: model::AreaView,
    room: tables::RoomInfoView,
    items: Seq<usize>,
    next: int,
    fresh: u32,
    t: tables::TablesView,
    skip_hudmenus: bool,
)
    requires
        is_sound(a),
        area::patched_area(a, room, items, next, fresh, t, skip_hudmenus) is Some,
    ensures
        ({
            let (b, id) = area::patched_area(a, room, items, next, fresh, t, skip_hudmenus)->0;
            let layers = area::without_objects(a.layers, room.objects_to_remove)->0;
            &&& layers.len() == a.layers.len()
            &&& is_grown(
                model::AreaView { layers, ..a },
                b,
                items,
                next,
                room.pickup_locations.len() as int,
                fresh,
                id,
                t,
                skip_hudmenus,
            )
        }),
{
    let layers = area::without_objects(a.layers, room.objects_to_remove)->0;
    law_removal(a.layers, room.objects_to_remove, ObjectLocation { layer: 0, instance_id: 0 });
    lemma_locations_grow(
        model::AreaView { layers, ..a },
        room.pickup_locations,
        0,
        items,
        next,
        fresh,
        t,
        skip_hudmenus,
    );
}

/// An object is to be removed.
pub open spec fn is_removed(
    removals: Seq<tables::ObjectsToRemoveView>,
    at: ObjectLocation,
) -> bool {
    exists|i: int|
        0 <= i < removals.len() && (#[trigger] removals[i]).layer == at.layer
            && removals[i].instance_ids.contains(at.instance_id)
}

/// A layer holds an object with an id.
pub open spec fn has_object(layers: Seq<Seq<model::ObjectView>>, at: ObjectLocation) -> bool {
    at.layer < layers.len() && exists|i: int|
        0 <= i < layers[at.layer as int].len() && (
        #[trigger] layers[at.layer as int][i]).instance_id == at.instance_id
}

/// Removing objects keeps the layers, removes what is to be removed, and nothing else.
pub proof fn law_removal(
    layers: Seq<Seq<model::ObjectView>>,
    removals: Seq<tables::ObjectsToRemoveView>,
    at: ObjectLocation,
)
    requires
        area::without_objects(layers, removals) is Some,
    ensures
        area::without_objects(layers, removals)->0.len() == layers.len(),
        has_object(area::without_objects(layers, removals)->0, at) <==> has_object(layers, at)
            && !is_removed(removals, at),
    decreases removals.len(),
{
    if removals.len() > 0 {
        let first = removals[0];
        let rest = removals.drop_first();
        let keep = |o: model::ObjectView| !first.instance_ids.contains(o.instance_id);
        let objects = layers[first.layer as int];
        let kept = objects.filter(keep);
        let now = layers.update(first.layer as int, kept);
        law_removal(now, rest, at);
        if at.layer == first.layer {
            if has_object(now, at) {
                let i = choose|i: int|
                    0 <= i < kept.len() && (#[trigger] now[at.layer as int][i]).instance_id
                        == at.instance_id;
                objects.lemma_filter_pred(keep, i);
                objects.lemma_filter_contains_rev(keep, kept[i]);
                let j = choose|j: int| 0 <= j < objects.len() && objects[j] == kept[i];
                assert(layers[at.layer as int][j].instance_id == at.instance_id);
            }
            if has_object(layers, at) && !first.instance_ids.contains(at.instance_id) {
                let j = choose|j: int|
                    0 <= j < objects.len() && (#[trigger] layers[at.layer as int][j]).instance_id
                        == at.instance_id;
                objects.lemma_filter_contains(keep, j);
                let i = choose|i: int| 0 <= i < kept.len() && kept[i] == objects[j];
                assert(now[at.layer as int][i].instance_id == at.instance_id);
            }
        }
        if is_removed(removals, at) {
            let i = choose|i: int|
                0 <= i < removals.len() && (#[trigger] removals[i]).layer == at.layer
                    && removals[i].instance_ids.contains(at.instance_id);
            if i > 0 {
                assert(rest[i - 1] == removals[i]);
            }
        }
        if is_removed(rest, at) {
            let i = choose|i: int|
                0 <= i < rest.len() && (#[trigger] rest[i]).layer == at.layer
                    && rest[i].instance_ids.contains(at.instance_id);
            assert(removals[i + 1] == rest[i]);
        }
        if first.layer == at.layer && first.instance_ids.contains(at.instance_id) {
            assert(removals[0] == first);
        }
    }
}

/// The three objects of a location.
pub open spec fn belongs_to(place: tables::PickupLocationView, at: ObjectLocation) -> bool {
    at == place.location || at == place.hudmemo || at == place.attainment_audio
}

/// No object belongs to two locations.
pub open spec fn places_apart(places: Seq<tables::PickupLocationView>) -> bool {
    forall|j: int, k: int, at: ObjectLocation|
        0 <= j < places.len() && 0 <= k < places.len() && #[trigger] belongs_to(places[j], at)
            && #[trigger] belongs_to(places[k], at) ==> j == k
}

/// An object outside the remaining locations stays as it is, but for its connections.
proof fn lemma_locations_leave_others(
    a: model::AreaView,
    places: Seq<tables::PickupLocationView>,
    k: int,
    items: Seq<usize>,
    next: int,
    fresh: u32,
    t: tables::TablesView,
    skip_hudmenus: bool,
    other: ObjectLocation,
)
    requires
        0 <= k <= places.len(),
        area::with_locations(a, places, k, items, next, fresh, t, skip_hudmenus) is Some,
        forall|j: int| k <= j < places.len() ==> !#[trigger] belongs_to(places[j], other),
    ensures
        keeps_property(
            a,
            (area::with_locations(a, places, k, items, next, fresh, t, skip_hudmenus)->0).0,
            other,
        ),
    decreases places.len() - k,
{
    if k < places.len() {
        let item = items[next] as int;
        let only = places.len() == 1;
        assert(!belongs_to(places[k], other));
        law_location_leaves_others(
            a,
            places[k],
            next,
            item,
            only,
            fresh,
            t,
            skip_hudmenus,
            other,
        );
        let (b, id) = area::with_location(
            a,
            places[k],
            next,
            item,
            only,
            fresh,
            t,
            skip_hudmenus,
        )->0;
        lemma_locations_leave_others(
            b,
            places,
            k + 1,
            items,
            next + 1,
            id,
            t,
            skip_hudmenus,
            other,
        );
    }
}

/// Each of the remaining locations holds its item in the end.
proof fn lemma_locations_hold_items(
    a: model::AreaView,
    places: Seq<tables::PickupLocationView>,
    k: int,
    items: Seq<usize>,
    next: int,
    fresh: u32,
    t: tables::TablesView,
    skip_hudmenus: bool,
    i: int,
)
    requires
        places_apart(places),
        0 <= k <= i < places.len(),
        area::with_locations(a, places, k, items, next, fresh, t, skip_hudmenus) is Some,
    ensures
        next + i - k < items.len(),
        items[next + i - k] < t.items.len(),
        holds_item(
            (area::with_locations(a, places, k, items, next, fresh, t, skip_hudmenus)->0).0,
            places[i],
            next + i - k,
            items[next + i - k] as int,
            t,
            skip_hudmenus,
        ),
    decreases places.len() - k,
{
    let item = items[next] as int;
    let only = places.len() == 1;
    let (b, id) = area::with_location(
        a,
        places[k],
        next,
        item,
        only,
        fresh,
        t,
        skip_hudmenus,
    )->0;
    if i > k {
        lemma_locations_hold_items(b, places, k + 1, items, next + 1, id, t, skip_hudmenus, i);
    } else {
        let place = places[k];
        law_location_holds_item(a, place, next, item, only, fresh, t, skip_hudmenus);
        assert forall|j: int, at: ObjectLocation|
            k + 1 <= j < places.len() && #[trigger] belongs_to(place, at) implies !(
        #[trigger] belongs_to(places[j], at)) by {
            assert(belongs_to(places[k], at));
        }
        assert(belongs_to(place, place.location));
        assert(belongs_to(place, place.hudmemo));
        assert(belongs_to(place, place.attainment_audio));
        lemma_locations_leave_others(
            b,
            places,
            k + 1,
            items,
            next + 1,
            id,
            t,
            skip_hudmenus,
            place.location,
        );
        lemma_locations_leave_others(
            b,
            places,
            k + 1,
            items,
            next + 1,
            id,
            t,
            skip_hudmenus,
            place.hudmemo,
        );
        lemma_locations_leave_others(
            b,
            places,
            k + 1,
            items,
            next + 1,
            id,
            t,
            skip_hudmenus,
            place.attainment_audio,
        );
    }
}

/// Each location of a patched room holds its item, with its message and its sound: the `i`-th
/// location the `i`-th of the items that are next. No object may belong to two of the locations.
pub proof fn law_room_holds_items(
    a: model::AreaView,
    room: tables::RoomInfoView,
    items: Seq<usize>,
    next: int,
    fresh: u32,
    t: tables::TablesView,
    skip_hudmenus: bool,
    i: int,
)
    requires
        places_apart(room.pickup_locations),
        0 <= i < room.pickup_locations.len(),
        area::patched_area(a, room, items, next, fresh, t, skip_hudmenus) is Some,
    ensures
        next + i < items.len(),
        items[next + i] < t.items.len(),
        holds_item(
            (area::patched_area(a, room, items, next, fresh, t, skip_hudmenus)->0).0,
            room.pickup_locations[i],
            next + i,
            items[next + i] as int,
            t,
            skip_hudmenus,
        ),
{
    let layers = area::without_objects(a.layers, room.objects_to_remove)->0;
    lemma_locations_hold_items(
        model::AreaView { layers, ..a },
        room.pickup_locations,
        0,
        items,
        next,
        fresh,
        t,
        skip_hudmenus,
        i,
    );
}

/// Ids are used up in order.
proof fn lemma_locations_use_ids(
    a: model::AreaView,
    places: Seq<tables::PickupLocationView>,
    k: int,
    items: Seq<usize>,
    next: int,
    fresh: u32,
    t: tables::TablesView,
    skip_hudmenus: bool,
)
    requires
        area::with_locations(a, places, k, items, next, fresh, t, skip_hudmenus) is Some,
    ensures
        fresh <= (area::with_locations(
            a,
            places,
            k,
            items,
            next,
            fresh,
            t,
            skip_hudmenus,
        )->0).1,
    decreases places.len() - k,
{
    if k < places.len() {
        let (b, id) = area::with_location(
            a,
            places[k],
            next,
            items[next] as int,
            places.len() == 1,
            fresh,
            t,
            skip_hudmenus,
        )->0;
        lemma_locations_use_ids(b, places, k + 1, items, next + 1, id, t, skip_hudmenus);
    }
}

/// Ids are used up in order: after a room the next unused id is no smaller than before it.
pub proof fn law_room_uses_ids(
    a: model::AreaView,
    room: tables::RoomInfoView,
    items: Seq<usize>,
    next: int,
    fresh: u32,
    t: tables::TablesView,
    skip_hudmenus: bool,
)
    requires
        area::patched_area(a, room, items, next, fresh, t, skip_hudmenus) is Some,
    ensures
        fresh <= (area::patched_area(a, room, items, next, fresh, t, skip_hudmenus)->0).1,
{
    let layers = area::without_objects(a.layers, room.objects_to_remove)->0;
    lemma_locations_use_ids(
        model::AreaView { layers, ..a },
        room.pickup_locations,
        0,
        items,
        next,
        fresh,
        t,
        skip_hudmenus,
    );
}

} // verus!
