//! What becomes of each object of a room when an item is put at a location.

use vstd::prelude::*;
use crate::area;
use crate::model;
use crate::model::{Connection, ResourceKey, Shift};
use crate::objects;
use crate::rooms;
use crate::tables;
use crate::tables::ObjectLocation;
use crate::text;

verus! {

/// The `i`-th object of the `l`-th layer is the first of its layer with the id of a location.
pub open spec fn is_at(
    layers: Seq<Seq<model::ObjectView>>,
    at: ObjectLocation,
    l: int,
    i: int,
) -> bool {
    &&& at.layer == l
    &&& 0 <= l < layers.len()
    &&& 0 <= i < layers[l].len()
    &&& layers[l][i].instance_id == at.instance_id
    &&& forall|j: int| 0 <= j < i ==> (#[trigger] layers[l][j]).instance_id != at.instance_id
}

/// The position that is searched for is that of the first object with the id.
proof fn lemma_found(layers: Seq<Seq<model::ObjectView>>, at: ObjectLocation, l: int, i: int)
    ensures
        is_at(layers, at, l, i) <==> at.layer == l && l < layers.len() && area::first_with_id(
            layers[l],
            at.instance_id,
        ) == Some(i),
{
    if 0 <= l < layers.len() {
        area::lemma_first_with_id(layers[l], at.instance_id);
    }
}

/// What a change of one object does.
proof fn lemma_changed(
    a: model::AreaView,
    at: ObjectLocation,
    change: spec_fn(model::ObjectView) -> Option<model::ObjectView>,
) -> (i: int)
    ensures
        ({
            let l = at.layer as int;
            match area::with_change(a, at, change) {
                Some(b) => {
                    &&& is_at(a.layers, at, l, i)
                    &&& change(a.layers[l][i]) is Some
                    &&& b == (model::AreaView {
                        layers: a.layers.update(
                            l,
                            a.layers[l].update(i, change(a.layers[l][i])->0),
                        ),
                        ..a
                    })
                },
                None => forall|j: int|
                    #[trigger] is_at(a.layers, at, l, j) ==> change(a.layers[l][j]) is None,
            }
        }),
{
    let l = at.layer as int;
    let i = if l < a.layers.len() {
        match area::first_with_id(a.layers[l], at.instance_id) {
            Some(i) => i,
            None => 0,
        }
    } else {
        0
    };
    lemma_found(a.layers, at, l, i);
    assert forall|j: int| #[trigger] is_at(a.layers, at, l, j) implies area::with_change(
        a,
        at,
        change,
    ) is Some == (change(a.layers[l][j]) is Some) by {
        lemma_found(a.layers, at, l, j);
    }
    i
}

/// Layers whose first `n` hold objects with the same ids have the same objects at locations there.
pub proof fn lemma_same_places(
    old_layers: Seq<Seq<model::ObjectView>>,
    new_layers: Seq<Seq<model::ObjectView>>,
    n: int,
    at: ObjectLocation,
    l: int,
    i: int,
)
    requires
        rooms::same_ids(old_layers, new_layers, n),
        0 <= l < n,
    ensures
        is_at(old_layers, at, l, i) <==> is_at(new_layers, at, l, i),
{
    if 0 <= i < old_layers[l].len() {
        assert(new_layers[l][i].instance_id == old_layers[l][i].instance_id);
        if is_at(new_layers, at, l, i) {
            assert forall|j: int| 0 <= j < i implies (#[trigger] old_layers[l][j]).instance_id
                != at.instance_id by {
                assert(new_layers[l][j].instance_id == old_layers[l][j].instance_id);
            }
        }
    }
}

/// What the Artifact Temple is connected to where the showing of progress starts.
pub open spec fn redirected_connections(
    connections: Seq<Connection>,
    new_relay: u32,
) -> Seq<Connection> {
    connections.filter(|c: Connection| c.target_object_id != 1048869).push(
        Connection { state: 9, message: 13, target_object_id: new_relay },
    )
}

/// Where the showing of progress starts in the Artifact Temple.
pub open spec fn progress_start() -> ObjectLocation {
    ObjectLocation { layer: 1, instance_id: 68158836 }
}

/// An item is an artifact, by the kind of its pickup.
pub open spec fn is_artifact(kind: u32) -> bool {
    29 <= kind <= 40
}

/// The layer of the Artifact Temple that an artifact switches on.
pub open spec fn layer_of_artifact(kind: u32) -> u32 {
    if kind == 29 {
        24
    } else {
        (kind - 28) as u32
    }
}

/// What a pickup tells the objects that are added for it.
pub open spec fn told_by_pickup(kind: u32, first: u32) -> Seq<Connection> {
    if is_artifact(kind) {
        seq![
            Connection { state: 1, message: 13, target_object_id: first },
            Connection { state: 1, message: 7, target_object_id: (first + 1) as u32 },
        ]
    } else {
        seq![Connection { state: 1, message: 13, target_object_id: first }]
    }
}

/// A relay that is added.
pub open spec fn new_relay(
    id: u32,
    connections: Seq<Connection>,
    name: Seq<char>,
) -> model::ObjectView {
    model::ObjectView {
        instance_id: id,
        connections,
        property_data: model::PropertyView::Relay { name, active: 1 },
    }
}

/// The function that is added for an artifact: it switches on a layer of the Artifact Temple.
pub open spec fn new_layer_switch(id: u32, kind: u32) -> model::ObjectView {
    let nowhere = model::Vector3 { x: 0, y: 0, z: 0 };
    model::ObjectView {
        instance_id: id,
        connections: Seq::empty(),
        property_data: model::PropertyView::SpecialFunction(
            model::SpecialFunctionView {
                name: "Artifact Layer Switch"@,
                position: nowhere,
                rotation: nowhere,
                type_: 16,
                unknown0: Seq::empty(),
                unknown1: 0,
                unknown2: 0,
                unknown3: 0,
                layer_change_room_id: 3442151074,
                layer_change_layer_id: layer_of_artifact(kind),
                item_id: 0,
                unknown4: 1,
                unknown5: 0,
                unknown6: 4294967295,
                unknown7: 4294967295,
                unknown8: 4294967295,
            },
        ),
    }
}

/// The objects of the layer that is added for a location.
pub open spec fn new_objects(
    place: tables::PickupLocationView,
    kind: u32,
    first: u32,
) -> Seq<model::ObjectView> {
    let relay = new_relay(
        first,
        place.post_pickup_relay_connections,
        "Randomizer Post Pickup Relay"@,
    );
    if is_artifact(kind) {
        seq![relay, new_layer_switch((first + 1) as u32, kind)]
    } else {
        seq![relay]
    }
}

/// A pickup that got another item: it looks like the item, the exchange of its model is noted, and
/// all else about it stays.
pub open spec fn holds_instead(
    old: model::PropertyView,
    new: model::PropertyView,
    item: model::PickupModel,
) -> bool {
    match (old, new) {
        (model::PropertyView::Pickup(p), model::PropertyView::Pickup(q)) => {
            &&& q.model == item
            &&& q.shifts == p.shifts.push(Shift { from: p.model.shape, to: item.shape })
            &&& q.position == p.position
            &&& q.hitbox == p.hitbox
            &&& q.scan_offset == p.scan_offset
            &&& q.fade_in_timer == p.fade_in_timer
            &&& q.unknown == p.unknown
            &&& q.active == p.active
        },
        _ => false,
    }
}

/// A message that got another text. It interrupts, as it did, unless the user asked for messages
/// that do not and it is none of the three that always must: then it is shown for five seconds.
pub open spec fn says_instead(
    old: model::PropertyView,
    new: model::PropertyView,
    own_strg: u32,
    brief_strg: int,
    location_idx: int,
    skip_hudmenus: bool,
) -> bool {
    match (old, new) {
        (model::PropertyView::HudMemo(m), model::PropertyView::HudMemo(k)) => {
            &&& k.others == m.others
            &&& if skip_hudmenus && location_idx != 23 && location_idx != 50 && location_idx
                != 63 {
                k.strg == brief_strg && k.memo_type == 0 && k.first_message_timer == 0x40A00000
            } else {
                k.strg == own_strg && k.memo_type == m.memo_type && k.first_message_timer
                    == m.first_message_timer
            }
        },
        _ => false,
    }
}

/// A sound that plays another file. The name comes with a zero at its end.
pub open spec fn plays_instead(
    old: model::PropertyView,
    new: model::PropertyView,
    file_name: Seq<char>,
) -> bool {
    match (old, new) {
        (
            model::PropertyView::StreamedAudio { audio_file_name: _, others: x },
            model::PropertyView::StreamedAudio { audio_file_name, others: y },
        ) => x == y && file_name == audio_file_name.push('\0'),
        _ => false,
    }
}

/// What an object does after patching.
pub open spec fn property_after(
    layers: Seq<Seq<model::ObjectView>>,
    l: int,
    i: int,
    new: model::PropertyView,
    place: tables::PickupLocationView,
    location_idx: int,
    item: int,
    t: tables::TablesView,
    skip_hudmenus: bool,
) -> bool {
    let old = layers[l][i].property_data;
    let meta = t.items[item];
    &&& is_at(layers, place.location, l, i) ==> holds_instead(old, new, meta.pickup)
    &&& is_at(layers, place.hudmemo, l, i) ==> says_instead(
        old,
        new,
        meta.hudmemo_strg,
        t.ids.skip_hudmemo_strg_start + item,
        location_idx,
        skip_hudmenus,
    )
    &&& is_at(layers, place.attainment_audio, l, i) ==> plays_instead(
        old,
        new,
        meta.attainment_audio_file_name,
    )
    &&& !is_at(layers, place.location, l, i) && !is_at(layers, place.hudmemo, l, i) && !is_at(
        layers,
        place.attainment_audio,
        l,
        i,
    ) ==> new == old
}

/// What an object is connected to after patching.
pub open spec fn connections_after(
    layers: Seq<Seq<model::ObjectView>>,
    l: int,
    i: int,
    place: tables::PickupLocationView,
    kind: u32,
    in_temple: bool,
    fresh: u32,
) -> Seq<Connection> {
    let old = layers[l][i].connections;
    let kept = if in_temple && is_at(layers, progress_start(), l, i) {
        redirected_connections(old, fresh)
    } else {
        old
    };
    if is_at(layers, place.location, l, i) {
        kept + told_by_pickup(kind, if in_temple { (fresh + 1) as u32 } else { fresh })
    } else {
        kept
    }
}

/// The layers of a room to which the one for a location was added, and in the Artifact Temple
/// another, but in which no object was changed by its item yet.
spec fn is_prepared(
    a: model::AreaView,
    e: model::AreaView,
    place: tables::PickupLocationView,
    kind: u32,
    in_temple: bool,
    fresh: u32,
) -> bool {
    let n = a.layers.len() as int;
    let first = if in_temple { (fresh + 1) as u32 } else { fresh };
    &&& e.layers.len() == n + if in_temple { 2int } else { 1int }
    &&& forall|l: int| 0 <= l < n ==> (#[trigger] e.layers[l]).len() == a.layers[l].len()
    &&& forall|l: int, i: int|
        0 <= l < n && 0 <= i < a.layers[l].len() ==> #[trigger] e.layers[l][i] == (
        model::ObjectView {
            connections: if in_temple && is_at(a.layers, progress_start(), l, i) {
                redirected_connections(a.layers[l][i].connections, fresh)
            } else {
                a.layers[l][i].connections
            },
            ..a.layers[l][i]
        })
    &&& e.layers[n] == new_objects(place, kind, first)
    &&& in_temple ==> e.layers[n + 1] == seq![
        new_relay(
            fresh,
            seq![Connection { state: 9, message: 13, target_object_id: 1048869 }],
            "Relay Show Progress1"@,
        ),
    ]
}

/// The Artifact of Truth is required.
proof fn lemma_truth(c: model::AreaView, kind: u32, fresh: u32)
    requires
        rooms::is_sound(c),
    ensures
        match area::truth_required(c, kind, fresh) {
            Some((d, id)) => {
                let n = c.layers.len() as int;
                &&& n == 24
                &&& fresh < u32::MAX
                &&& id == fresh + 1
                &&& d.layers.len() == n + 1
                &&& d.layer_count == n + 1
                &&& d.mrea_file_id == c.mrea_file_id
                &&& d.added_layers == c.added_layers.push("Randomizer - Got Artifact 1"@)
                &&& d.added_dependencies == c.added_dependencies
                &&& d.flags == area::temple_flags((c.flags | (1u64 << 24u64)), kind)
                &&& exists|i: int| #[trigger] is_at(c.layers, progress_start(), 1, i)
                &&& forall|l: int| 0 <= l < n ==> (#[trigger] d.layers[l]).len()
                    == c.layers[l].len()
                &&& forall|l: int, i: int|
                    0 <= l < n && 0 <= i < c.layers[l].len() ==> #[trigger] d.layers[l][i] == (
                    model::ObjectView {
                        connections: if is_at(c.layers, progress_start(), l, i) {
                            redirected_connections(c.layers[l][i].connections, fresh)
                        } else {
                            c.layers[l][i].connections
                        },
                        ..c.layers[l][i]
                    })
                &&& d.layers[n] == seq![
                    new_relay(
                        fresh,
                        seq![Connection { state: 9, message: 13, target_object_id: 1048869 }],
                        "Relay Show Progress1"@,
                    ),
                ]
            },
            None => c.layers.len() != 24 || fresh == u32::MAX || forall|i: int|
                !#[trigger] is_at(c.layers, progress_start(), 1, i),
        },
{
    if c.layer_count == 24 && fresh < u32::MAX {
        let layered = area::with_layer(c, "Randomizer - Got Artifact 1"@)->0;
        let flagged = model::AreaView { flags: area::temple_flags(layered.flags, kind), ..layered };
        let relay = objects::relay(
            fresh,
            seq![Connection { state: 9, message: 13, target_object_id: 1048869 }],
            "Relay Show Progress1"@,
        );
        let related = area::with_object(flagged, 24, relay)->0;
        let change = |o: model::ObjectView| Some(area::redirected(o, fresh));
        let x = lemma_changed(related, progress_start(), change);
        assert(related.layers[24] =~= seq![relay]);
        assert forall|i: int|
            #[trigger] is_at(related.layers, progress_start(), 1, i) <==> is_at(
                c.layers,
                progress_start(),
                1,
                i,
            ) by {
            assert(related.layers[1] == c.layers[1]);
            assert forall|j: int| 0 <= j < c.layers[1].len() implies related.layers[1][j]
                == c.layers[1][j] by {}
        }
        assert forall|i: int| !#[trigger] is_at(
            c.layers,
            progress_start(),
            1,
            i,
        ) || area::truth_required(c, kind, fresh) is Some by {
            if is_at(c.layers, progress_start(), 1, i) {
                assert(is_at(related.layers, progress_start(), 1, i));
                assert(change(related.layers[1][i]) is Some);
            }
        }
        if area::truth_required(c, kind, fresh) is Some {
            let (d, id) = area::truth_required(c, kind, fresh)->0;
            assert(is_at(c.layers, progress_start(), 1, x));
            let old = related.layers[1][x];
            assert(area::redirected(old, fresh).connections =~= redirected_connections(
                old.connections,
                fresh,
            ));
            assert forall|l: int, i: int|
                0 <= l < 24 && 0 <= i < c.layers[l].len() implies #[trigger] d.layers[l][i] == (
            model::ObjectView {
                connections: if is_at(c.layers, progress_start(), l, i) {
                    redirected_connections(c.layers[l][i].connections, fresh)
                } else {
                    c.layers[l][i].connections
                },
                ..c.layers[l][i]
            }) by {
                if is_at(c.layers, progress_start(), l, i) {
                    lemma_found(c.layers, progress_start(), l, i);
                    lemma_found(c.layers, progress_start(), 1, x);
                }
            }
        }
    }
}

/// A room with the layer for a location and the objects in it, and the first of their ids.
spec fn prepared(
    a: model::AreaView,
    place: tables::PickupLocationView,
    location_idx: int,
    item: int,
    only_location: bool,
    fresh: u32,
    t: tables::TablesView,
    skip_hudmenus: bool,
) -> Option<(model::AreaView, u32)> {
    let kind = t.items[item].pickup.kind;
    match area::with_pickup_layer(a, location_idx, item, only_location, fresh, t, skip_hudmenus) {
        None => None,
        Some((b, id)) => if id + area::added_count(kind) > u32::MAX {
            None
        } else {
            match area::with_objects(
                b,
                a.layer_count as int,
                area::added_objects(place, kind, id),
            ) {
                None => None,
                Some(c) => Some((c, id)),
            }
        },
    }
}

/// The objects that are added are those that are stated.
proof fn lemma_new_objects(place: tables::PickupLocationView, kind: u32, first: u32)
    ensures
        area::added_objects(place, kind, first) == new_objects(place, kind, first),
        area::added_connections(kind, first) == told_by_pickup(kind, first),
        area::added_count(kind) == if is_artifact(kind) {
            2int
        } else {
            1int
        },
{
    let stated = new_objects(place, kind, first);
    let made = area::added_objects(place, kind, first);
    assert(made =~= stated);
    assert(area::added_connections(kind, first) =~= told_by_pickup(kind, first));
}

/// Objects are added to a layer that has none.
proof fn lemma_objects_added(
    b: model::AreaView,
    layer: int,
    place: tables::PickupLocationView,
    kind: u32,
    first: u32,
)
    requires
        0 <= layer < b.layers.len(),
        b.layers[layer].len() == 0,
    ensures
        area::with_objects(b, layer, area::added_objects(place, kind, first)) == Some(
            model::AreaView {
                layers: b.layers.update(layer, new_objects(place, kind, first)),
                ..b
            },
        ),
{
    lemma_new_objects(place, kind, first);
    let added = area::added_objects(place, kind, first);
    reveal_with_fuel(area::with_objects, 3);
    assert(seq![added[0]].drop_last() =~= Seq::empty());
    if added.len() == 2 {
        assert(added.drop_last() =~= seq![added[0]]);
    } else {
        assert(added.drop_last() =~= Seq::empty());
    }
    let c = area::with_objects(b, layer, added)->0;
    assert(c.layers[layer] =~= added);
    assert(c.layers =~= b.layers.update(layer, added));
}

/// The resources that a room is given for an item.
pub open spec fn resources_for(
    t: tables::TablesView,
    item: int,
    skip_hudmenus: bool,
) -> Seq<ResourceKey> {
    if skip_hudmenus {
        t.items[item].deps.push(
            ResourceKey {
                file_id: (t.ids.skip_hudmemo_strg_start + item) as u32,
                fourcc: 0x53545247,
            },
        )
    } else {
        t.items[item].deps
    }
}

/// What is known of the room beside its layers and flags.
pub open spec fn is_noted(
    a: model::AreaView,
    b: model::AreaView,
    location_idx: int,
    item: int,
    t: tables::TablesView,
    skip_hudmenus: bool,
) -> bool {
    let name = "Randomizer - Pickup "@ + text::decimal_text(location_idx as nat) + " (\""@
        + text::escaped(t.items[item].pickup_name) + "\")"@;
    let in_temple = a.mrea_file_id == t.ids.artifact_temple_mrea;
    &&& b.mrea_file_id == a.mrea_file_id
    &&& b.layer_count == a.layer_count + if in_temple { 2int } else { 1int }
    &&& b.added_layers == if in_temple {
        a.added_layers.push(name).push("Randomizer - Got Artifact 1"@)
    } else {
        a.added_layers.push(name)
    }
    &&& b.added_dependencies == a.added_dependencies.push(
        model::LayerDependenciesView {
            layer: a.layers.len() as int,
            deps: resources_for(t, item, skip_hudmenus),
        },
    )
}

/// A room has place for what a location adds: a flag for each new layer, and ids; and the Artifact
/// Temple is as expected.
pub open spec fn has_place(
    a: model::AreaView,
    kind: u32,
    only_location: bool,
    fresh: u32,
    t: tables::TablesView,
) -> bool {
    let n = a.layers.len() as int;
    let count = if is_artifact(kind) { 2int } else { 1int };
    if a.mrea_file_id == t.ids.artifact_temple_mrea {
        &&& only_location
        &&& n == 23
        &&& exists|i: int| #[trigger] is_at(a.layers, progress_start(), 1, i)
        &&& fresh + 1 + count <= u32::MAX
    } else {
        n < 64 && fresh + count <= u32::MAX
    }
}

/// The flags of a room after a location was added.
spec fn flags_after(a: model::AreaView, kind: u32, t: tables::TablesView) -> u64 {
    let n = a.layers.len() as u64;
    if a.mrea_file_id == t.ids.artifact_temple_mrea {
        area::temple_flags(((a.flags | (1u64 << 23u64)) | (1u64 << 24u64)), kind)
    } else {
        a.flags | (1u64 << n)
    }
}

/// When and how a room is prepared.
#[verifier::rlimit(40)]
proof fn lemma_prepared(
    a: model::AreaView,
    place: tables::PickupLocationView,
    location_idx: int,
    item: int,
    only_location: bool,
    fresh: u32,
    t: tables::TablesView,
    skip_hudmenus: bool,
)
    requires
        rooms::is_sound(a),
    ensures
        ({
            let kind = t.items[item].pickup.kind;
            let in_temple = a.mrea_file_id == t.ids.artifact_temple_mrea;
            match prepared(
                a,
                place,
                location_idx,
                item,
                only_location,
                fresh,
                t,
                skip_hudmenus,
            ) {
                Some((e, id)) => {
                    &&& has_place(a, kind, only_location, fresh, t)
                    &&& id == if in_temple { fresh + 1 } else { fresh as int }
                    &&& is_prepared(a, e, place, kind, in_temple, fresh)
                    &&& is_noted(a, e, location_idx, item, t, skip_hudmenus)
                    &&& e.flags == flags_after(a, kind, t)
                },
                None => !has_place(a, kind, only_location, fresh, t),
            }
        }),
{
    let meta = t.items[item];
    let kind = meta.pickup.kind;
    let in_temple = a.mrea_file_id == t.ids.artifact_temple_mrea;
    let n = a.layers.len() as int;
    lemma_new_objects(place, kind, fresh);
    let name = area::pickup_layer_name(location_idx, meta.pickup_name);
    if n < 64 {
        let b = area::with_layer(a, name)->0;
        let c = model::AreaView {
            added_dependencies: b.added_dependencies.push(
                model::LayerDependenciesView {
                    layer: b.layer_count - 1,
                    deps: area::needed_resources(t, item, skip_hudmenus),
                },
            ),
            ..b
        };
        assert(c.layers.last() == Seq::<model::ObjectView>::empty());
        assert forall|i: int|
            #[trigger] is_at(c.layers, progress_start(), 1, i) <==> is_at(
                a.layers,
                progress_start(),
                1,
                i,
            ) by {
            if n > 1 {
                assert(c.layers[1] == a.layers[1]);
            } else if n == 1 {
                assert(c.layers[1].len() == 0);
            }
        }
        assert forall|l: int, i: int| 0 <= l < n implies #[trigger] is_at(
            c.layers,
            progress_start(),
            l,
            i,
        ) == is_at(a.layers, progress_start(), l, i) by {
            assert(c.layers[l] == a.layers[l]);
        }
        if in_temple {
            lemma_truth(c, kind, fresh);
            if exists|i: int| #[trigger] is_at(a.layers, progress_start(), 1, i) {
                let w = choose|i: int| #[trigger] is_at(a.layers, progress_start(), 1, i);
                assert(is_at(c.layers, progress_start(), 1, w));
            }
            if only_location && area::truth_required(c, kind, fresh) is Some {
                let (d, id) = area::truth_required(c, kind, fresh)->0;
                let w = choose|i: int| #[trigger] is_at(c.layers, progress_start(), 1, i);
                assert(is_at(a.layers, progress_start(), 1, w));
                assert(d.layers[n].len() == c.layers[n].len());
                lemma_objects_added(d, n, place, kind, id);
            }
        } else {
            lemma_objects_added(c, n, place, kind, fresh);
        }
    }
}

/// There is an object at a location that can be changed.
pub open spec fn has_pickup(layers: Seq<Seq<model::ObjectView>>, at: ObjectLocation) -> bool {
    exists|i: int| #[trigger]
        is_at(layers, at, at.layer as int, i)
            && layers[at.layer as int][i].property_data is Pickup
}

/// There is a message at a location.
pub open spec fn has_memo(layers: Seq<Seq<model::ObjectView>>, at: ObjectLocation) -> bool {
    exists|i: int| #[trigger]
        is_at(layers, at, at.layer as int, i)
            && layers[at.layer as int][i].property_data is HudMemo
}

/// There is a sound at a location.
pub open spec fn has_sound(layers: Seq<Seq<model::ObjectView>>, at: ObjectLocation) -> bool {
    exists|i: int| #[trigger]
        is_at(layers, at, at.layer as int, i)
            && layers[at.layer as int][i].property_data is StreamedAudio
}

/// What is at a location of a prepared room is what was there, or one of the added objects.
proof fn lemma_prepared_place(
    a: model::AreaView,
    e: model::AreaView,
    place: tables::PickupLocationView,
    kind: u32,
    in_temple: bool,
    fresh: u32,
    at: ObjectLocation,
    i: int,
)
    requires
        is_prepared(a, e, place, kind, in_temple, fresh),
    ensures
        at.layer < a.layers.len() ==> (is_at(e.layers, at, at.layer as int, i) <==> is_at(
            a.layers,
            at,
            at.layer as int,
            i,
        )),
        at.layer < a.layers.len() && is_at(e.layers, at, at.layer as int, i)
            ==> e.layers[at.layer as int][i].property_data
            == a.layers[at.layer as int][i].property_data,
        at.layer >= a.layers.len() && is_at(e.layers, at, at.layer as int, i)
            ==> e.layers[at.layer as int][i].property_data is Relay
            || e.layers[at.layer as int][i].property_data is SpecialFunction,
{
    let n = a.layers.len() as int;
    let l = at.layer as int;
    assert(rooms::same_ids(a.layers, e.layers, n));
    if l < n {
        lemma_same_places(a.layers, e.layers, n, at, l, i);
    }
}

/// The room with the three objects of a location filled, as it follows from the prepared room.
#[verifier::rlimit(60)]
proof fn lemma_filled(
    a: model::AreaView,
    e: model::AreaView,
    place: tables::PickupLocationView,
    location_idx: int,
    item: int,
    in_temple: bool,
    fresh: u32,
    id: u32,
    t: tables::TablesView,
    skip_hudmenus: bool,
)
    requires
        is_prepared(a, e, place, t.items[item].pickup.kind, in_temple, fresh),
    ensures
        match area::with_item(e, place, location_idx, item, id, t, skip_hudmenus) {
            Some(f) => {
                let n = a.layers.len() as int;
                &&& has_pickup(a.layers, place.location)
                &&& has_memo(a.layers, place.hudmemo)
                &&& has_sound(a.layers, place.attainment_audio)
                &&& f == (model::AreaView { layers: f.layers, ..e })
                &&& f.layers.len() == e.layers.len()
                &&& forall|l: int| n <= l < e.layers.len() ==> #[trigger] f.layers[l]
                    == e.layers[l]
                &&& forall|l: int| 0 <= l < n ==> (#[trigger] f.layers[l]).len()
                    == a.layers[l].len()
                &&& forall|l: int, i: int|
                    0 <= l < n && 0 <= i < a.layers[l].len() ==> is_filled(
                        a,
                        e,
                        #[trigger] f.layers[l][i],
                        l,
                        i,
                        place,
                        location_idx,
                        item,
                        id,
                        t,
                        skip_hudmenus,
                    )
            },
            None => !(has_pickup(a.layers, place.location) && has_memo(a.layers, place.hudmemo)
                && has_sound(a.layers, place.attainment_audio)),
        },
{
    let n = a.layers.len() as int;
    let meta = t.items[item];
    let kind = meta.pickup.kind;
    let fill = |o: model::ObjectView|
        area::refilled(o, meta.pickup, area::added_connections(kind, id));
    let tell = |o: model::ObjectView|
        objects::with_hudmemo_updated(
            o,
            meta.hudmemo_strg,
            tables::skip_hudmemo_id(t.ids, item),
            location_idx,
            skip_hudmenus,
        );
    let sound = |o: model::ObjectView|
        objects::with_audio_updated(o, meta.attainment_audio_file_name);
    let (p, m, s) = (place.location, place.hudmemo, place.attainment_audio);
    let (pl, ml, sl) = (p.layer as int, m.layer as int, s.layer as int);
    assert forall|at: ObjectLocation, i: int| #[trigger]
        is_at(e.layers, at, at.layer as int, i) implies (at.layer < n ==> is_at(
        a.layers,
        at,
        at.layer as int,
        i,
    ) && e.layers[at.layer as int][i].property_data
        == a.layers[at.layer as int][i].property_data) && (at.layer >= n
        ==> e.layers[at.layer as int][i].property_data is Relay
        || e.layers[at.layer as int][i].property_data is SpecialFunction) by {
        lemma_prepared_place(a, e, place, kind, in_temple, fresh, at, i);
    }
    assert forall|at: ObjectLocation, i: int| #[trigger]
        is_at(a.layers, at, at.layer as int, i) implies is_at(
        e.layers,
        at,
        at.layer as int,
        i,
    ) by {
        lemma_prepared_place(a, e, place, kind, in_temple, fresh, at, i);
    }
    let pi = lemma_changed(e, p, fill);
    if area::with_change(e, p, fill) is None {
        assert(!has_pickup(a.layers, p)) by {
            if has_pickup(a.layers, p) {
                let i = choose|i: int| #[trigger]
                    is_at(a.layers, p, pl, i) && a.layers[pl][i].property_data is Pickup;
                assert(is_at(e.layers, p, pl, i));
                assert(fill(e.layers[pl][i]) is Some);
            }
        }
    } else {
        let b = area::with_change(e, p, fill)->0;
        assert(is_at(a.layers, p, pl, pi));
        assert(rooms::same_ids(e.layers, b.layers, e.layers.len() as int));
        let mi = lemma_changed(b, m, tell);
        if ml < e.layers.len() {
            assert forall|i: int| #[trigger]
                is_at(b.layers, m, ml, i) <==> is_at(e.layers, m, ml, i) by {
                lemma_same_places(e.layers, b.layers, e.layers.len() as int, m, ml, i);
            }
        }
        if area::with_change(b, m, tell) is None {
            assert(!has_memo(a.layers, m)) by {
                if has_memo(a.layers, m) {
                    let i = choose|i: int| #[trigger]
                        is_at(a.layers, m, ml, i) && a.layers[ml][i].property_data is HudMemo;
                    assert(is_at(e.layers, m, ml, i));
                    assert(is_at(b.layers, m, ml, i));
                    assert(tell(b.layers[ml][i]) is Some);
                }
            }
        } else {
            let c = area::with_change(b, m, tell)->0;
            assert(is_at(e.layers, m, ml, mi));
            assert(is_at(a.layers, m, ml, mi));
            assert(rooms::same_ids(e.layers, c.layers, e.layers.len() as int));
            let si = lemma_changed(c, s, sound);
            if sl < e.layers.len() {
                assert forall|i: int| #[trigger]
                    is_at(c.layers, s, sl, i) <==> is_at(e.layers, s, sl, i) by {
                    lemma_same_places(e.layers, c.layers, e.layers.len() as int, s, sl, i);
                }
            }
            if area::with_change(c, s, sound) is None {
                assert(!has_sound(a.layers, s)) by {
                    if has_sound(a.layers, s) {
                        let i = choose|i: int| #[trigger]
                            is_at(a.layers, s, sl, i)
                                && a.layers[sl][i].property_data is StreamedAudio;
                        assert(is_at(e.layers, s, sl, i));
                        assert(is_at(c.layers, s, sl, i));
                        assert(sound(c.layers[sl][i]) is Some);
                    }
                }
            } else {
                let f = area::with_change(c, s, sound)->0;
                assert(is_at(e.layers, s, sl, si));
                assert(is_at(a.layers, s, sl, si));
                assert forall|l: int, i: int|
                    0 <= l < n && 0 <= i < a.layers[l].len() implies is_filled(
                    a,
                    e,
                    #[trigger] f.layers[l][i],
                    l,
                    i,
                    place,
                    location_idx,
                    item,
                    id,
                    t,
                    skip_hudmenus,
                ) by {
                    lemma_one_first(a.layers, p, l, i, pi);
                    lemma_one_first(a.layers, m, l, i, mi);
                    lemma_one_first(a.layers, s, l, i, si);
                }
            }
        }
    }
}

/// There is only one first object with an id.
proof fn lemma_one_first(
    layers: Seq<Seq<model::ObjectView>>,
    at: ObjectLocation,
    l: int,
    i: int,
    j: int,
)
    requires
        is_at(layers, at, at.layer as int, j),
    ensures
        is_at(layers, at, l, i) <==> l == at.layer && i == j,
{
    lemma_found(layers, at, l, i);
    lemma_found(layers, at, at.layer as int, j);
}

/// An object of the prepared room after the three objects of the location were filled.
spec fn is_filled(
    a: model::AreaView,
    e: model::AreaView,
    new: model::ObjectView,
    l: int,
    i: int,
    place: tables::PickupLocationView,
    location_idx: int,
    item: int,
    id: u32,
    t: tables::TablesView,
    skip_hudmenus: bool,
) -> bool {
    let meta = t.items[item];
    let old = e.layers[l][i];
    let here = is_at(a.layers, place.location, l, i);
    &&& new.instance_id == old.instance_id
    &&& new.connections == if here {
        old.connections + area::added_connections(meta.pickup.kind, id)
    } else {
        old.connections
    }
    &&& Some(new.property_data) == if here {
        match objects::with_pickup_updated(old, meta.pickup) {
            Some(o) => Some(o.property_data),
            None => None,
        }
    } else if is_at(a.layers, place.hudmemo, l, i) {
        match objects::with_hudmemo_updated(
            old,
            meta.hudmemo_strg,
            tables::skip_hudmemo_id(t.ids, item),
            location_idx,
            skip_hudmenus,
        ) {
            Some(o) => Some(o.property_data),
            None => None,
        }
    } else if is_at(a.layers, place.attainment_audio, l, i) {
        match objects::with_audio_updated(old, meta.attainment_audio_file_name) {
            Some(o) => Some(o.property_data),
            None => None,
        }
    } else {
        Some(old.property_data)
    }
    &&& here ==> !is_at(a.layers, place.hudmemo, l, i) && !is_at(
        a.layers,
        place.attainment_audio,
        l,
        i,
    )
    &&& is_at(a.layers, place.hudmemo, l, i) ==> !is_at(
        a.layers,
        place.attainment_audio,
        l,
        i,
    )
}

/// An item can be put at a location exactly if the room has place for what is added, and has a
/// pickup, a message and a sound where the location says.
pub proof fn law_location_succeeds(
    a: model::AreaView,
    place: tables::PickupLocationView,
    location_idx: int,
    item: int,
    only_location: bool,
    fresh: u32,
    t: tables::TablesView,
    skip_hudmenus: bool,
)
    requires
        rooms::is_sound(a),
    ensures
        area::with_location(
            a,
            place,
            location_idx,
            item,
            only_location,
            fresh,
            t,
            skip_hudmenus,
        ) is Some <==> {
            &&& has_place(a, t.items[item].pickup.kind, only_location, fresh, t)
            &&& has_pickup(a.layers, place.location)
            &&& has_memo(a.layers, place.hudmemo)
            &&& has_sound(a.layers, place.attainment_audio)
        },
{
    lemma_prepared(
        a,
        place,
        location_idx,
        item,
        only_location,
        fresh,
        t,
        skip_hudmenus,
    );
    match prepared(
        a,
        place,
        location_idx,
        item,
        only_location,
        fresh,
        t,
        skip_hudmenus,
    ) {
        Some((e, id)) => {
            let in_temple = a.mrea_file_id == t.ids.artifact_temple_mrea;
            lemma_filled(
                a,
                e,
                place,
                location_idx,
                item,
                in_temple,
                fresh,
                id,
                t,
                skip_hudmenus,
            );
        },
        None => {},
    }
}

/// What putting an item at a location does to each object of the room: the pickup holds the item
/// and tells the added objects beside those that it told before, the message and the sound are
/// those of the item, in the Artifact Temple the start of the showing of progress is redirected,
/// and nothing else changes.
pub proof fn law_location_changes(
    a: model::AreaView,
    place: tables::PickupLocationView,
    location_idx: int,
    item: int,
    only_location: bool,
    fresh: u32,
    t: tables::TablesView,
    skip_hudmenus: bool,
    l: int,
    i: int,
)
    requires
        rooms::is_sound(a),
        t.wf(),
        0 <= item < t.items.len(),
        skip_hudmenus ==> t.has_message_ids(),
        area::with_location(
            a,
            place,
            location_idx,
            item,
            only_location,
            fresh,
            t,
            skip_hudmenus,
        ) is Some,
        0 <= l < a.layers.len(),
        0 <= i < a.layers[l].len(),
    ensures
        ({
            let b = (area::with_location(
                a,
                place,
                location_idx,
                item,
                only_location,
                fresh,
                t,
                skip_hudmenus,
            )->0).0;
            let in_temple = a.mrea_file_id == t.ids.artifact_temple_mrea;
            let new = b.layers[l][i];
            &&& b.layers[l].len() == a.layers[l].len()
            &&& new.instance_id == a.layers[l][i].instance_id
            &&& new.connections == connections_after(
                a.layers,
                l,
                i,
                place,
                t.items[item].pickup.kind,
                in_temple,
                fresh,
            )
            &&& property_after(
                a.layers,
                l,
                i,
                new.property_data,
                place,
                location_idx,
                item,
                t,
                skip_hudmenus,
            )
        }),
{
    lemma_prepared(
        a,
        place,
        location_idx,
        item,
        only_location,
        fresh,
        t,
        skip_hudmenus,
    );
    let (e, id) = prepared(
        a,
        place,
        location_idx,
        item,
        only_location,
        fresh,
        t,
        skip_hudmenus,
    )->0;
    let in_temple = a.mrea_file_id == t.ids.artifact_temple_mrea;
    lemma_filled(a, e, place, location_idx, item, in_temple, fresh, id, t, skip_hudmenus);
    let meta = t.items[item];
    lemma_new_objects(place, meta.pickup.kind, id);
    let f = area::with_item(e, place, location_idx, item, id, t, skip_hudmenus)->0;
    assert(is_filled(
        a,
        e,
        f.layers[l][i],
        l,
        i,
        place,
        location_idx,
        item,
        id,
        t,
        skip_hudmenus,
    ));
    assert(e.layers[l][i].property_data == a.layers[l][i].property_data);
    let name = meta.attainment_audio_file_name;
    assert(objects::is_nul_terminated(name));
    assert(name =~= name.drop_last().push('\0'));
}

/// What putting an item at a location adds to the room: a layer with a relay and, for an artifact,
/// a switch of its layer in the Artifact Temple; there also the layer that the Artifact of Truth
/// is told by. Each has a name, is noted with the resources that it needs, and each object has the
/// next id.
pub proof fn law_location_additions(
    a: model::AreaView,
    place: tables::PickupLocationView,
    location_idx: int,
    item: int,
    only_location: bool,
    fresh: u32,
    t: tables::TablesView,
    skip_hudmenus: bool,
)
    requires
        rooms::is_sound(a),
        area::with_location(
            a,
            place,
            location_idx,
            item,
            only_location,
            fresh,
            t,
            skip_hudmenus,
        ) is Some,
    ensures
        ({
            let (b, id) = area::with_location(
                a,
                place,
                location_idx,
                item,
                only_location,
                fresh,
                t,
                skip_hudmenus,
            )->0;
            let in_temple = a.mrea_file_id == t.ids.artifact_temple_mrea;
            let kind = t.items[item].pickup.kind;
            let n = a.layers.len() as int;
            let first = if in_temple { fresh + 1 } else { fresh as int };
            &&& is_noted(a, b, location_idx, item, t, skip_hudmenus)
            &&& rooms::is_sound(b)
            &&& id == first + if is_artifact(kind) { 2int } else { 1int }
            &&& b.layers[n] == new_objects(place, kind, first as u32)
            &&& in_temple ==> b.layers[n + 1] == seq![
                new_relay(
                    fresh,
                    seq![Connection { state: 9, message: 13, target_object_id: 1048869 }],
                    "Relay Show Progress1"@,
                ),
            ]
        }),
{
    lemma_prepared(
        a,
        place,
        location_idx,
        item,
        only_location,
        fresh,
        t,
        skip_hudmenus,
    );
    let (e, id) = prepared(
        a,
        place,
        location_idx,
        item,
        only_location,
        fresh,
        t,
        skip_hudmenus,
    )->0;
    let in_temple = a.mrea_file_id == t.ids.artifact_temple_mrea;
    lemma_filled(a, e, place, location_idx, item, in_temple, fresh, id, t, skip_hudmenus);
    lemma_new_objects(place, t.items[item].pickup.kind, id);
}

/// A bit of a number.
pub open spec fn has_bit(flags: u64, x: u32) -> bool {
    (flags / (vstd::arithmetic::power2::pow2(x as nat) as u64)) % 2 == 1
}

/// Which layers of a room are active after an item was put at a location: the new layer is; in the
/// Artifact Temple that of the Artifact of Truth exactly if the item is that artifact, and that of
/// another artifact if the item is that one; and those that were before.
pub proof fn law_location_flags(
    a: model::AreaView,
    place: tables::PickupLocationView,
    location_idx: int,
    item: int,
    only_location: bool,
    fresh: u32,
    t: tables::TablesView,
    skip_hudmenus: bool,
    x: u32,
)
    requires
        rooms::is_sound(a),
        area::with_location(
            a,
            place,
            location_idx,
            item,
            only_location,
            fresh,
            t,
            skip_hudmenus,
        ) is Some,
        x < 64,
    ensures
        ({
            let b = (area::with_location(
                a,
                place,
                location_idx,
                item,
                only_location,
                fresh,
                t,
                skip_hudmenus,
            )->0).0;
            let kind = t.items[item].pickup.kind;
            has_bit(b.flags, x) <==> if a.mrea_file_id == t.ids.artifact_temple_mrea {
                if x == 24 {
                    kind == 29
                } else {
                    has_bit(a.flags, x) || x == 23 || (30 <= kind <= 40 && x == kind - 28)
                }
            } else {
                has_bit(a.flags, x) || x == a.layers.len()
            }
        }),
{
    lemma_prepared(
        a,
        place,
        location_idx,
        item,
        only_location,
        fresh,
        t,
        skip_hudmenus,
    );
    let (e, id) = prepared(
        a,
        place,
        location_idx,
        item,
        only_location,
        fresh,
        t,
        skip_hudmenus,
    )->0;
    let in_temple = a.mrea_file_id == t.ids.artifact_temple_mrea;
    lemma_filled(a, e, place, location_idx, item, in_temple, fresh, id, t, skip_hudmenus);
    let kind = t.items[item].pickup.kind;
    let b = (area::with_location(
        a,
        place,
        location_idx,
        item,
        only_location,
        fresh,
        t,
        skip_hudmenus,
    )->0).0;
    assert(b.flags == flags_after(a, kind, t));
    lemma_bit(b.flags, x);
    lemma_bit(a.flags, x);
    let flags = a.flags;
    if in_temple {
        let both = (flags | (1u64 << 23u64)) | (1u64 << 24u64);
        assert((both & (1u64 << x) != 0) == (flags & (1u64 << x) != 0 || x == 23 || x == 24))
            by (bit_vector)
            requires
                both == ((flags | (1u64 << 23u64)) | (1u64 << 24u64)),
                x < 64,
        ;
        assert(both & (1u64 << 24u32) != 0) by (bit_vector)
            requires
                both == ((flags | (1u64 << 23u64)) | (1u64 << 24u64)),
        ;
        rooms::law_temple_layers(both, kind, x);
    } else {
        let n = a.layers.len() as u64;
        assert(((flags | (1u64 << n)) & (1u64 << x) != 0) == (x == n || flags & (1u64 << x) != 0))
            by (bit_vector)
            requires
                n < 64,
                x < 64,
        ;
    }
}

/// A bit, masked or divided out.
proof fn lemma_bit(flags: u64, x: u32)
    requires
        x < 64,
    ensures
        has_bit(flags, x) <==> flags & (1u64 << x) != 0,
{
    vstd::bits::lemma_u64_shr_is_div(flags, x as u64);
    vstd::arithmetic::power2::lemma_pow2_pos(x as nat);
    vstd::bits::lemma_u64_pow2_no_overflow(x as nat);
    assert((flags & (1u64 << x) != 0) == ((flags >> (x as u64)) % 2 == 1)) by (bit_vector)
        requires
            x < 64,
    ;
}

/// Setting a bit sets that one alone.
pub proof fn lemma_bit_set(flags: u64, n: u32, x: u32)
    requires
        n < 64,
        x < 64,
    ensures
        has_bit(flags | (1u64 << (n as u64)), x) == (x == n || has_bit(flags, x)),
{
    lemma_bit(flags, x);
    lemma_bit(flags | (1u64 << (n as u64)), x);
    assert(((flags | (1u64 << (n as u64))) & (1u64 << x) != 0) == (x == n || flags & (1u64 << x)
        != 0)) by (bit_vector)
        requires
            n < 64,
            x < 64,
    ;
}

/// The Artifact of Truth can be made to be required of a room with 24 layers in which the showing
/// of progress starts, where an id is left. Then a layer is added with a relay in it, which shows
/// the progress; where the showing starts, that relay is told and the one that shows the progress
/// no longer; and all other objects stay. The new layer is active exactly if the item is the
/// Artifact of Truth, and the layer of another artifact if the item is that one.
pub proof fn law_truth_is_required(c: model::AreaView, kind: u32, fresh: u32, x: u32)
    requires
        rooms::is_sound(c),
        x < 64,
    ensures
        area::truth_required(c, kind, fresh) is Some <==> {
            &&& c.layers.len() == 24
            &&& fresh < u32::MAX
            &&& exists|i: int| #[trigger] is_at(c.layers, progress_start(), 1, i)
        },
        area::truth_required(c, kind, fresh) is Some ==> {
            let (d, id) = area::truth_required(c, kind, fresh)->0;
            &&& id == fresh + 1
            &&& d.layers.len() == 25
            &&& d.layer_count == 25
            &&& d.mrea_file_id == c.mrea_file_id
            &&& d.added_layers == c.added_layers.push("Randomizer - Got Artifact 1"@)
            &&& d.added_dependencies == c.added_dependencies
            &&& has_bit(d.flags, x) <==> if x == 24 {
                kind == 29
            } else {
                has_bit(c.flags, x) || (30 <= kind <= 40 && x == kind - 28)
            }
            &&& forall|l: int| 0 <= l < 24 ==> (#[trigger] d.layers[l]).len() == c.layers[l].len()
            &&& forall|l: int, i: int|
                0 <= l < 24 && 0 <= i < c.layers[l].len() ==> {
                    &&& (#[trigger] d.layers[l][i]).instance_id == c.layers[l][i].instance_id
                    &&& d.layers[l][i].property_data == c.layers[l][i].property_data
                    &&& d.layers[l][i].connections == if is_at(
                        c.layers,
                        progress_start(),
                        l,
                        i,
                    ) {
                        redirected_connections(c.layers[l][i].connections, fresh)
                    } else {
                        c.layers[l][i].connections
                    }
                }
            &&& d.layers[24] == seq![
                new_relay(
                    fresh,
                    seq![Connection { state: 9, message: 13, target_object_id: 1048869 }],
                    "Relay Show Progress1"@,
                ),
            ]
        },
{
    lemma_truth(c, kind, fresh);
    if area::truth_required(c, kind, fresh) is Some {
        let d = (area::truth_required(c, kind, fresh)->0).0;
        let flags = c.flags | (1u64 << 24u64);
        lemma_bit(d.flags, x);
        lemma_bit(flags, x);
        lemma_bit(flags, 24);
        lemma_bit_set(c.flags, 24, x);
        lemma_bit_set(c.flags, 24, 24);
        rooms::law_temple_layers(flags, kind, x);
    }
}

/// Keeping twice is keeping what both keep.
proof fn lemma_filter_twice<T>(s: Seq<T>, p: spec_fn(T) -> bool, q: spec_fn(T) -> bool)
    ensures
        s.filter(p).filter(q) == s.filter(|x: T| p(x) && q(x)),
    decreases s.len(),
{
    reveal(Seq::filter);
    if s.len() > 0 {
        let rest = s.drop_last();
        lemma_filter_twice(rest, p, q);
        if p(s.last()) {
            assert(s.filter(p).drop_last() =~= rest.filter(p));
            assert(s.filter(p).last() == s.last());
        }
    }
}

/// What is kept depends on the answers alone.
proof fn lemma_filter_same<T>(s: Seq<T>, p: spec_fn(T) -> bool, q: spec_fn(T) -> bool)
    requires
        forall|x: T| #[trigger] p(x) == q(x),
    ensures
        s.filter(p) == s.filter(q),
{
    assert(p =~= q);
}

/// The objects of a layer that are not to be removed, in their order.
pub open spec fn not_removed(
    layers: Seq<Seq<model::ObjectView>>,
    removals: Seq<tables::ObjectsToRemoveView>,
    l: int,
) -> Seq<model::ObjectView> {
    layers[l].filter(
        |o: model::ObjectView|
            !exists|k: int|
                0 <= k < removals.len() && (#[trigger] removals[k]).layer == l
                    && removals[k].instance_ids.contains(o.instance_id),
    )
}

/// Removing objects can be done exactly if every layer to remove from is there; then each layer is
/// left with the objects that are not to be removed, unchanged and in their order.
pub proof fn law_removal_leaves(
    layers: Seq<Seq<model::ObjectView>>,
    removals: Seq<tables::ObjectsToRemoveView>,
)
    ensures
        area::without_objects(layers, removals) is Some <==> forall|k: int|
            0 <= k < removals.len() ==> (#[trigger] removals[k]).layer < layers.len(),
        area::without_objects(layers, removals) is Some ==> {
            let left = area::without_objects(layers, removals)->0;
            &&& left.len() == layers.len()
            &&& forall|l: int|
                0 <= l < layers.len() ==> #[trigger] left[l] == not_removed(layers, removals, l)
        },
    decreases removals.len(),
{
    if removals.len() == 0 {
        assert forall|l: int| 0 <= l < layers.len() implies #[trigger] layers[l] == not_removed(
            layers,
            removals,
            l,
        ) by {
            let keep = |o: model::ObjectView|
                !exists|k: int|
                    0 <= k < removals.len() && (#[trigger] removals[k]).layer == l
                        && removals[k].instance_ids.contains(o.instance_id);
            lemma_filter_all(layers[l], keep);
        }
    } else {
        let first = removals[0];
        let rest = removals.drop_first();
        let drop = |o: model::ObjectView| !first.instance_ids.contains(o.instance_id);
        let now = layers.update(first.layer as int, layers[first.layer as int].filter(drop));
        law_removal_leaves(now, rest);
        assert(forall|k: int| 0 <= k < rest.len() ==> #[trigger] rest[k] == removals[k + 1]);
        assert forall|k: int| 0 < k < removals.len() implies #[trigger] removals[k] == rest[k
            - 1] by {}
        if first.layer < layers.len() {
            if area::without_objects(now, rest) is Some {
                assert forall|k: int| 0 <= k < removals.len() implies (
                #[trigger] removals[k]).layer < layers.len() by {
                    if k > 0 {
                        assert(rest[k - 1].layer < now.len());
                    }
                }
            } else {
                let k = choose|k: int|
                    0 <= k < rest.len() && (#[trigger] rest[k]).layer >= now.len();
                assert(removals[k + 1].layer >= layers.len());
            }
        } else {
            assert(removals[0].layer >= layers.len());
        }
        if area::without_objects(layers, removals) is Some {
            let left = area::without_objects(layers, removals)->0;
            assert forall|l: int| 0 <= l < layers.len() implies #[trigger] left[l]
                == not_removed(layers, removals, l) by {
                assert(left[l] == not_removed(now, rest, l));
                let later = |o: model::ObjectView|
                    !exists|k: int|
                        0 <= k < rest.len() && (#[trigger] rest[k]).layer == l
                            && rest[k].instance_ids.contains(o.instance_id);
                let all = |o: model::ObjectView|
                    !exists|k: int|
                        0 <= k < removals.len() && (#[trigger] removals[k]).layer == l
                            && removals[k].instance_ids.contains(o.instance_id);
                assert forall|o: model::ObjectView| #[trigger]
                    all(o) == (later(o) && (l == first.layer ==> drop(o))) by {
                    lemma_removed_first(removals, l, o.instance_id);
                }
                if l == first.layer {
                    lemma_filter_twice(layers[l], drop, later);
                    let both = |o: model::ObjectView| drop(o) && later(o);
                    lemma_filter_same(layers[l], both, all);
                } else {
                    lemma_filter_same(layers[l], later, all);
                }
            }
        }
    }
}

/// An id is to be removed by the first removal or by a later one.
proof fn lemma_removed_first(removals: Seq<tables::ObjectsToRemoveView>, l: int, id: u32)
    requires
        removals.len() > 0,
    ensures
        (exists|k: int|
            0 <= k < removals.len() && (#[trigger] removals[k]).layer == l
                && removals[k].instance_ids.contains(id)) <==> (removals[0].layer == l
            && removals[0].instance_ids.contains(id)) || (exists|k: int|
            0 <= k < removals.drop_first().len() && (#[trigger] removals.drop_first()[k]).layer
                == l && removals.drop_first()[k].instance_ids.contains(id)),
{
    let rest = removals.drop_first();
    if exists|k: int|
        0 <= k < removals.len() && (#[trigger] removals[k]).layer == l
            && removals[k].instance_ids.contains(id) {
        let k = choose|k: int|
            0 <= k < removals.len() && (#[trigger] removals[k]).layer == l
                && removals[k].instance_ids.contains(id);
        if k > 0 {
            assert(rest[k - 1] == removals[k]);
        }
    }
    if exists|k: int|
        0 <= k < rest.len() && (#[trigger] rest[k]).layer == l
            && rest[k].instance_ids.contains(id) {
        let k = choose|k: int|
            0 <= k < rest.len() && (#[trigger] rest[k]).layer == l
                && rest[k].instance_ids.contains(id);
        assert(removals[k + 1] == rest[k]);
    }
}

/// Keeping all keeps all.
proof fn lemma_filter_all<T>(s: Seq<T>, p: spec_fn(T) -> bool)
    requires
        forall|x: T| #[trigger] p(x),
    ensures
        s.filter(p) == s,
    decreases s.len(),
{
    reveal(Seq::filter);
    if s.len() > 0 {
        lemma_filter_all(s.drop_last(), p);
        assert(s.drop_last().push(s.last()) =~= s);
    }
}

/// An object belongs to a location.
pub open spec fn belongs(
    layers: Seq<Seq<model::ObjectView>>,
    place: tables::PickupLocationView,
    l: int,
    i: int,
) -> bool {
    ||| is_at(layers, place.location, l, i)
    ||| is_at(layers, place.hudmemo, l, i)
    ||| is_at(layers, place.attainment_audio, l, i)
}

/// An object belongs to at most one of the locations of a room.
pub proof fn lemma_belongs_once(
    layers: Seq<Seq<model::ObjectView>>,
    places: Seq<tables::PickupLocationView>,
    j: int,
    k: int,
    l: int,
    i: int,
)
    requires
        rooms::places_apart(places),
        0 <= j < places.len(),
        0 <= k < places.len(),
        belongs(layers, places[j], l, i),
        belongs(layers, places[k], l, i),
    ensures
        j == k,
{
    let at = ObjectLocation { layer: l as u32, instance_id: layers[l][i].instance_id };
    assert(rooms::belongs_to(places[j], at));
    assert(rooms::belongs_to(places[k], at));
}

} // verus!
