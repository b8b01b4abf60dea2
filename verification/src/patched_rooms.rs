//! What becomes of each object of a room when the items of all its locations are put there.

use vstd::prelude::*;
use crate::area;
use crate::model;
use crate::placing;
use crate::rooms;
use crate::tables;

verus! {

/// An object after the item of the location that it belongs to was put there. A pickup keeps what
/// it was connected to, and tells the added relay and, for an artifact, the added switch.
pub open spec fn is_given(
    layers: Seq<Seq<model::ObjectView>>,
    l: int,
    i: int,
    new: model::ObjectView,
    place: tables::PickupLocationView,
    location_idx: int,
    item: int,
    first: u32,
    t: tables::TablesView,
    skip_hudmenus: bool,
) -> bool {
    let old = layers[l][i];
    &&& new.instance_id == old.instance_id
    &&& new.connections == if placing::is_at(layers, place.location, l, i) {
        old.connections + placing::told_by_pickup(t.items[item].pickup.kind, first)
    } else {
        old.connections
    }
    &&& placing::property_after(
        layers,
        l,
        i,
        new.property_data,
        place,
        location_idx,
        item,
        t,
        skip_hudmenus,
    )
}

/// What one location does outside the Artifact Temple.
proof fn lemma_step(
    a: model::AreaView,
    places: Seq<tables::PickupLocationView>,
    k: int,
    items: Seq<usize>,
    next: int,
    fresh: u32,
    t: tables::TablesView,
    skip_hudmenus: bool,
    l: int,
    i: int,
)
    requires
        rooms::is_sound(a),
        a.mrea_file_id != t.ids.artifact_temple_mrea,
        t.wf(),
        skip_hudmenus ==> t.has_message_ids(),
        0 <= k < places.len(),
        area::with_locations(a, places, k, items, next, fresh, t, skip_hudmenus) is Some,
        0 <= l < a.layers.len(),
        0 <= i < a.layers[l].len(),
    ensures
        ({
            let item = items[next] as int;
            let step = area::with_location(
                a,
                places[k],
                next,
                item,
                places.len() == 1,
                fresh,
                t,
                skip_hudmenus,
            );
            let (b, id) = step->0;
            let n = a.layers.len() as int;
            let kind = t.items[item].pickup.kind;
            &&& next < items.len()
            &&& 0 <= item < t.items.len()
            &&& step is Some
            &&& rooms::is_sound(b)
            &&& b.mrea_file_id == a.mrea_file_id
            &&& b.layers.len() == n + 1
            &&& fresh <= id
            &&& rooms::same_ids(a.layers, b.layers, n)
            &&& b.layers[n] == placing::new_objects(places[k], kind, fresh)
            &&& is_given(
                a.layers,
                l,
                i,
                b.layers[l][i],
                places[k],
                next,
                item,
                fresh,
                t,
                skip_hudmenus,
            )
            &&& !placing::belongs(a.layers, places[k], l, i) ==> b.layers[l][i] == a.layers[l][i]
        }),
{
    let item = items[next] as int;
    let only = places.len() == 1;
    placing::law_location_changes(
        a,
        places[k],
        next,
        item,
        only,
        fresh,
        t,
        skip_hudmenus,
        l,
        i,
    );
    placing::law_location_additions(a, places[k], next, item, only, fresh, t, skip_hudmenus);
    rooms::law_location_adds(a, places[k], next, item, only, fresh, t, skip_hudmenus);
}

/// What the locations from the `k`-th on do to an object outside the Artifact Temple.
#[verifier::rlimit(60)]
proof fn lemma_rest(
    a: model::AreaView,
    places: Seq<tables::PickupLocationView>,
    k: int,
    items: Seq<usize>,
    next: int,
    fresh: u32,
    t: tables::TablesView,
    skip_hudmenus: bool,
    l: int,
    i: int,
    j: int,
)
    requires
        rooms::is_sound(a),
        a.mrea_file_id != t.ids.artifact_temple_mrea,
        t.wf(),
        skip_hudmenus ==> t.has_message_ids(),
        0 <= k <= places.len(),
        rooms::places_apart(places),
        area::with_locations(a, places, k, items, next, fresh, t, skip_hudmenus) is Some,
        0 <= l < a.layers.len(),
        0 <= i < a.layers[l].len(),
    ensures
        ({
            let b = (area::with_locations(
                a,
                places,
                k,
                items,
                next,
                fresh,
                t,
                skip_hudmenus,
            )->0).0;
            let n = a.layers.len() as int;
            &&& b.layers.len() == n + places.len() - k
            &&& b.layers[l].len() == a.layers[l].len()
            &&& b.layers[l][i].instance_id == a.layers[l][i].instance_id
            &&& (forall|x: int|
                k <= x < places.len() ==> !#[trigger] placing::belongs(
                    a.layers,
                    places[x],
                    l,
                    i,
                )) ==> b.layers[l][i] == a.layers[l][i]
            &&& k <= j < places.len() && placing::belongs(a.layers, places[j], l, i) ==> is_given(
                a.layers,
                l,
                i,
                b.layers[l][i],
                places[j],
                next + j - k,
                items[next + j - k] as int,
                b.layers[n + j - k][0].instance_id,
                t,
                skip_hudmenus,
            )
        }),
    decreases places.len() - k,
{
    if k < places.len() {
        let item = items[next] as int;
        let n = a.layers.len() as int;
        lemma_step(a, places, k, items, next, fresh, t, skip_hudmenus, l, i);
        let (b, id) = area::with_location(
            a,
            places[k],
            next,
            item,
            places.len() == 1,
            fresh,
            t,
            skip_hudmenus,
        )->0;
        let c = (area::with_locations(
            b,
            places,
            k + 1,
            items,
            next + 1,
            id,
            t,
            skip_hudmenus,
        )->0).0;
        assert forall|x: int| 0 <= x < places.len() implies #[trigger] placing::belongs(
            b.layers,
            places[x],
            l,
            i,
        ) == placing::belongs(a.layers, places[x], l, i) by {
            lemma_belongs_same(a.layers, b.layers, n, places[x], l, i);
        }
        assert forall|x: int|
            k + 1 <= x < places.len() && placing::belongs(a.layers, places[k], l, i) implies
            !#[trigger] placing::belongs(b.layers, places[x], l, i) by {
            if placing::belongs(a.layers, places[x], l, i) {
                placing::lemma_belongs_once(a.layers, places, k, x, l, i);
            }
        }
        lemma_rest(b, places, k + 1, items, next + 1, id, t, skip_hudmenus, l, i, j);
        lemma_rest(b, places, k + 1, items, next + 1, id, t, skip_hudmenus, n, 0, j);
        assert(b.layers[n][0].instance_id == fresh);
        if k <= j < places.len() && placing::belongs(a.layers, places[j], l, i) {
            if j == k {
                assert(c.layers[l][i] == b.layers[l][i]);
            } else {
                if placing::belongs(a.layers, places[k], l, i) {
                    placing::lemma_belongs_once(a.layers, places, k, j, l, i);
                }
                lemma_given_same(
                    a.layers,
                    b.layers,
                    n,
                    l,
                    i,
                    c.layers[l][i],
                    places[j],
                    next + j - k,
                    items[next + j - k] as int,
                    c.layers[n + j - k][0].instance_id,
                    t,
                    skip_hudmenus,
                );
            }
        }
        if forall|x: int|
            k <= x < places.len() ==> !#[trigger] placing::belongs(a.layers, places[x], l, i) {
            assert(!placing::belongs(a.layers, places[k], l, i));
            assert forall|x: int| k + 1 <= x < places.len() implies !#[trigger] placing::belongs(
                b.layers,
                places[x],
                l,
                i,
            ) by {
                assert(!placing::belongs(a.layers, places[x], l, i));
            }
        }
    }
}

/// Where ids stay, objects belong to the locations that they belonged to.
proof fn lemma_belongs_same(
    old_layers: Seq<Seq<model::ObjectView>>,
    new_layers: Seq<Seq<model::ObjectView>>,
    n: int,
    place: tables::PickupLocationView,
    l: int,
    i: int,
)
    requires
        rooms::same_ids(old_layers, new_layers, n),
        0 <= l < n,
    ensures
        placing::belongs(old_layers, place, l, i) == placing::belongs(new_layers, place, l, i),
        placing::is_at(old_layers, place.location, l, i) == placing::is_at(
            new_layers,
            place.location,
            l,
            i,
        ),
        placing::is_at(old_layers, place.hudmemo, l, i) == placing::is_at(
            new_layers,
            place.hudmemo,
            l,
            i,
        ),
        placing::is_at(old_layers, place.attainment_audio, l, i) == placing::is_at(
            new_layers,
            place.attainment_audio,
            l,
            i,
        ),
{
    placing::lemma_same_places(old_layers, new_layers, n, place.location, l, i);
    placing::lemma_same_places(old_layers, new_layers, n, place.hudmemo, l, i);
    placing::lemma_same_places(old_layers, new_layers, n, place.attainment_audio, l, i);
}

/// Where an object and all ids stay, what it is given stays.
proof fn lemma_given_same(
    old_layers: Seq<Seq<model::ObjectView>>,
    new_layers: Seq<Seq<model::ObjectView>>,
    n: int,
    l: int,
    i: int,
    new: model::ObjectView,
    place: tables::PickupLocationView,
    location_idx: int,
    item: int,
    first: u32,
    t: tables::TablesView,
    skip_hudmenus: bool,
)
    requires
        rooms::same_ids(old_layers, new_layers, n),
        0 <= l < n,
        0 <= i < old_layers[l].len(),
        new_layers[l][i] == old_layers[l][i],
        is_given(
            new_layers,
            l,
            i,
            new,
            place,
            location_idx,
            item,
            first,
            t,
            skip_hudmenus,
        ),
    ensures
        is_given(
            old_layers,
            l,
            i,
            new,
            place,
            location_idx,
            item,
            first,
            t,
            skip_hudmenus,
        ),
{
    lemma_belongs_same(old_layers, new_layers, n, place, l, i);
}

/// The layer that is added for the `j`-th location.
proof fn lemma_new_layer(
    a: model::AreaView,
    places: Seq<tables::PickupLocationView>,
    k: int,
    items: Seq<usize>,
    next: int,
    fresh: u32,
    t: tables::TablesView,
    skip_hudmenus: bool,
    j: int,
)
    requires
        rooms::is_sound(a),
        a.mrea_file_id != t.ids.artifact_temple_mrea,
        t.wf(),
        skip_hudmenus ==> t.has_message_ids(),
        0 <= k <= j < places.len(),
        rooms::places_apart(places),
        area::with_locations(a, places, k, items, next, fresh, t, skip_hudmenus) is Some,
    ensures
        ({
            let b = (area::with_locations(
                a,
                places,
                k,
                items,
                next,
                fresh,
                t,
                skip_hudmenus,
            )->0).0;
            let x = a.layers.len() + j - k;
            let kind = t.items[items[next + j - k] as int].pickup.kind;
            &&& b.layers.len() == a.layers.len() + places.len() - k
            &&& b.layers[x].len() > 0
            &&& fresh <= b.layers[x][0].instance_id
            &&& b.layers[x] == placing::new_objects(
                places[j],
                kind,
                b.layers[x][0].instance_id,
            )
        }),
    decreases places.len() - k,
{
    let item = items[next] as int;
    let n = a.layers.len() as int;
    let only = places.len() == 1;
    placing::law_location_additions(a, places[k], next, item, only, fresh, t, skip_hudmenus);
    let (b, id) = area::with_location(
        a,
        places[k],
        next,
        item,
        only,
        fresh,
        t,
        skip_hudmenus,
    )->0;
    let c = (area::with_locations(
        b,
        places,
        k + 1,
        items,
        next + 1,
        id,
        t,
        skip_hudmenus,
    )->0).0;
    if j > k {
        lemma_new_layer(b, places, k + 1, items, next + 1, id, t, skip_hudmenus, j);
    } else {
        let added = b.layers[n];
        assert forall|i: int| 0 <= i < added.len() implies c.layers[n][i] == #[trigger] added[i]
            by {
            assert(added[i].property_data is Relay || added[i].property_data is SpecialFunction);
            assert forall|x: int| k + 1 <= x < places.len() implies !#[trigger] placing::belongs(
                b.layers,
                places[x],
                n,
                i,
            ) by {
                if placing::belongs(b.layers, places[x], n, i) {
                    lemma_rest(b, places, k + 1, items, next + 1, id, t, skip_hudmenus, n, i, x);
                }
            }
            lemma_rest(b, places, k + 1, items, next + 1, id, t, skip_hudmenus, n, i, k);
        }
        lemma_rest(b, places, k + 1, items, next + 1, id, t, skip_hudmenus, n, 0, k);
        assert(c.layers[n] =~= added);
    }
}

/// The layers of a room without what is to be removed.
pub open spec fn left_layers(
    a: model::AreaView,
    room: tables::RoomInfoView,
) -> Seq<Seq<model::ObjectView>> {
    Seq::new(
        a.layers.len(),
        |l: int| placing::not_removed(a.layers, room.objects_to_remove, l),
    )
}

/// The room that the locations are patched in.
proof fn lemma_left(a: model::AreaView, room: tables::RoomInfoView)
    requires
        area::without_objects(a.layers, room.objects_to_remove) is Some,
    ensures
        area::without_objects(a.layers, room.objects_to_remove)->0 == left_layers(a, room),
{
    placing::law_removal_leaves(a.layers, room.objects_to_remove);
    assert(area::without_objects(a.layers, room.objects_to_remove)->0 =~= left_layers(a, room));
}

/// What becomes of each object that is left in a patched room, outside the Artifact Temple. An
/// object of a location is given the item of that location: what the pickup was connected to it
/// is still connected to, in the same order, and after that to the relay in the layer that was
/// added for the location and, for an artifact, to the switch in it. Any other object is
/// unchanged.
pub proof fn law_room_changes(
    a: model::AreaView,
    room: tables::RoomInfoView,
    items: Seq<usize>,
    next: int,
    fresh: u32,
    t: tables::TablesView,
    skip_hudmenus: bool,
    l: int,
    i: int,
    j: int,
)
    requires
        rooms::is_sound(a),
        a.mrea_file_id != t.ids.artifact_temple_mrea,
        t.wf(),
        skip_hudmenus ==> t.has_message_ids(),
        rooms::places_apart(room.pickup_locations),
        area::patched_area(a, room, items, next, fresh, t, skip_hudmenus) is Some,
        0 <= l < a.layers.len(),
        0 <= i < left_layers(a, room)[l].len(),
    ensures
        ({
            let b = (area::patched_area(a, room, items, next, fresh, t, skip_hudmenus)->0).0;
            let left = left_layers(a, room);
            let places = room.pickup_locations;
            let n = a.layers.len() as int;
            &&& b.layers.len() == n + places.len()
            &&& b.layers[l].len() == left[l].len()
            &&& (forall|x: int|
                0 <= x < places.len() ==> !#[trigger] placing::belongs(left, places[x], l, i))
                ==> b.layers[l][i] == left[l][i]
            &&& 0 <= j < places.len() && placing::belongs(left, places[j], l, i) ==> is_given(
                left,
                l,
                i,
                b.layers[l][i],
                places[j],
                next + j,
                items[next + j] as int,
                b.layers[n + j][0].instance_id,
                t,
                skip_hudmenus,
            )
        }),
{
    lemma_left(a, room);
    let now = model::AreaView { layers: left_layers(a, room), ..a };
    lemma_rest(
        now,
        room.pickup_locations,
        0,
        items,
        next,
        fresh,
        t,
        skip_hudmenus,
        l,
        i,
        j,
    );
}

/// The layer that is added to a room for its `j`-th location, outside the Artifact Temple: a relay
/// with the connections that the location asks for and, for an artifact, a switch, with ids that
/// follow.
pub proof fn law_room_additions(
    a: model::AreaView,
    room: tables::RoomInfoView,
    items: Seq<usize>,
    next: int,
    fresh: u32,
    t: tables::TablesView,
    skip_hudmenus: bool,
    j: int,
)
    requires
        rooms::is_sound(a),
        a.mrea_file_id != t.ids.artifact_temple_mrea,
        t.wf(),
        skip_hudmenus ==> t.has_message_ids(),
        rooms::places_apart(room.pickup_locations),
        area::patched_area(a, room, items, next, fresh, t, skip_hudmenus) is Some,
        0 <= j < room.pickup_locations.len(),
    ensures
        ({
            let b = (area::patched_area(a, room, items, next, fresh, t, skip_hudmenus)->0).0;
            let x = a.layers.len() + j;
            let kind = t.items[items[next + j] as int].pickup.kind;
            &&& x < b.layers.len()
            &&& b.layers[x].len() > 0
            &&& fresh <= b.layers[x][0].instance_id
            &&& b.layers[x] == placing::new_objects(
                room.pickup_locations[j],
                kind,
                b.layers[x][0].instance_id,
            )
        }),
{
    lemma_left(a, room);
    let now = model::AreaView { layers: left_layers(a, room), ..a };
    lemma_new_layer(
        now,
        room.pickup_locations,
        0,
        items,
        next,
        fresh,
        t,
        skip_hudmenus,
        j,
    );
}

/// What becomes of each object that is left in the Artifact Temple, which has one location: as in
/// other rooms, but that the relay which starts the showing of progress no longer tells the one
/// that shows it, and tells the added one instead, which in turn tells that one.
pub proof fn law_temple_changes(
    a: model::AreaView,
    room: tables::RoomInfoView,
    items: Seq<usize>,
    next: int,
    fresh: u32,
    t: tables::TablesView,
    skip_hudmenus: bool,
    l: int,
    i: int,
)
    requires
        rooms::is_sound(a),
        a.mrea_file_id == t.ids.artifact_temple_mrea,
        t.wf(),
        skip_hudmenus ==> t.has_message_ids(),
        room.pickup_locations.len() > 0,
        area::patched_area(a, room, items, next, fresh, t, skip_hudmenus) is Some,
        0 <= l < a.layers.len(),
        0 <= i < left_layers(a, room)[l].len(),
    ensures
        ({
            let b = (area::patched_area(a, room, items, next, fresh, t, skip_hudmenus)->0).0;
            let left = left_layers(a, room);
            let place = room.pickup_locations[0];
            let item = items[next] as int;
            let kind = t.items[item].pickup.kind;
            let new = b.layers[l][i];
            &&& room.pickup_locations.len() == 1
            &&& a.layers.len() == 23
            &&& b.layers.len() == 25
            &&& b.layers[l].len() == left[l].len()
            &&& new.instance_id == left[l][i].instance_id
            &&& new.connections == placing::connections_after(
                left,
                l,
                i,
                place,
                kind,
                true,
                fresh,
            )
            &&& placing::property_after(
                left,
                l,
                i,
                new.property_data,
                place,
                next,
                item,
                t,
                skip_hudmenus,
            )
            &&& b.layers[23] == placing::new_objects(place, kind, (fresh + 1) as u32)
            &&& b.layers[24] == seq![
                placing::new_relay(
                    fresh,
                    seq![model::Connection { state: 9, message: 13, target_object_id: 1048869 }],
                    "Relay Show Progress1"@,
                ),
            ]
        }),
{
    lemma_left(a, room);
    let now = model::AreaView { layers: left_layers(a, room), ..a };
    let places = room.pickup_locations;
    let item = items[next] as int;
    reveal_with_fuel(area::with_locations, 3);
    assert(area::with_location(
        now,
        places[0],
        next,
        item,
        places.len() == 1,
        fresh,
        t,
        skip_hudmenus,
    ) is Some);
    placing::law_location_succeeds(
        now,
        places[0],
        next,
        item,
        places.len() == 1,
        fresh,
        t,
        skip_hudmenus,
    );
    placing::law_location_changes(
        now,
        places[0],
        next,
        item,
        true,
        fresh,
        t,
        skip_hudmenus,
        l,
        i,
    );
    placing::law_location_additions(
        now,
        places[0],
        next,
        item,
        true,
        fresh,
        t,
        skip_hudmenus,
    );
}

} // verus!
