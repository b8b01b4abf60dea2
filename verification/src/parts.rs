//! What the smaller steps of patching do, each on its own.

use vstd::prelude::*;
use vstd::arithmetic::div_mod::*;
use vstd::arithmetic::power2::*;
use crate::area;
use crate::model;
use crate::model::{
    Area, Connection, FileContent, FstEntry, Pickup, PickupModel, Resource, ResourceKey,
    ResourceKind, SclyLayer, SclyObject, SclyProperty, SpecialFunction, StrgStringTable,
};
use crate::objects;
use crate::patch;
use crate::patch::PatchError;
use crate::placing;
use crate::resources;
use crate::resources::ResourceSource;
use crate::starting_items;
use crate::tables;
use crate::tables::{PickupLocation, PickupMeta, RoomInfo, Tables};

verus! {

/// What is seen of an object is all that it holds.
pub proof fn law_object_is_seen(object: SclyObject, pickup: Pickup, function: SpecialFunction)
    ensures
        object@.instance_id == object.instance_id,
        object@.connections == object.connections@,
        match (object.property_data, object@.property_data) {
            (SclyProperty::SpecialFunction(f), model::PropertyView::SpecialFunction(v)) => v == f@,
            (
                SclyProperty::Relay { name, active },
                model::PropertyView::Relay { name: shown, active: on },
            ) => shown == name@ && on == active,
            (SclyProperty::Pickup(p), model::PropertyView::Pickup(v)) => v == p@,
            (SclyProperty::HudMemo(m), model::PropertyView::HudMemo(v)) => v == m,
            (
                SclyProperty::StreamedAudio { audio_file_name, others },
                model::PropertyView::StreamedAudio { audio_file_name: shown, others: rest },
            ) => shown == audio_file_name@ && rest == others,
            (SclyProperty::SpawnPoint(s), model::PropertyView::SpawnPoint(v)) => v == s,
            (SclyProperty::Other(i), model::PropertyView::Other(v)) => v == i,
            _ => false,
        },
        pickup@.position == pickup.position,
        pickup@.hitbox == pickup.hitbox,
        pickup@.scan_offset == pickup.scan_offset,
        pickup@.shifts == pickup.shifts@,
        pickup@.fade_in_timer == pickup.fade_in_timer,
        pickup@.unknown == pickup.unknown,
        pickup@.active == pickup.active,
        pickup@.model == pickup.model,
        function@.name == function.name@,
        function@.position == function.position,
        function@.rotation == function.rotation,
        function@.type_ == function.type_,
        function@.unknown0 == function.unknown0@,
        function@.unknown1 == function.unknown1,
        function@.unknown2 == function.unknown2,
        function@.unknown3 == function.unknown3,
        function@.layer_change_room_id == function.layer_change_room_id,
        function@.layer_change_layer_id == function.layer_change_layer_id,
        function@.item_id == function.item_id,
        function@.unknown4 == function.unknown4,
        function@.unknown5 == function.unknown5,
        function@.unknown6 == function.unknown6,
        function@.unknown7 == function.unknown7,
        function@.unknown8 == function.unknown8,
{
}

/// What is seen of a room is all that it holds, in its order.
pub proof fn law_area_is_seen(area: Area, layer: SclyLayer, i: int)
    ensures
        area@.mrea_file_id == area.mrea_file_id,
        area@.layer_count == area.layer_count,
        area@.flags == area.flags,
        area@.layers.len() == area.layers@.len(),
        0 <= i < area.layers@.len() ==> area@.layers[i] == area.layers@[i]@,
        layer@.len() == layer.objects@.len(),
        0 <= i < layer.objects@.len() ==> layer@[i] == layer.objects@[i]@,
        area@.added_layers.len() == area.added_layers@.len(),
        0 <= i < area.added_layers@.len() ==> area@.added_layers[i] == area.added_layers@[i]@,
        area@.added_dependencies.len() == area.added_dependencies@.len(),
        0 <= i < area.added_dependencies@.len() ==> {
            &&& area@.added_dependencies[i].layer == area.added_dependencies@[i].layer
            &&& area@.added_dependencies[i].deps == area.added_dependencies@[i].deps@
        },
{
}

/// What is seen of a file is all that it holds, in its order.
pub proof fn law_file_is_seen(
    entry: FstEntry,
    resource: Resource,
    table: StrgStringTable,
    i: int,
)
    ensures
        entry@.name == entry.name@,
        match (entry.file, entry@.file) {
            (None, None) => true,
            (Some(content), Some(shown)) => match (content, shown) {
                (FileContent::Pak(p), model::FileView::Pak(v)) => {
                    &&& v.len() == p.resources@.len()
                    &&& 0 <= i < v.len() ==> v[i] == p.resources@[i]@
                },
                (FileContent::Raw(b), model::FileView::Raw(v)) => v == b@,
                (FileContent::External(b), model::FileView::External(v)) => v == b@,
                (FileContent::AttractMode, model::FileView::AttractMode) => true,
                (FileContent::Other(n), model::FileView::Other(v)) => v == n,
                _ => false,
            },
            _ => false,
        },
        resource@.key == resource.key,
        match (resource.kind, resource@.kind) {
            (ResourceKind::Mrea(a), model::ResourceKindView::Mrea(v)) => v == a@,
            (ResourceKind::Savw(s), model::ResourceKindView::Savw(v)) => v == s@,
            (ResourceKind::Strg(s), model::ResourceKindView::Strg(v)) => {
                &&& v.len() == s@.len()
                &&& 0 <= i < v.len() ==> v[i] == s@[i]@
            },
            (ResourceKind::Other(n), model::ResourceKindView::Other(v)) => v == n,
            _ => false,
        },
        table@.lang == table.lang,
        table@.strings.len() == table.strings@.len(),
        0 <= i < table.strings@.len() ==> table@.strings[i] == table.strings@[i]@,
{
}

/// What is seen of the tables is all that they hold, in its order.
pub proof fn law_tables_are_seen(
    t: Tables,
    room: RoomInfo,
    place: PickupLocation,
    item: PickupMeta,
    i: int,
    w: int,
)
    ensures
        t@.ids == t.ids,
        t@.items.len() == t.items@.len(),
        0 <= i < t.items@.len() ==> t@.items[i] == t.items@[i]@,
        t@.rooms.len() == t.rooms@.len(),
        0 <= w < t.rooms@.len() ==> {
            &&& t@.rooms[w].len() == t.rooms@[w]@.len()
            &&& 0 <= i < t.rooms@[w]@.len() ==> t@.rooms[w][i] == t.rooms@[w]@[i]@
        },
        t@.extra_assets == t.extra_assets@,
        room@.room_id == room.room_id,
        room@.name == room.name@,
        room@.pickup_locations.len() == room.pickup_locations@.len(),
        0 <= i < room.pickup_locations@.len() ==> room@.pickup_locations[i]
            == room.pickup_locations@[i]@,
        room@.objects_to_remove.len() == room.objects_to_remove@.len(),
        0 <= i < room.objects_to_remove@.len() ==> {
            &&& room@.objects_to_remove[i].layer == room.objects_to_remove@[i].layer
            &&& room@.objects_to_remove[i].instance_ids
                == room.objects_to_remove@[i].instance_ids@
        },
        place@.location == place.location,
        place@.attainment_audio == place.attainment_audio,
        place@.hudmemo == place.hudmemo,
        place@.post_pickup_relay_connections == place.post_pickup_relay_connections@,
        item@.name == item.name@,
        item@.pickup_name == item.pickup_name@,
        item@.pickup == item.pickup,
        item@.deps == item.deps@,
        item@.hudmemo_strg == item.hudmemo_strg,
        item@.attainment_audio_file_name == item.attainment_audio_file_name@,
{
}

/// Tables fit together exactly if they have at least 37 items, the rooms of five worlds, sounds
/// whose names end in the one zero that they hold, and no extra resource twice. There are messages
/// for all items exactly if the ids for them do not run out; an item's is as far from the first as
/// the item.
pub proof fn law_tables_fit(t: tables::TablesView, item: int)
    ensures
        t.wf() <==> {
            &&& t.items.len() >= 37
            &&& t.rooms.len() == 5
            &&& forall|i: int|
                0 <= i < t.items.len() ==> ends_in_its_zero(
                    (#[trigger] t.items[i]).attainment_audio_file_name,
                )
            &&& forall|i: int, j: int|
                0 <= i < j < t.extra_assets.len() ==> #[trigger] t.extra_assets[i]
                    != #[trigger] t.extra_assets[j]
        },
        t.has_message_ids() <==> t.ids.skip_hudmemo_strg_end - t.ids.skip_hudmemo_strg_start
            >= t.items.len(),
        0 <= item && t.ids.skip_hudmemo_strg_start + item <= 0xFFFF_FFFF
            ==> tables::skip_hudmemo_id(t.ids, item) == t.ids.skip_hudmemo_strg_start + item,
{
    assert forall|i: int| 0 <= i < t.items.len() implies objects::is_nul_terminated(
        (#[trigger] t.items[i]).attainment_audio_file_name,
    ) == ends_in_its_zero(t.items[i].attainment_audio_file_name) by {
        let name = t.items[i].attainment_audio_file_name;
        let front = name.drop_last();
        if name.len() > 0 {
            assert(forall|k: int| 0 <= k < front.len() ==> #[trigger] front[k] == name[k]);
            if front.contains('\0') {
                let k = front.index_of('\0');
                assert(name[k] == '\0');
            }
            if ends_in_its_zero(name) {
                assert(name[name.len() - 1] == '\0');
            }
            if !front.contains('\0') {
                assert forall|k: int| 0 <= k < name.len() - 1 implies #[trigger] name[k]
                    != '\0' by {
                    assert(front[k] == name[k]);
                }
            }
        }
    }
    if t.extra_assets.no_duplicates() {
        assert forall|i: int, j: int|
            0 <= i < j < t.extra_assets.len() implies #[trigger] t.extra_assets[i]
            != #[trigger] t.extra_assets[j] by {}
    }
}

/// A text has exactly one zero, at its end.
pub open spec fn ends_in_its_zero(text: Seq<char>) -> bool {
    &&& text.len() > 0
    &&& forall|i: int|
        0 <= i < text.len() ==> (#[trigger] text[i] == '\0' <==> i == text.len() - 1)
}

/// A map of sources holds a source under the number of a key, which is its file id and then its
/// type, exactly if there is one for the key.
pub proof fn law_sources_are_found(
    map: Map<u64, ResourceSource>,
    source: spec_fn(ResourceKey) -> Option<ResourceSource>,
    key: ResourceKey,
    other: ResourceKey,
)
    requires
        resources::holds(map, source),
    ensures
        key.code_spec() == key.file_id * 0x1_0000_0000 + key.fourcc,
        key.code_spec() == other.code_spec() ==> key == other,
        source(key) == if map.contains_key(key.code_spec()) {
            Some(map[key.code_spec()])
        } else {
            None
        },
{
    assert(key.file_id * 0x1_0000_0000 + key.fourcc <= u64::MAX);
    assert(other.file_id * 0x1_0000_0000 + other.fourcc <= u64::MAX);
}

/// A place without an item, which is 35 in a layout, can look in one of two ways; any other item is
/// put there as it is, however the coin falls.
pub proof fn law_item_is_chosen(entry: u8, second_look: bool)
    ensures
        patch::item_at(entry, false) == entry,
        entry != 35 ==> patch::item_at(entry, second_look) == entry,
        entry == 35 ==> patch::item_at(entry, true) == 36,
{
}

/// The messages for the two errors.
pub proof fn law_errors_are_told(error: PatchError)
    ensures
        error.text() == if error is WrongGame {
            "The input ISO doesn't appear to be Metroid Prime."@
        } else {
            "An error occurred while parsing the input ISO. This most likely means your ISO is corrupt. Please verify that your ISO matches one of the following hashes:\nMD5:  737cbfe7230af3df047323a3185d7e57\nSHA1: 1c8b27af7eed2d52e7f038ae41bb682c4f9d09b5\n"@
        },
{
}

/// A room can have 64 layers. A layer that is added is the last, holds nothing, and is active; all
/// else of the room stays.
pub proof fn law_layer_is_added(a: model::AreaView, name: Seq<char>, x: u32)
    requires
        x < 64,
    ensures
        area::with_layer(a, name) is Some <==> a.layer_count < 64,
        area::with_layer(a, name) is Some ==> {
            let b = area::with_layer(a, name)->0;
            let n = a.layers.len() as int;
            &&& b.layer_count == a.layer_count + 1
            &&& placing::has_bit(b.flags, x) == (x == a.layer_count || placing::has_bit(
                a.flags,
                x,
            ))
            &&& b.layers.len() == n + 1
            &&& forall|l: int| 0 <= l < n ==> #[trigger] b.layers[l] == a.layers[l]
            &&& b.layers[n].len() == 0
            &&& b.added_layers.len() == a.added_layers.len() + 1
            &&& b.added_layers.drop_last() == a.added_layers
            &&& b.added_layers.last() == name
            &&& b.mrea_file_id == a.mrea_file_id
            &&& b.added_dependencies == a.added_dependencies
        },
{
    if a.layer_count < 64 {
        let b = area::with_layer(a, name)->0;
        assert(b.added_layers.drop_last() =~= a.added_layers);
        placing::lemma_bit_set(a.flags, a.layer_count, x);
    }
}

/// An object that is added to a layer of a room is the last of it; all else of the room stays.
pub proof fn law_object_is_added(a: model::AreaView, layer: int, object: model::ObjectView)
    ensures
        area::with_object(a, layer, object) is Some <==> 0 <= layer < a.layers.len(),
        area::with_object(a, layer, object) is Some ==> {
            let b = area::with_object(a, layer, object)->0;
            &&& b.layers.len() == a.layers.len()
            &&& b.layers[layer].len() == a.layers[layer].len() + 1
            &&& b.layers[layer].last() == object
            &&& b.layers[layer].drop_last() == a.layers[layer]
            &&& forall|l: int|
                0 <= l < a.layers.len() && l != layer ==> #[trigger] b.layers[l] == a.layers[l]
            &&& b.mrea_file_id == a.mrea_file_id
            &&& b.layer_count == a.layer_count
            &&& b.flags == a.flags
            &&& b.added_layers == a.added_layers
            &&& b.added_dependencies == a.added_dependencies
        },
{
    if 0 <= layer < a.layers.len() {
        let b = area::with_object(a, layer, object)->0;
        assert(b.layers[layer].drop_last() =~= a.layers[layer]);
    }
}

/// What the objects that are added hold.
pub proof fn law_objects_are_made(id: u32, kind: u32, connections: Seq<Connection>)
    requires
        kind >= 29,
    ensures
        objects::artifact_layer_change(id, kind) == placing::new_layer_switch(id, kind),
        objects::post_pickup_relay(id, connections) == placing::new_relay(
            id,
            connections,
            "Randomizer Post Pickup Relay"@,
        ),
{
}

/// A pickup takes another item, a message another text and a sound another file, each only if it is
/// one; the id and the connections of the object stay.
pub proof fn law_objects_are_updated(
    object: model::ObjectView,
    item: PickupModel,
    own_strg: u32,
    brief_strg: u32,
    location_idx: int,
    skip_hudmenus: bool,
    file_name: Seq<char>,
)
    ensures
        match objects::with_pickup_updated(object, item) {
            Some(o) => {
                &&& o.instance_id == object.instance_id
                &&& o.connections == object.connections
                &&& placing::holds_instead(object.property_data, o.property_data, item)
            },
            None => !(object.property_data is Pickup),
        },
        match objects::with_hudmemo_updated(
            object,
            own_strg,
            brief_strg,
            location_idx,
            skip_hudmenus,
        ) {
            Some(o) => {
                &&& o.instance_id == object.instance_id
                &&& o.connections == object.connections
                &&& placing::says_instead(
                    object.property_data,
                    o.property_data,
                    own_strg,
                    brief_strg as int,
                    location_idx,
                    skip_hudmenus,
                )
            },
            None => !(object.property_data is HudMemo),
        },
        ends_in_its_zero(file_name) ==> match objects::with_audio_updated(object, file_name) {
            Some(o) => {
                &&& o.instance_id == object.instance_id
                &&& o.connections == object.connections
                &&& placing::plays_instead(object.property_data, o.property_data, file_name)
            },
            None => !(object.property_data is StreamedAudio),
        },
{
    if ends_in_its_zero(file_name) {
        assert(file_name[file_name.len() - 1] == '\0');
        assert(file_name.drop_last().push('\0') =~= file_name);
    }
}

/// A field of a number lies between its lower and its higher binary digits.
pub proof fn law_field_is_cut_out(items: u64, offset: nat, width: nat) -> (parts: (int, int))
    requires
        width <= 32,
    ensures
        0 <= parts.0 < pow2(offset),
        0 <= parts.1,
        starting_items::bit_field(items, offset, width) < pow2(width),
        items == parts.0 + pow2(offset) * (starting_items::bit_field(items, offset, width)
            + pow2(width) * parts.1),
{
    let n = items as int;
    let p = pow2(offset) as int;
    let q = pow2(width) as int;
    lemma_pow2_pos(offset);
    lemma_pow2_pos(width);
    lemma2_to64();
    if width < 32 {
        lemma_pow2_strictly_increases(width, 32);
    }
    lemma_fundamental_div_mod(n, p);
    lemma_fundamental_div_mod(n / p, q);
    lemma_mod_bound(n, p);
    lemma_mod_bound(n / p, q);
    lemma_div_pos_is_pos(n, p);
    lemma_div_pos_is_pos(n / p, q);
    (n % p, (n / p) / q)
}

} // verus!
