//! The fixed data that patching works from: items, rooms, and the ids of assets.

use vstd::prelude::*;
use crate::model;
use crate::model::{Connection, PickupModel, ResourceKey};
use crate::objects;
use crate::text;

verus! {

/// The number of worlds with pickups.
pub const WORLD_COUNT: usize = 5;

/// The least number of items: those that a layout can name, and the second look of a place
/// without an item.
pub const ITEM_COUNT: usize = 37;

/// The ids of assets that patching refers to.
#[derive(Clone, Copy, Debug)]
pub struct AssetIds {
    pub artifact_temple_mrea: u32,
    pub phazon_mines_savw: u32,
    pub phazon_suit_scan: u32,
    pub gravity_suit_cmdl: u32,
    pub gravity_suit_ancs: u32,
    pub phazon_suit_cmdl: u32,
    pub phazon_suit_ancs: u32,
    pub phazon_suit_txtr1: u32,
    pub phazon_suit_txtr2: u32,
    pub skip_hudmemo_strg_start: u32,
    pub skip_hudmemo_strg_end: u32,
}

/// An item.
#[derive(Debug)]
pub struct PickupMeta {
    pub name: String,
    /// The bytes of the name that the item's pickup object carries.
    pub pickup_name: Vec<u8>,
    pub pickup: PickupModel,
    pub deps: Vec<ResourceKey>,
    pub hudmemo_strg: u32,
    pub attainment_audio_file_name: String,
}

/// An item.
pub ghost struct PickupMetaView {
    pub name: Seq<char>,
    pub pickup_name: Seq<u8>,
    pub pickup: PickupModel,
    pub deps: Seq<ResourceKey>,
    pub hudmemo_strg: u32,
    pub attainment_audio_file_name: Seq<char>,
}

impl View for PickupMeta {
    type V = PickupMetaView;

    open spec fn view(&self) -> PickupMetaView {
        PickupMetaView {
            name: self.name@,
            pickup_name: self.pickup_name@,
            pickup: self.pickup,
            deps: self.deps@,
            hudmemo_strg: self.hudmemo_strg,
            attainment_audio_file_name: self.attainment_audio_file_name@,
        }
    }
}

/// Where an object stands in a room.
#[derive(Clone, Copy, PartialEq, Eq, Structural, Debug)]
pub struct ObjectLocation {
    pub layer: u32,
    pub instance_id: u32,
}

/// A place that holds a pickup.
#[derive(Debug)]
pub struct PickupLocation {
    pub location: ObjectLocation,
    pub attainment_audio: ObjectLocation,
    pub hudmemo: ObjectLocation,
    pub post_pickup_relay_connections: Vec<Connection>,
}

/// A place that holds a pickup.
pub ghost struct PickupLocationView {
    pub location: ObjectLocation,
    pub attainment_audio: ObjectLocation,
    pub hudmemo: ObjectLocation,
    pub post_pickup_relay_connections: Seq<Connection>,
}

impl View for PickupLocation {
    type V = PickupLocationView;

    open spec fn view(&self) -> PickupLocationView {
        PickupLocationView {
            location: self.location,
            attainment_audio: self.attainment_audio,
            hudmemo: self.hudmemo,
            post_pickup_relay_connections: self.post_pickup_relay_connections@,
        }
    }
}

/// Objects of a layer that a patched room does without.
#[derive(Debug)]
pub struct ObjectsToRemove {
    pub layer: u32,
    pub instance_ids: Vec<u32>,
}

/// Objects of a layer that a patched room does without.
pub ghost struct ObjectsToRemoveView {
    pub layer: u32,
    pub instance_ids: Seq<u32>,
}

impl View for ObjectsToRemove {
    type V = ObjectsToRemoveView;

    open spec fn view(&self) -> ObjectsToRemoveView {
        ObjectsToRemoveView { layer: self.layer, instance_ids: self.instance_ids@ }
    }
}

/// A room with pickups.
#[derive(Debug)]
pub struct RoomInfo {
    pub room_id: u32,
    pub name: String,
    pub pickup_locations: Vec<PickupLocation>,
    pub objects_to_remove: Vec<ObjectsToRemove>,
}

/// A room with pickups.
pub ghost struct RoomInfoView {
    pub room_id: u32,
    pub name: Seq<char>,
    pub pickup_locations: Seq<PickupLocationView>,
    pub objects_to_remove: Seq<ObjectsToRemoveView>,
}

impl View for RoomInfo {
    type V = RoomInfoView;

    open spec fn view(&self) -> RoomInfoView {
        RoomInfoView {
            room_id: self.room_id,
            name: self.name@,
            pickup_locations: model::views(self.pickup_locations@),
            objects_to_remove: model::views(self.objects_to_remove@),
        }
    }
}

/// All fixed data.
#[derive(Debug)]
pub struct Tables {
    pub ids: AssetIds,
    pub items: Vec<PickupMeta>,
    /// The rooms with pickups, world by world, in the order of the locations of a layout.
    pub rooms: Vec<Vec<RoomInfo>>,
    /// The resources that the caller supplies itself.
    pub extra_assets: Vec<ResourceKey>,
}

/// All fixed data.
pub ghost struct TablesView {
    pub ids: AssetIds,
    pub items: Seq<PickupMetaView>,
    pub rooms: Seq<Seq<RoomInfoView>>,
    pub extra_assets: Seq<ResourceKey>,
}

impl View for Tables {
    type V = TablesView;

    open spec fn view(&self) -> TablesView {
        TablesView {
            ids: self.ids,
            items: model::views(self.items@),
            rooms: self.rooms@.map_values(|rooms: Vec<RoomInfo>| model::views(rooms@)),
            extra_assets: self.extra_assets@,
        }
    }
}

impl TablesView {
    /// The tables fit together: there are enough items, one list of rooms per world, well-formed
    /// sound names, and no resource twice.
    pub open spec fn wf(self) -> bool {
        &&& self.items.len() >= ITEM_COUNT
        &&& self.rooms.len() == WORLD_COUNT
        &&& forall|i: int|
            0 <= i < self.items.len() ==> objects::is_nul_terminated(
                (#[trigger] self.items[i]).attainment_audio_file_name,
            )
        &&& self.extra_assets.no_duplicates()
    }

    /// There is an id for a message of each item that does not interrupt.
    pub open spec fn has_message_ids(self) -> bool {
        self.ids.skip_hudmemo_strg_start + self.items.len() <= self.ids.skip_hudmemo_strg_end
    }
}

/// The id of the text that says without interruption which item was acquired.
pub open spec fn skip_hudmemo_id(ids: AssetIds, item: int) -> u32 {
    (ids.skip_hudmemo_strg_start + item) as u32
}

/// Looks up the id of the text that says without interruption which item was acquired.
pub fn skip_hudmemos_strg_id(ids: &AssetIds, item: usize) -> (r: u32)
    requires
        ids.skip_hudmemo_strg_start + item < ids.skip_hudmemo_strg_end,
    ensures
        r == skip_hudmemo_id(*ids, item as int),
{
    ids.skip_hudmemo_strg_start + item as u32
}

/// Whether a text ends in a NUL and holds no other.
fn check_nul_terminated(name: &String) -> (r: bool)
    ensures
        r == objects::is_nul_terminated(name@),
{
    let chars = text::chars_of(name.as_str());
    if chars.len() == 0 || chars[chars.len() - 1] != '\0' {
        return false;
    }
    for i in 0..chars.len() - 1
        invariant
            chars@ == name@,
            chars.len() > 0,
            forall|j: int| 0 <= j < i ==> chars@[j] != '\0',
    {
        if chars[i] == '\0' {
            assert(name@.drop_last()[i as int] == '\0');
            return false;
        }
    }
    true
}

impl Tables {
    /// Checks that there is an id for a message of each item that does not interrupt.
    pub fn check_message_ids(&self) -> (r: bool)
        ensures
            r == self@.has_message_ids(),
    {
        if self.ids.skip_hudmemo_strg_start > self.ids.skip_hudmemo_strg_end {
            return false;
        }
        let available = self.ids.skip_hudmemo_strg_end - self.ids.skip_hudmemo_strg_start;
        self.items.len() as u64 <= available as u64
    }

    /// Checks that the tables fit together.
    pub fn check(&self) -> (r: bool)
        ensures
            r == self@.wf(),
    {
        if self.items.len() < ITEM_COUNT || self.rooms.len() != WORLD_COUNT {
            return false;
        }
        for i in 0..self.items.len()
            invariant
                forall|j: int|
                    0 <= j < i ==> objects::is_nul_terminated(
                        (#[trigger] self@.items[j]).attainment_audio_file_name,
                    ),
        {
            assert(self@.items[i as int] == self.items@[i as int]@);
            if !check_nul_terminated(&self.items[i].attainment_audio_file_name) {
                return false;
            }
        }
        for i in 0..self.extra_assets.len()
            invariant
                forall|a: int, b: int|
                    0 <= a < i && 0 <= b < self.extra_assets.len() && a != b
                        ==> self.extra_assets@[a] != self.extra_assets@[b],
        {
            for j in 0..self.extra_assets.len()
                invariant
                    i < self.extra_assets.len(),
                    forall|b: int|
                        0 <= b < j && i != b ==> self.extra_assets@[i as int]
                            != self.extra_assets@[b],
            {
                if i != j && self.extra_assets[i] == self.extra_assets[j] {
                    return false;
                }
            }
        }
        true
    }
}

} // verus!
