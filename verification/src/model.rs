//! The parts of a disc that patching reads or changes, as plain values.
//!
//! Floating-point numbers appear as their IEEE 754 bit patterns. Records whose other fields
//! patching only carries along name them by an index into a table that the caller keeps.

use vstd::prelude::*;

verus! {

/// A four-character code, its first character in the highest byte.
pub type FourCC = u32;

/// `MLVL`, the description of a world.
pub const MLVL: FourCC = 0x4D4C564C;

/// `MREA`, a room.
pub const MREA: FourCC = 0x4D524541;

/// `SAVW`, what a save file remembers of a world.
pub const SAVW: FourCC = 0x53415657;

/// `STRG`, a table of texts.
pub const STRG: FourCC = 0x53545247;

/// `CMDL`, a model.
pub const CMDL: FourCC = 0x434D444C;

/// `ANCS`, an animated character.
pub const ANCS: FourCC = 0x414E4353;

/// `ENGL`, the language code of English.
pub const ENGL: FourCC = 0x454E474C;

/// The views of the elements of a sequence.
pub open spec fn views<T: View>(s: Seq<T>) -> Seq<T::V> {
    s.map_values(|t: T| t@)
}

/// What a resource is found by.
#[derive(Clone, Copy, PartialEq, Eq, Structural, Debug)]
pub struct ResourceKey {
    pub file_id: u32,
    pub fourcc: FourCC,
}

impl ResourceKey {
    /// The key as one number.
    pub open spec fn code_spec(self) -> u64 {
        (self.file_id * 0x1_0000_0000 + self.fourcc) as u64
    }

    /// The key as one number, by which maps are keyed.
    pub fn code(&self) -> (r: u64)
        ensures
            r == self.code_spec(),
    {
        (self.file_id as u64) * 0x1_0000_0000 + self.fourcc as u64
    }
}

/// Different keys have different numbers.
pub proof fn lemma_code_injective(a: ResourceKey, b: ResourceKey)
    requires
        a.code_spec() == b.code_spec(),
    ensures
        a == b,
{
}

/// Three floating-point numbers.
#[derive(Clone, Copy, PartialEq, Eq, Structural, Debug)]
pub struct Vector3 {
    pub x: u32,
    pub y: u32,
    pub z: u32,
}

/// A message that one object sends to another when it enters a state.
#[derive(Clone, Copy, PartialEq, Eq, Structural, Debug)]
pub struct Connection {
    pub state: u32,
    pub message: u32,
    pub target_object_id: u32,
}

/// What the centre of a placed model depends on.
#[derive(Clone, Copy, PartialEq, Eq, Structural, Debug)]
pub struct Shape {
    pub cmdl: u32,
    pub rotation: Vector3,
    pub scale: Vector3,
}

/// A change of model. The position of the pickup moves by the centre of `from` less the centre of
/// `to`, its scan offset the other way, so that the new model is centred where the old one was.
#[derive(Clone, Copy, PartialEq, Eq, Structural, Debug)]
pub struct Shift {
    pub from: Shape,
    pub to: Shape,
}

/// The part of a pickup that goes with the item.
#[derive(Clone, Copy, PartialEq, Eq, Structural, Debug)]
pub struct PickupModel {
    pub shape: Shape,
    pub kind: u32,
    /// The record that supplies the other fields of the item.
    pub others: usize,
}

/// A pickup in a room.
#[derive(Debug)]
pub struct Pickup {
    pub position: Vector3,
    pub hitbox: Vector3,
    pub scan_offset: Vector3,
    /// Changes of model that `position` and `scan_offset` have yet to follow, oldest first.
    pub shifts: Vec<Shift>,
    pub fade_in_timer: u32,
    pub unknown: u32,
    pub active: u32,
    pub model: PickupModel,
}

/// A pickup in a room.
pub ghost struct PickupView {
    pub position: Vector3,
    pub hitbox: Vector3,
    pub scan_offset: Vector3,
    pub shifts: Seq<Shift>,
    pub fade_in_timer: u32,
    pub unknown: u32,
    pub active: u32,
    pub model: PickupModel,
}

impl View for Pickup {
    type V = PickupView;

    open spec fn view(&self) -> PickupView {
        PickupView {
            position: self.position,
            hitbox: self.hitbox,
            scan_offset: self.scan_offset,
            shifts: self.shifts@,
            fade_in_timer: self.fade_in_timer,
            unknown: self.unknown,
            active: self.active,
            model: self.model,
        }
    }
}

/// A message on the screen.
#[derive(Clone, Copy, PartialEq, Eq, Structural, Debug)]
pub struct HudMemo {
    pub first_message_timer: u32,
    pub memo_type: u32,
    pub strg: u32,
    pub others: usize,
}

/// What a new game starts with.
#[derive(Clone, Copy, PartialEq, Eq, Structural, Debug)]
pub struct SpawnPoint {
    pub missiles: u32,
    pub energy_tanks: u32,
    pub power_bombs: u32,
    pub wave: u32,
    pub ice: u32,
    pub plasma: u32,
    pub charge: u32,
    pub morph_ball: u32,
    pub bombs: u32,
    pub spider_ball: u32,
    pub boost_ball: u32,
    pub gravity_suit: u32,
    pub phazon_suit: u32,
    pub thermal_visor: u32,
    pub xray: u32,
    pub space_jump: u32,
    pub grapple: u32,
    pub super_missile: u32,
    pub others: usize,
}

/// A function object. Its names hold no NUL.
#[derive(Debug)]
pub struct SpecialFunction {
    pub name: String,
    pub position: Vector3,
    pub rotation: Vector3,
    pub type_: u32,
    pub unknown0: String,
    pub unknown1: u32,
    pub unknown2: u32,
    pub unknown3: u32,
    pub layer_change_room_id: u32,
    pub layer_change_layer_id: u32,
    pub item_id: u32,
    pub unknown4: u32,
    pub unknown5: u32,
    pub unknown6: u32,
    pub unknown7: u32,
    pub unknown8: u32,
}

/// A function object.
pub ghost struct SpecialFunctionView {
    pub name: Seq<char>,
    pub position: Vector3,
    pub rotation: Vector3,
    pub type_: u32,
    pub unknown0: Seq<char>,
    pub unknown1: u32,
    pub unknown2: u32,
    pub unknown3: u32,
    pub layer_change_room_id: u32,
    pub layer_change_layer_id: u32,
    pub item_id: u32,
    pub unknown4: u32,
    pub unknown5: u32,
    pub unknown6: u32,
    pub unknown7: u32,
    pub unknown8: u32,
}

impl View for SpecialFunction {
    type V = SpecialFunctionView;

    open spec fn view(&self) -> SpecialFunctionView {
        SpecialFunctionView {
            name: self.name@,
            position: self.position,
            rotation: self.rotation,
            type_: self.type_,
            unknown0: self.unknown0@,
            unknown1: self.unknown1,
            unknown2: self.unknown2,
            unknown3: self.unknown3,
            layer_change_room_id: self.layer_change_room_id,
            layer_change_layer_id: self.layer_change_layer_id,
            item_id: self.item_id,
            unknown4: self.unknown4,
            unknown5: self.unknown5,
            unknown6: self.unknown6,
            unknown7: self.unknown7,
            unknown8: self.unknown8,
        }
    }
}

/// What an object does.
#[derive(Debug)]
pub enum SclyProperty {
    SpecialFunction(SpecialFunction),
    Relay { name: String, active: u8 },
    Pickup(Pickup),
    HudMemo(HudMemo),
    StreamedAudio { audio_file_name: String, others: usize },
    SpawnPoint(SpawnPoint),
    Other(usize),
}

/// What an object does.
pub ghost enum PropertyView {
    SpecialFunction(SpecialFunctionView),
    Relay { name: Seq<char>, active: u8 },
    Pickup(PickupView),
    HudMemo(HudMemo),
    StreamedAudio { audio_file_name: Seq<char>, others: usize },
    SpawnPoint(SpawnPoint),
    Other(usize),
}

impl View for SclyProperty {
    type V = PropertyView;

    open spec fn view(&self) -> PropertyView {
        match self {
            SclyProperty::SpecialFunction(f) => PropertyView::SpecialFunction(f@),
            SclyProperty::Relay { name, active } => PropertyView::Relay {
                name: name@,
                active: *active,
            },
            SclyProperty::Pickup(p) => PropertyView::Pickup(p@),
            SclyProperty::HudMemo(m) => PropertyView::HudMemo(*m),
            SclyProperty::StreamedAudio { audio_file_name, others } => PropertyView::StreamedAudio {
                audio_file_name: audio_file_name@,
                others: *others,
            },
            SclyProperty::SpawnPoint(s) => PropertyView::SpawnPoint(*s),
            SclyProperty::Other(i) => PropertyView::Other(*i),
        }
    }
}

/// A script object.
#[derive(Debug)]
pub struct SclyObject {
    pub instance_id: u32,
    pub connections: Vec<Connection>,
    pub property_data: SclyProperty,
}

/// A script object.
pub ghost struct ObjectView {
    pub instance_id: u32,
    pub connections: Seq<Connection>,
    pub property_data: PropertyView,
}

impl View for SclyObject {
    type V = ObjectView;

    open spec fn view(&self) -> ObjectView {
        ObjectView {
            instance_id: self.instance_id,
            connections: self.connections@,
            property_data: self.property_data@,
        }
    }
}

/// A layer of a room, which is switched on and off as a whole.
#[derive(Debug)]
pub struct SclyLayer {
    pub objects: Vec<SclyObject>,
}

impl View for SclyLayer {
    type V = Seq<ObjectView>;

    open spec fn view(&self) -> Seq<ObjectView> {
        views(self.objects@)
    }
}

/// Resources that a layer of a room needs.
#[derive(Debug)]
pub struct LayerDependencies {
    pub layer: usize,
    pub deps: Vec<ResourceKey>,
}

/// Resources that a layer of a room needs.
pub ghost struct LayerDependenciesView {
    pub layer: int,
    pub deps: Seq<ResourceKey>,
}

impl View for LayerDependencies {
    type V = LayerDependenciesView;

    open spec fn view(&self) -> LayerDependenciesView {
        LayerDependenciesView { layer: self.layer as int, deps: self.deps@ }
    }
}

/// A room together with what its world says of it.
#[derive(Debug)]
pub struct Area {
    pub mrea_file_id: u32,
    /// The number of layers that the world lists for the room.
    pub layer_count: u32,
    /// Which layers are active, one bit each.
    pub flags: u64,
    pub layers: Vec<SclyLayer>,
    /// The names of the layers that were added.
    pub added_layers: Vec<String>,
    /// The resources that the added layers need, in the order in which they were asked for.
    pub added_dependencies: Vec<LayerDependencies>,
}

/// A room together with what its world says of it.
pub ghost struct AreaView {
    pub mrea_file_id: u32,
    pub layer_count: u32,
    pub flags: u64,
    pub layers: Seq<Seq<ObjectView>>,
    pub added_layers: Seq<Seq<char>>,
    pub added_dependencies: Seq<LayerDependenciesView>,
}

impl View for Area {
    type V = AreaView;

    open spec fn view(&self) -> AreaView {
        AreaView {
            mrea_file_id: self.mrea_file_id,
            layer_count: self.layer_count,
            flags: self.flags,
            layers: views(self.layers@),
            added_layers: views(self.added_layers@),
            added_dependencies: views(self.added_dependencies@),
        }
    }
}

/// Something that can be scanned.
#[derive(Clone, Copy, PartialEq, Eq, Structural, Debug)]
pub struct ScannableObject {
    pub scan: u32,
    pub logbook_category: u32,
}

/// The texts of one language.
#[derive(Debug)]
pub struct StrgStringTable {
    pub lang: FourCC,
    pub strings: Vec<String>,
}

/// The texts of one language.
pub ghost struct StringTableView {
    pub lang: FourCC,
    pub strings: Seq<Seq<char>>,
}

impl View for StrgStringTable {
    type V = StringTableView;

    open spec fn view(&self) -> StringTableView {
        StringTableView { lang: self.lang, strings: views(self.strings@) }
    }
}

/// What a resource holds.
#[derive(Debug)]
pub enum ResourceKind {
    Mrea(Area),
    Savw(Vec<ScannableObject>),
    Strg(Vec<StrgStringTable>),
    Other(usize),
}

/// What a resource holds.
pub ghost enum ResourceKindView {
    Mrea(AreaView),
    Savw(Seq<ScannableObject>),
    Strg(Seq<StringTableView>),
    Other(usize),
}

impl View for ResourceKind {
    type V = ResourceKindView;

    open spec fn view(&self) -> ResourceKindView {
        match self {
            ResourceKind::Mrea(area) => ResourceKindView::Mrea(area@),
            ResourceKind::Savw(scans) => ResourceKindView::Savw(scans@),
            ResourceKind::Strg(tables) => ResourceKindView::Strg(views(tables@)),
            ResourceKind::Other(i) => ResourceKindView::Other(*i),
        }
    }
}

/// A resource of a pak.
#[derive(Debug)]
pub struct Resource {
    pub key: ResourceKey,
    pub kind: ResourceKind,
}

/// A resource of a pak.
pub ghost struct ResourceView {
    pub key: ResourceKey,
    pub kind: ResourceKindView,
}

impl View for Resource {
    type V = ResourceView;

    open spec fn view(&self) -> ResourceView {
        ResourceView { key: self.key, kind: self.kind@ }
    }
}

/// An archive of resources.
#[derive(Debug)]
pub struct Pak {
    pub resources: Vec<Resource>,
}

impl View for Pak {
    type V = Seq<ResourceView>;

    open spec fn view(&self) -> Seq<ResourceView> {
        views(self.resources@)
    }
}

/// The content of a file on the disc.
#[derive(Debug)]
pub enum FileContent {
    Pak(Pak),
    /// The bytes that the disc holds.
    Raw(Vec<u8>),
    /// Bytes that replace those of the disc.
    External(Vec<u8>),
    /// The film that replaces those of the attract mode.
    AttractMode,
    Other(usize),
}

/// The content of a file on the disc.
pub ghost enum FileView {
    Pak(Seq<ResourceView>),
    Raw(Seq<u8>),
    External(Seq<u8>),
    AttractMode,
    Other(usize),
}

impl View for FileContent {
    type V = FileView;

    open spec fn view(&self) -> FileView {
        match self {
            FileContent::Pak(pak) => FileView::Pak(pak@),
            FileContent::Raw(bytes) => FileView::Raw(bytes@),
            FileContent::External(bytes) => FileView::External(bytes@),
            FileContent::AttractMode => FileView::AttractMode,
            FileContent::Other(i) => FileView::Other(*i),
        }
    }
}

/// An entry of the disc's file table: a file, or a folder, which has no content.
#[derive(Debug)]
pub struct FstEntry {
    pub name: String,
    pub file: Option<FileContent>,
}

/// An entry of the disc's file table.
pub ghost struct EntryView {
    pub name: Seq<char>,
    pub file: Option<FileView>,
}

impl View for FstEntry {
    type V = EntryView;

    open spec fn view(&self) -> EntryView {
        EntryView {
            name: self.name@,
            file: match self.file {
                Some(content) => Some(content@),
                None => None,
            },
        }
    }
}

} // verus!
