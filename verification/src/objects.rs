//! Script objects that patching makes or changes.

use vstd::prelude::*;
use crate::model;
use crate::model::{
    Connection, HudMemo, PickupModel, SclyObject, SclyProperty, Shift, SpecialFunction,
    Vector3,
};

verus! {

/// The layer of the Artifact Temple that requires the Artifact of Truth.
pub const ARTIFACT_OF_TRUTH_REQ_LAYER: u32 = 24;

/// The room id of the Artifact Temple, whose layers the artifacts switch on.
pub const ARTIFACT_LAYER_ROOM: u32 = 3442151074;

/// The pickup kind of the Artifact of Truth, the first of the artifacts.
pub const TRUTH_KIND: u32 = 29;

/// The pickup kind of the last artifact.
pub const LAST_ARTIFACT_KIND: u32 = 40;

/// The bit pattern of the number 5.
pub const FIVE_SECONDS: u32 = 0x40A00000;

/// The pickup locations whose message always interrupts the game, since a cutscene follows.
pub open spec fn is_always_modal(location_idx: int) -> bool {
    location_idx == 23 || location_idx == 50 || location_idx == 63
}

/// A pickup kind of an artifact.
pub open spec fn is_artifact_kind(kind: u32) -> bool {
    TRUTH_KIND <= kind <= LAST_ARTIFACT_KIND
}

/// The layer of the Artifact Temple that an artifact switches on.
pub open spec fn artifact_layer(pickup_kind: u32) -> u32 {
    if pickup_kind > TRUTH_KIND {
        (pickup_kind - 28) as u32
    } else {
        ARTIFACT_OF_TRUTH_REQ_LAYER
    }
}

/// Three zeros.
pub open spec fn zero_vector() -> Vector3 {
    Vector3 { x: 0, y: 0, z: 0 }
}

/// The function object that switches on the layer of an artifact.
pub open spec fn artifact_layer_change(instance_id: u32, pickup_kind: u32) -> model::ObjectView {
    model::ObjectView {
        instance_id,
        connections: Seq::empty(),
        property_data: model::PropertyView::SpecialFunction(
            model::SpecialFunctionView {
                name: "Artifact Layer Switch"@,
                position: zero_vector(),
                rotation: zero_vector(),
                type_: 16,
                unknown0: Seq::empty(),
                unknown1: 0,
                unknown2: 0,
                unknown3: 0,
                layer_change_room_id: ARTIFACT_LAYER_ROOM,
                layer_change_layer_id: artifact_layer(pickup_kind),
                item_id: 0,
                unknown4: 1,
                unknown5: 0,
                unknown6: 0xFFFF_FFFF,
                unknown7: 0xFFFF_FFFF,
                unknown8: 0xFFFF_FFFF,
            },
        ),
    }
}

/// Makes the function object that switches on the layer of an artifact.
pub fn artifact_layer_change_template(instance_id: u32, pickup_kind: u32) -> (r: SclyObject)
    requires
        pickup_kind >= TRUTH_KIND,
    ensures
        r@ == artifact_layer_change(instance_id, pickup_kind),
{
    let layer = if pickup_kind > TRUTH_KIND {
        pickup_kind - 28
    } else {
        ARTIFACT_OF_TRUTH_REQ_LAYER
    };
    SclyObject {
        instance_id,
        connections: Vec::new(),
        property_data: SclyProperty::SpecialFunction(
            SpecialFunction {
                name: "Artifact Layer Switch".to_owned(),
                position: Vector3 { x: 0, y: 0, z: 0 },
                rotation: Vector3 { x: 0, y: 0, z: 0 },
                type_: 16,
                unknown0: String::new(),
                unknown1: 0,
                unknown2: 0,
                unknown3: 0,
                layer_change_room_id: ARTIFACT_LAYER_ROOM,
                layer_change_layer_id: layer,
                item_id: 0,
                unknown4: 1,
                unknown5: 0,
                unknown6: 0xFFFF_FFFF,
                unknown7: 0xFFFF_FFFF,
                unknown8: 0xFFFF_FFFF,
            },
        ),
    }
}

/// A relay.
pub open spec fn relay(
    instance_id: u32,
    connections: Seq<Connection>,
    name: Seq<char>,
) -> model::ObjectView {
    model::ObjectView {
        instance_id,
        connections,
        property_data: model::PropertyView::Relay { name, active: 1 },
    }
}

/// The relay that is told when a pickup was taken.
pub open spec fn post_pickup_relay(
    instance_id: u32,
    connections: Seq<Connection>,
) -> model::ObjectView {
    relay(instance_id, connections, "Randomizer Post Pickup Relay"@)
}

/// Makes the relay that is told when a pickup was taken.
pub fn post_pickup_relay_template(instance_id: u32, connections: &Vec<Connection>) -> (r: SclyObject)
    ensures
        r@ == post_pickup_relay(instance_id, connections@),
{
    SclyObject {
        instance_id,
        connections: copy_connections(connections),
        property_data: SclyProperty::Relay {
            name: "Randomizer Post Pickup Relay".to_owned(),
            active: 1,
        },
    }
}

/// Copies a list of connections.
fn copy_connections(connections: &Vec<Connection>) -> (r: Vec<Connection>)
    ensures
        r@ == connections@,
{
    let mut r: Vec<Connection> = Vec::new();
    for i in 0..connections.len()
        invariant
            r@ == connections@.take(i as int),
    {
        r.push(connections[i]);
    }
    r
}

/// A pickup that holds another item: what goes with the item is new, what goes with the place
/// stays, and the position is to follow the change of model.
pub open spec fn updated_pickup(p: model::PickupView, model: PickupModel) -> model::PickupView {
    model::PickupView {
        shifts: p.shifts.push(Shift { from: p.model.shape, to: model.shape }),
        model,
        ..p
    }
}

/// An object after its pickup was changed; `None` if it is no pickup.
pub open spec fn with_pickup_updated(
    object: model::ObjectView,
    model: PickupModel,
) -> Option<model::ObjectView> {
    match object.property_data {
        model::PropertyView::Pickup(p) => Some(
            model::ObjectView {
                property_data: model::PropertyView::Pickup(updated_pickup(p, model)),
                ..object
            },
        ),
        _ => None,
    }
}

/// Puts another item into a pickup. Answers whether the object is a pickup.
pub fn update_pickup(object: &mut SclyObject, model: &PickupModel) -> (r: bool)
    ensures
        r == (with_pickup_updated(old(object)@, *model) is Some),
        r ==> final(object)@ == with_pickup_updated(old(object)@, *model)->0,
        !r ==> final(object)@ == old(object)@,
{
    match &mut object.property_data {
        SclyProperty::Pickup(pickup) => {
            let shift = Shift { from: pickup.model.shape, to: model.shape };
            pickup.shifts.push(shift);
            pickup.model = *model;
            true
        },
        _ => false,
    }
}

/// A message about a taken pickup: without interruption where that is wanted and possible.
pub open spec fn updated_hudmemo(
    memo: HudMemo,
    own_strg: u32,
    skip_strg: u32,
    location_idx: int,
    skip_hudmenus: bool,
) -> HudMemo {
    if skip_hudmenus && !is_always_modal(location_idx) {
        HudMemo { first_message_timer: FIVE_SECONDS, memo_type: 0, strg: skip_strg, ..memo }
    } else {
        HudMemo { strg: own_strg, ..memo }
    }
}

/// An object after its message was changed; `None` if it is no message.
pub open spec fn with_hudmemo_updated(
    object: model::ObjectView,
    own_strg: u32,
    skip_strg: u32,
    location_idx: int,
    skip_hudmenus: bool,
) -> Option<model::ObjectView> {
    match object.property_data {
        model::PropertyView::HudMemo(memo) => Some(
            model::ObjectView {
                property_data: model::PropertyView::HudMemo(
                    updated_hudmemo(memo, own_strg, skip_strg, location_idx, skip_hudmenus),
                ),
                ..object
            },
        ),
        _ => None,
    }
}

/// Sets the message about a taken pickup. Answers whether the object is a message.
pub fn update_hudmemo(
    object: &mut SclyObject,
    own_strg: u32,
    skip_strg: u32,
    location_idx: usize,
    skip_hudmenus: bool,
) -> (r: bool)
    ensures
        r == (with_hudmemo_updated(
            old(object)@,
            own_strg,
            skip_strg,
            location_idx as int,
            skip_hudmenus,
        ) is Some),
        r ==> final(object)@ == with_hudmemo_updated(
            old(object)@,
            own_strg,
            skip_strg,
            location_idx as int,
            skip_hudmenus,
        )->0,
        !r ==> final(object)@ == old(object)@,
{
    match &mut object.property_data {
        SclyProperty::HudMemo(memo) => {
            let always_modal = location_idx == 23 || location_idx == 50 || location_idx == 63;
            if skip_hudmenus && !always_modal {
                memo.first_message_timer = FIVE_SECONDS;
                memo.memo_type = 0;
                memo.strg = skip_strg;
            } else {
                memo.strg = own_strg;
            }
            true
        },
        _ => false,
    }
}

/// Text that a NUL ends, and that holds no other.
pub open spec fn is_nul_terminated(text: Seq<char>) -> bool {
    text.len() > 0 && text.last() == '\0' && !text.drop_last().contains('\0')
}

/// An object after its sound was changed; `None` if it is no sound.
pub open spec fn with_audio_updated(object: model::ObjectView, file_name: Seq<char>) -> Option<
    model::ObjectView,
> {
    match object.property_data {
        model::PropertyView::StreamedAudio { audio_file_name: _, others } => Some(
            model::ObjectView {
                property_data: model::PropertyView::StreamedAudio {
                    audio_file_name: file_name.drop_last(),
                    others,
                },
                ..object
            },
        ),
        _ => None,
    }
}

/// Sets the sound that a taken pickup plays, from a file name that a NUL ends. Answers whether the
/// object is a sound.
pub fn update_attainment_audio(object: &mut SclyObject, file_name: &String) -> (r: bool)
    requires
        is_nul_terminated(file_name@),
    ensures
        r == (with_audio_updated(old(object)@, file_name@) is Some),
        r ==> final(object)@ == with_audio_updated(old(object)@, file_name@)->0,
        !r ==> final(object)@ == old(object)@,
{
    match &mut object.property_data {
        SclyProperty::StreamedAudio { audio_file_name, others } => {
            let name = file_name.as_str();
            let len = name.unicode_len();
            *audio_file_name = name.substring_char(0, len - 1).to_owned();
            assert(audio_file_name@ == file_name@.drop_last());
            true
        },
        _ => false,
    }
}

} // verus!
