//! Changes to the resources of a world's pak.

use vstd::prelude::*;
use crate::area;
use crate::model;
use crate::model::{Pak, Resource, ResourceKey, ResourceKind, ScannableObject, StrgStringTable};
use crate::tables;
use crate::tables::{RoomInfo, Tables};

verus! {

/// The number of artifacts, and of the totems that speak of them.
pub const ARTIFACT_COUNT: usize = 12;

/// Which totem of the Artifact Temple a text belongs to: Lifegiver, Wild, World, Sun, Elder,
/// Spirit, Truth, Chozo, Warrior, Newborn, Nature, Strength.
pub open spec fn totem_position(file_id: u32) -> Option<int> {
    if file_id == 0x61729798 {
        Some(0)
    } else if file_id == 0xAA2E443D {
        Some(1)
    } else if file_id == 0x8E9C7387 {
        Some(2)
    } else if file_id == 0x16B057E3 {
        Some(3)
    } else if file_id == 0xB72B7485 {
        Some(4)
    } else if file_id == 0x45C0A022 {
        Some(5)
    } else if file_id == 0xFAE3D58E {
        Some(6)
    } else if file_id == 0x2CBA3693 {
        Some(7)
    } else if file_id == 0xE7E6E536 {
        Some(8)
    } else if file_id == 0xC354D28C {
        Some(9)
    } else if file_id == 0xDDEC8446 {
        Some(10)
    } else if file_id == 0x7C77A720 {
        Some(11)
    } else {
        None
    }
}

/// Looks up which totem a text belongs to.
pub fn find_totem(file_id: u32) -> (r: Option<usize>)
    ensures
        match r {
            Some(i) => totem_position(file_id) == Some(i as int) && i < ARTIFACT_COUNT,
            None => totem_position(file_id) is None,
        },
{
    match file_id {
        0x61729798 => Some(0),
        0xAA2E443D => Some(1),
        0x8E9C7387 => Some(2),
        0x16B057E3 => Some(3),
        0xB72B7485 => Some(4),
        0x45C0A022 => Some(5),
        0xFAE3D58E => Some(6),
        0x2CBA3693 => Some(7),
        0xE7E6E536 => Some(8),
        0xC354D28C => Some(9),
        0xDDEC8446 => Some(10),
        0x7C77A720 => Some(11),
        _ => None,
    }
}

/// Every language has a text to replace.
pub open spec fn all_have_text(tables: Seq<model::StringTableView>) -> bool {
    forall|i: int| 0 <= i < tables.len() ==> (#[trigger] tables[i]).strings.len() > 0
}

/// The tables with the last text of each language replaced.
pub open spec fn with_last_text(
    tables: Seq<model::StringTableView>,
    text: Seq<char>,
) -> Seq<model::StringTableView> {
    tables.map_values(
        |t: model::StringTableView|
            model::StringTableView { strings: t.strings.drop_last().push(text), ..t },
    )
}

/// The scans of the Phazon Mines with that of the Phazon Suit.
pub open spec fn with_phazon_scan(
    scans: Seq<ScannableObject>,
    ids: tables::AssetIds,
) -> Seq<ScannableObject> {
    scans.push(ScannableObject { scan: ids.phazon_suit_scan, logbook_category: 0 })
}

/// A resource is the room that comes next in the list of rooms with pickups.
pub open spec fn is_next_room(
    key: ResourceKey,
    rooms: Seq<tables::RoomInfoView>,
    ri: int,
) -> bool {
    &&& key.fourcc == model::MREA
    &&& 0 <= ri < rooms.len()
    &&& rooms[ri].room_id == key.file_id
}

/// A patched resource, and the next unused id; `None` if it is not as expected.
pub open spec fn patched_resource(
    r: model::ResourceView,
    rooms: Seq<tables::RoomInfoView>,
    ri: int,
    items: Seq<usize>,
    next: int,
    fresh: u32,
    totem_texts: Seq<Seq<char>>,
    t: tables::TablesView,
    skip_hudmenus: bool,
) -> Option<(model::ResourceView, u32)> {
    if r.key.fourcc == model::SAVW && r.key.file_id == t.ids.phazon_mines_savw {
        match r.kind {
            model::ResourceKindView::Savw(scans) => Some(
                (
                    model::ResourceView {
                        kind: model::ResourceKindView::Savw(with_phazon_scan(scans, t.ids)),
                        ..r
                    },
                    fresh,
                ),
            ),
            _ => None,
        }
    } else if r.key.fourcc == model::STRG && totem_position(r.key.file_id) is Some {
        match r.kind {
            model::ResourceKindView::Strg(tables) => if all_have_text(tables) {
                Some(
                    (
                        model::ResourceView {
                            kind: model::ResourceKindView::Strg(
                                with_last_text(
                                    tables,
                                    totem_texts[totem_position(r.key.file_id)->0],
                                ),
                            ),
                            ..r
                        },
                        fresh,
                    ),
                )
            } else {
                None
            },
            _ => None,
        }
    } else if is_next_room(r.key, rooms, ri) {
        match r.kind {
            model::ResourceKindView::Mrea(a) => match area::patched_area(
                a,
                rooms[ri],
                items,
                next,
                fresh,
                t,
                skip_hudmenus,
            ) {
                Some((b, id)) => Some(
                    (
                        model::ResourceView { kind: model::ResourceKindView::Mrea(b), ..r },
                        id,
                    ),
                ),
                None => None,
            },
            _ => None,
        }
    } else {
        Some((r, fresh))
    }
}

/// The resources of a pak, patched from the `i`-th on up to the description of the world, which
/// ends a pak. With them the position of the next item, and the next unused id.
pub open spec fn patched_from(
    resources: Seq<model::ResourceView>,
    i: int,
    rooms: Seq<tables::RoomInfoView>,
    ri: int,
    items: Seq<usize>,
    next: int,
    fresh: u32,
    totem_texts: Seq<Seq<char>>,
    t: tables::TablesView,
    skip_hudmenus: bool,
) -> Option<(Seq<model::ResourceView>, int, u32)>
    decreases resources.len() - i,
{
    if !(0 <= i < resources.len()) {
        None
    } else if resources[i].key.fourcc == model::MLVL {
        Some((resources, next, fresh))
    } else {
        let taken = is_next_room(resources[i].key, rooms, ri);
        match patched_resource(
            resources[i],
            rooms,
            ri,
            items,
            next,
            fresh,
            totem_texts,
            t,
            skip_hudmenus,
        ) {
            None => None,
            Some((r, id)) => patched_from(
                resources.update(i, r),
                i + 1,
                rooms,
                if taken { ri + 1 } else { ri },
                items,
                if taken { next + rooms[ri].pickup_locations.len() } else { next },
                id,
                totem_texts,
                t,
                skip_hudmenus,
            ),
        }
    }
}

/// A patched pak, the position of the next item, and the next unused id; `None` if the pak is not
/// as expected, or the items or ids run out.
pub open spec fn patched_pak(
    resources: Seq<model::ResourceView>,
    rooms: Seq<tables::RoomInfoView>,
    items: Seq<usize>,
    next: int,
    fresh: u32,
    totem_texts: Seq<Seq<char>>,
    t: tables::TablesView,
    skip_hudmenus: bool,
) -> Option<(Seq<model::ResourceView>, int, u32)> {
    patched_from(resources, 0, rooms, 0, items, next, fresh, totem_texts, t, skip_hudmenus)
}

/// Replaces the last text of each language. Answers whether there is one in each.
fn replace_last_texts(tables: &mut Vec<StrgStringTable>, text: &String) -> (r: bool)
    ensures
        r == all_have_text(model::views(old(tables)@)),
        r ==> model::views(final(tables)@) == with_last_text(
            model::views(old(tables)@),
            text@,
        ),
{
    let ghost before = model::views(tables@);
    let count = tables.len();
    for i in 0..count
        invariant
            count == tables.len(),
            count == before.len(),
            before == model::views(old(tables)@),
            forall|j: int| 0 <= j < i ==> (#[trigger] before[j]).strings.len() > 0,
            forall|j: int|
                0 <= j < i ==> #[trigger] model::views(tables@)[j] == with_last_text(
                    before,
                    text@,
                )[j],
            forall|j: int| i <= j < count ==> #[trigger] model::views(tables@)[j] == before[j],
    {
        let ghost now = tables@;
        assert(model::views(now)[i as int] == now[i as int]@);
        if tables[i].strings.len() == 0 {
            assert(before[i as int].strings.len() == 0);
            return false;
        }
        tables[i].strings.pop();
        tables[i].strings.push(text.clone());
        assert(tables@[i as int]@.strings =~= before[i as int].strings.drop_last().push(text@));
        assert forall|j: int| 0 <= j < count && j != i implies #[trigger] model::views(tables@)[j]
            == model::views(now)[j] by {
            assert(tables@[j] == now[j]);
        }
        assert(model::views(tables@)[i as int] == tables@[i as int]@);
    }
    assert(model::views(tables@) =~= with_last_text(before, text@));
    true
}

/// Patches one resource.
fn patch_resource(
    resource: Resource,
    rooms: &Vec<RoomInfo>,
    ri: usize,
    items: &Vec<usize>,
    next: usize,
    fresh: u32,
    totem_texts: &Vec<String>,
    t: &Tables,
    skip_hudmenus: bool,
) -> (r: Option<(Resource, u32)>)
    requires
        t@.wf(),
        skip_hudmenus ==> t@.has_message_ids(),
        next <= items@.len(),
        totem_texts@.len() == ARTIFACT_COUNT,
    ensures
        r is Some <==> patched_resource(
            resource@,
            model::views(rooms@),
            ri as int,
            items@,
            next as int,
            fresh,
            model::views(totem_texts@),
            t@,
            skip_hudmenus,
        ) is Some,
        r is Some ==> ((r->0).0@, (r->0).1) == patched_resource(
            resource@,
            model::views(rooms@),
            ri as int,
            items@,
            next as int,
            fresh,
            model::views(totem_texts@),
            t@,
            skip_hudmenus,
        )->0,
        r is Some && is_next_room(resource@.key, model::views(rooms@), ri as int) ==> next
            + rooms@[ri as int].pickup_locations@.len() <= items@.len(),
{
    let Resource { key, kind } = resource;
    if key.fourcc == model::SAVW && key.file_id == t.ids.phazon_mines_savw {
        return match kind {
            ResourceKind::Savw(mut scans) => {
                scans.push(
                    ScannableObject { scan: t.ids.phazon_suit_scan, logbook_category: 0 },
                );
                Some((Resource { key, kind: ResourceKind::Savw(scans) }, fresh))
            },
            _ => None,
        };
    }
    if key.fourcc == model::STRG {
        if let Some(pos) = find_totem(key.file_id) {
            return match kind {
                ResourceKind::Strg(mut tables) => {
                    assert(model::views(totem_texts@)[pos as int] == totem_texts@[pos as int]@);
                    if replace_last_texts(&mut tables, &totem_texts[pos]) {
                        Some((Resource { key, kind: ResourceKind::Strg(tables) }, fresh))
                    } else {
                        None
                    }
                },
                _ => None,
            };
        }
    }
    if key.fourcc == model::MREA && ri < rooms.len() {
        assert(model::views(rooms@)[ri as int] == rooms@[ri as int]@);
        if rooms[ri].room_id == key.file_id {
            return match kind {
                ResourceKind::Mrea(area) => {
                    match area::modify_pickups_in_mrea(
                        area,
                        &rooms[ri],
                        items,
                        next,
                        fresh,
                        t,
                        skip_hudmenus,
                    ) {
                        Some((patched, id)) => Some(
                            (Resource { key, kind: ResourceKind::Mrea(patched) }, id),
                        ),
                        None => None,
                    }
                },
                _ => None,
            };
        }
    }
    Some((Resource { key, kind }, fresh))
}

/// Patches the pak of a world: the rooms with pickups, the texts of the totems, and the scans of
/// the Phazon Mines.
pub fn modify_pickups_in_pak(
    pak: Pak,
    rooms: &Vec<RoomInfo>,
    items: &Vec<usize>,
    next: usize,
    fresh: u32,
    totem_texts: &Vec<String>,
    t: &Tables,
    skip_hudmenus: bool,
) -> (r: Option<(Pak, usize, u32)>)
    requires
        t@.wf(),
        skip_hudmenus ==> t@.has_message_ids(),
        next <= items@.len(),
        totem_texts@.len() == ARTIFACT_COUNT,
    ensures
        r is Some <==> patched_pak(
            pak@,
            model::views(rooms@),
            items@,
            next as int,
            fresh,
            model::views(totem_texts@),
            t@,
            skip_hudmenus,
        ) is Some,
        r is Some ==> ((r->0).0@, (r->0).1 as int, (r->0).2) == patched_pak(
            pak@,
            model::views(rooms@),
            items@,
            next as int,
            fresh,
            model::views(totem_texts@),
            t@,
            skip_hudmenus,
        )->0,
        r is Some ==> next <= (r->0).1 <= items@.len(),
{
    let mut resources = pak.resources;
    let mut ri: usize = 0;
    let mut position = next;
    let mut id = fresh;
    let mut i: usize = 0;
    while i < resources.len()
        invariant
            t@.wf(),
            skip_hudmenus ==> t@.has_message_ids(),
            next <= position <= items@.len(),
            totem_texts@.len() == ARTIFACT_COUNT,
            i <= resources.len(),
            ri <= rooms.len(),
            patched_pak(
                pak@,
                model::views(rooms@),
                items@,
                next as int,
                fresh,
                model::views(totem_texts@),
                t@,
                skip_hudmenus,
            ) == patched_from(
                model::views(resources@),
                i as int,
                model::views(rooms@),
                ri as int,
                items@,
                position as int,
                id,
                model::views(totem_texts@),
                t@,
                skip_hudmenus,
            ),
        decreases resources.len() - i,
    {
        let ghost now = model::views(resources@);
        assert(now[i as int] == resources@[i as int]@);
        let key = resources[i].key;
        if key.fourcc == model::MLVL {
            return Some((Pak { resources }, position, id));
        }
        let mut taken = Resource { key, kind: ResourceKind::Other(0) };
        core::mem::swap(&mut taken, &mut resources[i]);
        let ghost room_taken = is_next_room(taken@.key, model::views(rooms@), ri as int);
        assert(taken@ == now[i as int]);
        match patch_resource(
            taken,
            rooms,
            ri,
            items,
            position,
            id,
            totem_texts,
            t,
            skip_hudmenus,
        ) {
            Some((patched, new_id)) => {
                resources.set(i, patched);
                assert(model::views(resources@) =~= now.update(i as int, patched@));
                if key.fourcc == model::MREA && ri < rooms.len() {
                    assert(model::views(rooms@)[ri as int] == rooms@[ri as int]@);
                    if rooms[ri].room_id == key.file_id {
                        assert(room_taken && position + rooms@[ri as int].pickup_locations@.len()
                            <= items.len());
                        position = position + rooms[ri].pickup_locations.len();
                        ri = ri + 1;
                    }
                }
                id = new_id;
            },
            None => {
                return None;
            },
        }
        i = i + 1;
    }
    None
}

} // verus!
