//! What patching promises of a pak.

use vstd::prelude::*;
use crate::area;
use crate::model;
use crate::model::ResourceKey;
use crate::pak;
use crate::rooms;
use crate::tables;

verus! {

/// The number of locations in the first `n` rooms.
pub open spec fn locations_of(list: Seq<tables::RoomInfoView>, n: int) -> int
    decreases n,
{
    if n <= 0 {
        0
    } else {
        locations_of(list, n - 1) + list[n - 1].pickup_locations.len()
    }
}

/// The number of rooms of a list that are met when a pak is read from the `i`-th resource on up to
/// the description of the world, of which `ri` were met before.
pub open spec fn rooms_met(
    resources: Seq<model::ResourceView>,
    i: int,
    list: Seq<tables::RoomInfoView>,
    ri: int,
) -> int
    decreases resources.len() - i,
{
    if !(0 <= i < resources.len()) || resources[i].key.fourcc == model::MLVL {
        ri
    } else if pak::is_next_room(resources[i].key, list, ri) {
        rooms_met(resources, i + 1, list, ri + 1)
    } else {
        rooms_met(resources, i + 1, list, ri)
    }
}

/// Only the keys of the resources that are still to be read matter.
proof fn lemma_rooms_met(
    resources: Seq<model::ResourceView>,
    others: Seq<model::ResourceView>,
    i: int,
    list: Seq<tables::RoomInfoView>,
    ri: int,
)
    requires
        resources.len() == others.len(),
        forall|j: int| i <= j < resources.len() ==> (#[trigger] resources[j]).key == others[j].key,
        0 <= ri <= list.len(),
    ensures
        rooms_met(resources, i, list, ri) == rooms_met(others, i, list, ri),
        ri <= rooms_met(resources, i, list, ri) <= list.len(),
    decreases resources.len() - i,
{
    if 0 <= i < resources.len() && resources[i].key.fourcc != model::MLVL {
        if pak::is_next_room(resources[i].key, list, ri) {
            lemma_rooms_met(resources, others, i + 1, list, ri + 1);
        } else {
            lemma_rooms_met(resources, others, i + 1, list, ri);
        }
    }
}

/// A resource may be another after patching: the scans of the Phazon Mines, the text of a totem, or
/// a room with pickups.
pub open spec fn is_patchable(
    key: ResourceKey,
    list: Seq<tables::RoomInfoView>,
    t: tables::TablesView,
) -> bool {
    ||| key.fourcc == model::SAVW && key.file_id == t.ids.phazon_mines_savw
    ||| key.fourcc == model::STRG && pak::totem_position(key.file_id) is Some
    ||| key.fourcc == model::MREA && exists|q: int|
        0 <= q < list.len() && (#[trigger] list[q]).room_id == key.file_id
}

/// Reading on from a resource leaves the earlier ones, and the key of each.
proof fn lemma_pak_keeps(
    resources: Seq<model::ResourceView>,
    i: int,
    list: Seq<tables::RoomInfoView>,
    ri: int,
    items: Seq<usize>,
    next: int,
    fresh: u32,
    totem_texts: Seq<Seq<char>>,
    t: tables::TablesView,
    skip_hudmenus: bool,
)
    requires
        pak::patched_from(
            resources,
            i,
            list,
            ri,
            items,
            next,
            fresh,
            totem_texts,
            t,
            skip_hudmenus,
        ) is Some,
    ensures
        ({
            let out = (pak::patched_from(
                resources,
                i,
                list,
                ri,
                items,
                next,
                fresh,
                totem_texts,
                t,
                skip_hudmenus,
            )->0).0;
            &&& out.len() == resources.len()
            &&& forall|j: int|
                0 <= j < out.len() ==> (#[trigger] out[j]).key == resources[j].key
            &&& forall|j: int|
                0 <= j < out.len() && (j < i || !is_patchable(resources[j].key, list, t))
                    ==> #[trigger] out[j] == resources[j]
        }),
    decreases resources.len() - i,
{
    if resources[i].key.fourcc != model::MLVL {
        let met = pak::is_next_room(resources[i].key, list, ri);
        let (r, id) = pak::patched_resource(
            resources[i],
            list,
            ri,
            items,
            next,
            fresh,
            totem_texts,
            t,
            skip_hudmenus,
        )->0;
        lemma_pak_keeps(
            resources.update(i, r),
            i + 1,
            list,
            if met { ri + 1 } else { ri },
            items,
            if met { next + list[ri].pickup_locations.len() } else { next },
            id,
            totem_texts,
            t,
            skip_hudmenus,
        );
        if met {
            assert(list[ri].room_id == resources[i].key.file_id);
        }
    }
}

/// A patched pak has the same resources, each with its key and at its place; one that is neither a
/// room with pickups, nor the text of a totem, nor the scans of the Phazon Mines is unchanged.
pub proof fn law_pak_keeps_resources(
    resources: Seq<model::ResourceView>,
    list: Seq<tables::RoomInfoView>,
    items: Seq<usize>,
    next: int,
    fresh: u32,
    totem_texts: Seq<Seq<char>>,
    t: tables::TablesView,
    skip_hudmenus: bool,
)
    requires
        pak::patched_pak(
            resources,
            list,
            items,
            next,
            fresh,
            totem_texts,
            t,
            skip_hudmenus,
        ) is Some,
    ensures
        ({
            let out = (pak::patched_pak(
                resources,
                list,
                items,
                next,
                fresh,
                totem_texts,
                t,
                skip_hudmenus,
            )->0).0;
            &&& out.len() == resources.len()
            &&& forall|j: int|
                0 <= j < out.len() ==> (#[trigger] out[j]).key == resources[j].key
            &&& forall|j: int|
                0 <= j < out.len() && !is_patchable(resources[j].key, list, t)
                    ==> #[trigger] out[j] == resources[j]
        }),
{
    lemma_pak_keeps(
        resources,
        0,
        list,
        0,
        items,
        next,
        fresh,
        totem_texts,
        t,
        skip_hudmenus,
    );
}

/// The `j`-th resource is a room that was patched with the items from `next` on.
pub open spec fn is_patched_room(
    resources: Seq<model::ResourceView>,
    out: Seq<model::ResourceView>,
    j: int,
    room: tables::RoomInfoView,
    items: Seq<usize>,
    next: int,
    fresh: u32,
    t: tables::TablesView,
    skip_hudmenus: bool,
) -> bool {
    &&& 0 <= j < resources.len()
    &&& resources[j].key == (ResourceKey { file_id: room.room_id, fourcc: model::MREA })
    &&& match resources[j].kind {
        model::ResourceKindView::Mrea(a) => {
            &&& area::patched_area(a, room, items, next, fresh, t, skip_hudmenus) is Some
            &&& out[j] == (model::ResourceView {
                kind: model::ResourceKindView::Mrea(
                    (area::patched_area(a, room, items, next, fresh, t, skip_hudmenus)->0).0,
                ),
                ..resources[j]
            })
        },
        _ => false,
    }
}

/// The next unused id after a room was patched.
pub open spec fn ids_end(
    resource: model::ResourceView,
    room: tables::RoomInfoView,
    items: Seq<usize>,
    next: int,
    fresh: u32,
    t: tables::TablesView,
    skip_hudmenus: bool,
) -> u32 {
    match resource.kind {
        model::ResourceKindView::Mrea(a) => (area::patched_area(
            a,
            room,
            items,
            next,
            fresh,
            t,
            skip_hudmenus,
        )->0).1,
        _ => fresh,
    }
}

/// A room of the list was patched, at or after the `i`-th resource, with ids from a range.
pub open spec fn room_was_patched(
    resources: Seq<model::ResourceView>,
    out: Seq<model::ResourceView>,
    i: int,
    room: tables::RoomInfoView,
    items: Seq<usize>,
    next: int,
    low: u32,
    high: u32,
    t: tables::TablesView,
    skip_hudmenus: bool,
) -> bool {
    exists|j: int, fresh: u32|
        i <= j && low <= fresh && #[trigger] is_patched_room(
            resources,
            out,
            j,
            room,
            items,
            next,
            fresh,
            t,
            skip_hudmenus,
        ) && fresh <= ids_end(resources[j], room, items, next, fresh, t, skip_hudmenus) <= high
}

/// Ids are used up in order.
proof fn lemma_pak_uses_ids(
    resources: Seq<model::ResourceView>,
    i: int,
    list: Seq<tables::RoomInfoView>,
    ri: int,
    items: Seq<usize>,
    next: int,
    fresh: u32,
    totem_texts: Seq<Seq<char>>,
    t: tables::TablesView,
    skip_hudmenus: bool,
)
    requires
        pak::patched_from(
            resources,
            i,
            list,
            ri,
            items,
            next,
            fresh,
            totem_texts,
            t,
            skip_hudmenus,
        ) is Some,
    ensures
        fresh <= (pak::patched_from(
            resources,
            i,
            list,
            ri,
            items,
            next,
            fresh,
            totem_texts,
            t,
            skip_hudmenus,
        )->0).2,
    decreases resources.len() - i,
{
    if resources[i].key.fourcc != model::MLVL {
        let met = pak::is_next_room(resources[i].key, list, ri);
        let (r, id) = pak::patched_resource(
            resources[i],
            list,
            ri,
            items,
            next,
            fresh,
            totem_texts,
            t,
            skip_hudmenus,
        )->0;
        lemma_resource_uses_ids(
            resources[i],
            list,
            ri,
            items,
            next,
            fresh,
            totem_texts,
            t,
            skip_hudmenus,
        );
        lemma_pak_uses_ids(
            resources.update(i, r),
            i + 1,
            list,
            if met { ri + 1 } else { ri },
            items,
            if met { next + list[ri].pickup_locations.len() } else { next },
            id,
            totem_texts,
            t,
            skip_hudmenus,
        );
    }
}

/// Ids are used up in order.
proof fn lemma_resource_uses_ids(
    r: model::ResourceView,
    list: Seq<tables::RoomInfoView>,
    ri: int,
    items: Seq<usize>,
    next: int,
    fresh: u32,
    totem_texts: Seq<Seq<char>>,
    t: tables::TablesView,
    skip_hudmenus: bool,
)
    requires
        pak::patched_resource(
            r,
            list,
            ri,
            items,
            next,
            fresh,
            totem_texts,
            t,
            skip_hudmenus,
        ) is Some,
    ensures
        fresh <= (pak::patched_resource(
            r,
            list,
            ri,
            items,
            next,
            fresh,
            totem_texts,
            t,
            skip_hudmenus,
        )->0).1,
{
    if pak::is_next_room(r.key, list, ri) {
        match r.kind {
            model::ResourceKindView::Mrea(a) => {
                rooms::law_room_uses_ids(a, list[ri], items, next, fresh, t, skip_hudmenus);
            },
            _ => {},
        }
    }
}

/// The rooms that are met from a resource on are patched, each with the items after those of the
/// rooms before it.
proof fn lemma_pak_rooms(
    resources: Seq<model::ResourceView>,
    i: int,
    list: Seq<tables::RoomInfoView>,
    ri: int,
    items: Seq<usize>,
    next: int,
    fresh: u32,
    totem_texts: Seq<Seq<char>>,
    t: tables::TablesView,
    skip_hudmenus: bool,
    q: int,
)
    requires
        0 <= ri <= list.len(),
        pak::patched_from(
            resources,
            i,
            list,
            ri,
            items,
            next,
            fresh,
            totem_texts,
            t,
            skip_hudmenus,
        ) is Some,
    ensures
        ({
            let (out, last, id) = pak::patched_from(
                resources,
                i,
                list,
                ri,
                items,
                next,
                fresh,
                totem_texts,
                t,
                skip_hudmenus,
            )->0;
            let met = rooms_met(resources, i, list, ri);
            &&& last == next + locations_of(list, met) - locations_of(list, ri)
            &&& ri <= q < met ==> room_was_patched(
                resources,
                out,
                i,
                list[q],
                items,
                next + locations_of(list, q) - locations_of(list, ri),
                fresh,
                id,
                t,
                skip_hudmenus,
            )
        }),
    decreases resources.len() - i,
{
    if resources[i].key.fourcc != model::MLVL {
        let met = pak::is_next_room(resources[i].key, list, ri);
        let (r, id) = pak::patched_resource(
            resources[i],
            list,
            ri,
            items,
            next,
            fresh,
            totem_texts,
            t,
            skip_hudmenus,
        )->0;
        lemma_resource_uses_ids(
            resources[i],
            list,
            ri,
            items,
            next,
            fresh,
            totem_texts,
            t,
            skip_hudmenus,
        );
        let now = resources.update(i, r);
        let ri2 = if met { ri + 1 } else { ri };
        let next2 = if met { next + list[ri].pickup_locations.len() } else { next };
        lemma_pak_rooms(
            now,
            i + 1,
            list,
            ri2,
            items,
            next2,
            id,
            totem_texts,
            t,
            skip_hudmenus,
            q,
        );
        lemma_pak_keeps(now, i + 1, list, ri2, items, next2, id, totem_texts, t, skip_hudmenus);
        lemma_pak_uses_ids(now, i + 1, list, ri2, items, next2, id, totem_texts, t, skip_hudmenus);
        lemma_rooms_met(resources, now, i + 1, list, ri2);
        let (out, last, end) = pak::patched_from(
            now,
            i + 1,
            list,
            ri2,
            items,
            next2,
            id,
            totem_texts,
            t,
            skip_hudmenus,
        )->0;
        if ri <= q < rooms_met(resources, i, list, ri) {
            let position = next + locations_of(list, q) - locations_of(list, ri);
            if q < ri2 {
                assert(out[i] == r);
                assert(is_patched_room(
                    resources,
                    out,
                    i,
                    list[q],
                    items,
                    position,
                    fresh,
                    t,
                    skip_hudmenus,
                ));
            } else {
                assert(position == next2 + locations_of(list, q) - locations_of(list, ri2));
                let (j, f) = choose|j: int, f: u32|
                    i + 1 <= j && id <= f && #[trigger] is_patched_room(
                        now,
                        out,
                        j,
                        list[q],
                        items,
                        position,
                        f,
                        t,
                        skip_hudmenus,
                    ) && f <= ids_end(now[j], list[q], items, position, f, t, skip_hudmenus)
                        <= end;
                assert(now[j] == resources[j]);
                assert(is_patched_room(
                    resources,
                    out,
                    j,
                    list[q],
                    items,
                    position,
                    f,
                    t,
                    skip_hudmenus,
                ));
            }
        }
    }
}

/// A later room, seen from an earlier resource and with a wider range.
proof fn lemma_patched_wider(
    resources: Seq<model::ResourceView>,
    now: Seq<model::ResourceView>,
    out: Seq<model::ResourceView>,
    i: int,
    room: tables::RoomInfoView,
    items: Seq<usize>,
    next: int,
    low: u32,
    high: u32,
    wide_low: u32,
    wide_high: u32,
    t: tables::TablesView,
    skip_hudmenus: bool,
)
    requires
        room_was_patched(now, out, i + 1, room, items, next, low, high, t, skip_hudmenus),
        now.len() == resources.len(),
        forall|k: int| i < k < now.len() ==> #[trigger] now[k] == resources[k],
        wide_low <= low,
        high <= wide_high,
    ensures
        room_was_patched(
            resources,
            out,
            i,
            room,
            items,
            next,
            wide_low,
            wide_high,
            t,
            skip_hudmenus,
        ),
{
    let (j, f) = choose|j: int, f: u32|
        i + 1 <= j && low <= f && #[trigger] is_patched_room(
            now,
            out,
            j,
            room,
            items,
            next,
            f,
            t,
            skip_hudmenus,
        ) && f <= ids_end(now[j], room, items, next, f, t, skip_hudmenus) <= high;
    assert(now[j] == resources[j]);
    assert(is_patched_room(resources, out, j, room, items, next, f, t, skip_hudmenus));
}

/// The ids of a later room come after those of an earlier one.
#[verifier::rlimit(40)]
proof fn lemma_pak_ids_apart(
    resources: Seq<model::ResourceView>,
    i: int,
    list: Seq<tables::RoomInfoView>,
    ri: int,
    items: Seq<usize>,
    next: int,
    fresh: u32,
    totem_texts: Seq<Seq<char>>,
    t: tables::TablesView,
    skip_hudmenus: bool,
    p: int,
    q: int,
) -> (middle: u32)
    requires
        0 <= ri <= p < q < rooms_met(resources, i, list, ri),
        ri <= list.len(),
        pak::patched_from(
            resources,
            i,
            list,
            ri,
            items,
            next,
            fresh,
            totem_texts,
            t,
            skip_hudmenus,
        ) is Some,
    ensures
        ({
            let (out, last, end) = pak::patched_from(
                resources,
                i,
                list,
                ri,
                items,
                next,
                fresh,
                totem_texts,
                t,
                skip_hudmenus,
            )->0;
            &&& room_was_patched(
                resources,
                out,
                i,
                list[p],
                items,
                next + locations_of(list, p) - locations_of(list, ri),
                fresh,
                middle,
                t,
                skip_hudmenus,
            )
            &&& room_was_patched(
                resources,
                out,
                i,
                list[q],
                items,
                next + locations_of(list, q) - locations_of(list, ri),
                middle,
                end,
                t,
                skip_hudmenus,
            )
        }),
    decreases resources.len() - i,
{
    let met = pak::is_next_room(resources[i].key, list, ri);
    let (r, id) = pak::patched_resource(
        resources[i],
        list,
        ri,
        items,
        next,
        fresh,
        totem_texts,
        t,
        skip_hudmenus,
    )->0;
    lemma_resource_uses_ids(
        resources[i],
        list,
        ri,
        items,
        next,
        fresh,
        totem_texts,
        t,
        skip_hudmenus,
    );
    let now = resources.update(i, r);
    let ri2 = if met { ri + 1 } else { ri };
    let next2 = if met { next + list[ri].pickup_locations.len() } else { next };
    lemma_rooms_met(resources, now, i + 1, list, ri2);
    lemma_pak_keeps(now, i + 1, list, ri2, items, next2, id, totem_texts, t, skip_hudmenus);
    let (out, last, end) = pak::patched_from(
        now,
        i + 1,
        list,
        ri2,
        items,
        next2,
        id,
        totem_texts,
        t,
        skip_hudmenus,
    )->0;
    let first_next = next + locations_of(list, p) - locations_of(list, ri);
    let second_next = next + locations_of(list, q) - locations_of(list, ri);
    assert(second_next == next2 + locations_of(list, q) - locations_of(list, ri2));
    if p < ri2 {
        assert(out[i] == r);
        assert(is_patched_room(
            resources,
            out,
            i,
            list[p],
            items,
            first_next,
            fresh,
            t,
            skip_hudmenus,
        ));
        lemma_pak_rooms(
            now,
            i + 1,
            list,
            ri2,
            items,
            next2,
            id,
            totem_texts,
            t,
            skip_hudmenus,
            q,
        );
        lemma_patched_wider(
            resources,
            now,
            out,
            i,
            list[q],
            items,
            second_next,
            id,
            end,
            id,
            end,
            t,
            skip_hudmenus,
        );
        id
    } else {
        assert(first_next == next2 + locations_of(list, p) - locations_of(list, ri2));
        let middle = lemma_pak_ids_apart(
            now,
            i + 1,
            list,
            ri2,
            items,
            next2,
            id,
            totem_texts,
            t,
            skip_hudmenus,
            p,
            q,
        );
        lemma_patched_wider(
            resources,
            now,
            out,
            i,
            list[p],
            items,
            first_next,
            id,
            middle,
            fresh,
            middle,
            t,
            skip_hudmenus,
        );
        lemma_patched_wider(
            resources,
            now,
            out,
            i,
            list[q],
            items,
            second_next,
            middle,
            end,
            middle,
            end,
            t,
            skip_hudmenus,
        );
        middle
    }
}

/// No id is used in two rooms of a pak: the ids of a later room come after those of an earlier
/// one.
pub proof fn law_pak_ids_apart(
    resources: Seq<model::ResourceView>,
    list: Seq<tables::RoomInfoView>,
    items: Seq<usize>,
    next: int,
    fresh: u32,
    totem_texts: Seq<Seq<char>>,
    t: tables::TablesView,
    skip_hudmenus: bool,
    p: int,
    q: int,
) -> (middle: u32)
    requires
        0 <= p < q < rooms_met(resources, 0, list, 0),
        pak::patched_pak(
            resources,
            list,
            items,
            next,
            fresh,
            totem_texts,
            t,
            skip_hudmenus,
        ) is Some,
    ensures
        ({
            let (out, last, end) = pak::patched_pak(
                resources,
                list,
                items,
                next,
                fresh,
                totem_texts,
                t,
                skip_hudmenus,
            )->0;
            &&& room_was_patched(
                resources,
                out,
                0,
                list[p],
                items,
                next + locations_of(list, p),
                fresh,
                middle,
                t,
                skip_hudmenus,
            )
            &&& room_was_patched(
                resources,
                out,
                0,
                list[q],
                items,
                next + locations_of(list, q),
                middle,
                end,
                t,
                skip_hudmenus,
            )
        }),
{
    lemma_pak_ids_apart(
        resources,
        0,
        list,
        0,
        items,
        next,
        fresh,
        totem_texts,
        t,
        skip_hudmenus,
        p,
        q,
    )
}

/// Ids are used up in order: after a pak the next unused id is no smaller than before it.
pub proof fn law_pak_uses_ids(
    resources: Seq<model::ResourceView>,
    list: Seq<tables::RoomInfoView>,
    items: Seq<usize>,
    next: int,
    fresh: u32,
    totem_texts: Seq<Seq<char>>,
    t: tables::TablesView,
    skip_hudmenus: bool,
)
    requires
        pak::patched_pak(
            resources,
            list,
            items,
            next,
            fresh,
            totem_texts,
            t,
            skip_hudmenus,
        ) is Some,
    ensures
        fresh <= (pak::patched_pak(
            resources,
            list,
            items,
            next,
            fresh,
            totem_texts,
            t,
            skip_hudmenus,
        )->0).2,
{
    lemma_pak_uses_ids(
        resources,
        0,
        list,
        0,
        items,
        next,
        fresh,
        totem_texts,
        t,
        skip_hudmenus,
    );
}

/// Patching a pak patches the rooms of the list that it meets, in the order of the list, each with
/// the items that follow those of the rooms before it and with ids from those that the pak uses up;
/// the next pak goes on after the last of them.
pub proof fn law_pak_patches_rooms(
    resources: Seq<model::ResourceView>,
    list: Seq<tables::RoomInfoView>,
    items: Seq<usize>,
    next: int,
    fresh: u32,
    totem_texts: Seq<Seq<char>>,
    t: tables::TablesView,
    skip_hudmenus: bool,
    q: int,
)
    requires
        pak::patched_pak(
            resources,
            list,
            items,
            next,
            fresh,
            totem_texts,
            t,
            skip_hudmenus,
        ) is Some,
    ensures
        ({
            let (out, last, id) = pak::patched_pak(
                resources,
                list,
                items,
                next,
                fresh,
                totem_texts,
                t,
                skip_hudmenus,
            )->0;
            let met = rooms_met(resources, 0, list, 0);
            &&& last == next + locations_of(list, met)
            &&& 0 <= q < met ==> room_was_patched(
                resources,
                out,
                0,
                list[q],
                items,
                next + locations_of(list, q),
                fresh,
                id,
                t,
                skip_hudmenus,
            )
        }),
{
    lemma_pak_rooms(
        resources,
        0,
        list,
        0,
        items,
        next,
        fresh,
        totem_texts,
        t,
        skip_hudmenus,
        q,
    );
}

/// A resource of a pak is a room in which a location holds an item.
pub open spec fn is_room_with_item(
    resource: model::ResourceView,
    room: tables::RoomInfoView,
    i: int,
    location_idx: int,
    item: int,
    t: tables::TablesView,
    skip_hudmenus: bool,
) -> bool {
    &&& resource.key == (ResourceKey { file_id: room.room_id, fourcc: model::MREA })
    &&& match resource.kind {
        model::ResourceKindView::Mrea(a) => rooms::holds_item(
            a,
            room.pickup_locations[i],
            location_idx,
            item,
            t,
            skip_hudmenus,
        ),
        _ => false,
    }
}

/// Every location of every room that a pak meets holds its item after patching: the `n`-th location
/// the `n`-th item, counted from where the pak before it ended.
pub proof fn law_pak_holds_items(
    resources: Seq<model::ResourceView>,
    list: Seq<tables::RoomInfoView>,
    items: Seq<usize>,
    next: int,
    fresh: u32,
    totem_texts: Seq<Seq<char>>,
    t: tables::TablesView,
    skip_hudmenus: bool,
    q: int,
    i: int,
) -> (j: int)
    requires
        pak::patched_pak(
            resources,
            list,
            items,
            next,
            fresh,
            totem_texts,
            t,
            skip_hudmenus,
        ) is Some,
        0 <= q < rooms_met(resources, 0, list, 0),
        rooms::places_apart(list[q].pickup_locations),
        0 <= i < list[q].pickup_locations.len(),
    ensures
        ({
            let out = (pak::patched_pak(
                resources,
                list,
                items,
                next,
                fresh,
                totem_texts,
                t,
                skip_hudmenus,
            )->0).0;
            let n = next + locations_of(list, q) + i;
            &&& n < items.len()
            &&& items[n] < t.items.len()
            &&& 0 <= j < out.len()
            &&& is_room_with_item(out[j], list[q], i, n, items[n] as int, t, skip_hudmenus)
        }),
{
    law_pak_patches_rooms(resources, list, items, next, fresh, totem_texts, t, skip_hudmenus, q);
    law_pak_keeps_resources(resources, list, items, next, fresh, totem_texts, t, skip_hudmenus);
    let (out, last, end) = pak::patched_pak(
        resources,
        list,
        items,
        next,
        fresh,
        totem_texts,
        t,
        skip_hudmenus,
    )->0;
    let position = next + locations_of(list, q);
    let (j, f) = choose|j: int, f: u32|
        0 <= j && fresh <= f && #[trigger] is_patched_room(
            resources,
            out,
            j,
            list[q],
            items,
            position,
            f,
            t,
            skip_hudmenus,
        ) && f <= ids_end(resources[j], list[q], items, position, f, t, skip_hudmenus) <= end;
    match resources[j].kind {
        model::ResourceKindView::Mrea(a) => {
            rooms::law_room_holds_items(a, list[q], items, position, f, t, skip_hudmenus, i);
        },
        _ => {},
    }
    j
}

/// The text of a totem is replaced in every language, and stands last there.
pub proof fn law_totem_text_is_last(
    tables: Seq<model::StringTableView>,
    text: Seq<char>,
    i: int,
)
    requires
        pak::all_have_text(tables),
        0 <= i < tables.len(),
    ensures
        pak::with_last_text(tables, text).len() == tables.len(),
        pak::with_last_text(tables, text)[i].lang == tables[i].lang,
        pak::with_last_text(tables, text)[i].strings.len() == tables[i].strings.len(),
        pak::with_last_text(tables, text)[i].strings.last() == text,
        pak::with_last_text(tables, text)[i].strings.drop_last() == tables[i].strings.drop_last(),
{
    let new = pak::with_last_text(tables, text)[i].strings;
    assert(tables[i].strings.len() > 0);
    assert(new.drop_last() =~= tables[i].strings.drop_last());
}

/// A resource is read before the description of the world, with which the reading ends.
pub open spec fn is_read(resources: Seq<model::ResourceView>, j: int) -> bool {
    &&& 0 <= j < resources.len()
    &&& forall|i: int| 0 <= i <= j ==> (#[trigger] resources[i]).key.fourcc != model::MLVL
}

/// A text of a totem and the scans of the Phazon Mines, after patching.
pub open spec fn is_retold(
    old: model::ResourceView,
    new: model::ResourceView,
    totem_texts: Seq<Seq<char>>,
    t: tables::TablesView,
) -> bool {
    &&& old.key.fourcc == model::STRG && pak::totem_position(old.key.file_id) is Some ==> match (
        old.kind,
        new.kind,
    ) {
        (model::ResourceKindView::Strg(before), model::ResourceKindView::Strg(after)) => {
            &&& pak::all_have_text(before)
            &&& after == pak::with_last_text(
                before,
                totem_texts[pak::totem_position(old.key.file_id)->0],
            )
        },
        _ => false,
    }
    &&& old.key.fourcc == model::SAVW && old.key.file_id == t.ids.phazon_mines_savw ==> match (
        old.kind,
        new.kind,
    ) {
        (model::ResourceKindView::Savw(before), model::ResourceKindView::Savw(after)) => after
            == pak::with_phazon_scan(before, t.ids),
        _ => false,
    }
}

/// Texts and scans from a resource on.
proof fn lemma_pak_retells(
    resources: Seq<model::ResourceView>,
    i: int,
    list: Seq<tables::RoomInfoView>,
    ri: int,
    items: Seq<usize>,
    next: int,
    fresh: u32,
    totem_texts: Seq<Seq<char>>,
    t: tables::TablesView,
    skip_hudmenus: bool,
    j: int,
)
    requires
        pak::patched_from(
            resources,
            i,
            list,
            ri,
            items,
            next,
            fresh,
            totem_texts,
            t,
            skip_hudmenus,
        ) is Some,
        0 <= i <= j < resources.len(),
        forall|k: int| i <= k <= j ==> (#[trigger] resources[k]).key.fourcc != model::MLVL,
    ensures
        is_retold(
            resources[j],
            (pak::patched_from(
                resources,
                i,
                list,
                ri,
                items,
                next,
                fresh,
                totem_texts,
                t,
                skip_hudmenus,
            )->0).0[j],
            totem_texts,
            t,
        ),
    decreases resources.len() - i,
{
    let met = pak::is_next_room(resources[i].key, list, ri);
    let (r, id) = pak::patched_resource(
        resources[i],
        list,
        ri,
        items,
        next,
        fresh,
        totem_texts,
        t,
        skip_hudmenus,
    )->0;
    let now = resources.update(i, r);
    let ri2 = if met { ri + 1 } else { ri };
    let next2 = if met { next + list[ri].pickup_locations.len() } else { next };
    lemma_pak_keeps(now, i + 1, list, ri2, items, next2, id, totem_texts, t, skip_hudmenus);
    if i < j {
        assert forall|k: int| i + 1 <= k <= j implies (#[trigger] now[k]).key.fourcc
            != model::MLVL by {
            assert(now[k] == resources[k]);
        }
        lemma_pak_retells(
            now,
            i + 1,
            list,
            ri2,
            items,
            next2,
            id,
            totem_texts,
            t,
            skip_hudmenus,
            j,
        );
    } else {
        let out = (pak::patched_from(
            now,
            i + 1,
            list,
            ri2,
            items,
            next2,
            id,
            totem_texts,
            t,
            skip_hudmenus,
        )->0).0;
        assert(out[i] == r);
    }
}

/// In a patched pak every totem tells its text, and the Phazon Suit can be scanned.
pub proof fn law_pak_retells(
    resources: Seq<model::ResourceView>,
    list: Seq<tables::RoomInfoView>,
    items: Seq<usize>,
    next: int,
    fresh: u32,
    totem_texts: Seq<Seq<char>>,
    t: tables::TablesView,
    skip_hudmenus: bool,
    j: int,
)
    requires
        pak::patched_pak(
            resources,
            list,
            items,
            next,
            fresh,
            totem_texts,
            t,
            skip_hudmenus,
        ) is Some,
        is_read(resources, j),
    ensures
        is_retold(
            resources[j],
            (pak::patched_pak(
                resources,
                list,
                items,
                next,
                fresh,
                totem_texts,
                t,
                skip_hudmenus,
            )->0).0[j],
            totem_texts,
            t,
        ),
{
    lemma_pak_retells(
        resources,
        0,
        list,
        0,
        items,
        next,
        fresh,
        totem_texts,
        t,
        skip_hudmenus,
        j,
    );
}

} // verus!
