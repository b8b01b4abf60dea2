//! In what turn the resources of a pak, the locations of a room and the paks of a disc are patched.

use vstd::prelude::*;
use crate::area;
use crate::model;
use crate::model::ResourceKey;
use crate::pak;
use crate::patch;
use crate::patched_rooms;
use crate::placing;
use crate::random;
use crate::resources;
use crate::supply;
use crate::tables;
use crate::totems;
use crate::worlds;

verus! {

/// The file ids of the texts of the totems, in the order of the artifacts that they speak of.
pub open spec fn totem_ids() -> Seq<u32> {
    seq![
        0x61729798,
        0xAA2E443D,
        0x8E9C7387,
        0x16B057E3,
        0xB72B7485,
        0x45C0A022,
        0xFAE3D58E,
        0x2CBA3693,
        0xE7E6E536,
        0xC354D28C,
        0xDDEC8446,
        0x7C77A720,
    ]
}

/// A resource is the text of a totem.
pub open spec fn is_totem_text(key: ResourceKey) -> bool {
    key.fourcc == 0x53545247 && totem_ids().contains(key.file_id)
}

/// Texts with the last one of each language replaced, and nothing else changed.
pub open spec fn is_reworded(
    old: Seq<model::StringTableView>,
    new: Seq<model::StringTableView>,
    text: Seq<char>,
) -> bool {
    &&& new.len() == old.len()
    &&& forall|i: int|
        0 <= i < old.len() ==> {
            let last = (#[trigger] old[i]).strings.len() - 1;
            &&& last >= 0
            &&& new[i].lang == old[i].lang
            &&& new[i].strings.len() == old[i].strings.len()
            &&& new[i].strings[last] == text
            &&& forall|k: int|
                0 <= k < last ==> #[trigger] new[i].strings[k] == old[i].strings[k]
        }
}

/// A resource is the room at place `q` of a list.
pub open spec fn is_room_of(key: ResourceKey, list: Seq<tables::RoomInfoView>, q: int) -> bool {
    &&& 0 <= q < list.len()
    &&& key.fourcc == 0x4D524541
    &&& key.file_id == list[q].room_id
}

/// A resource was patched as it should be, when `q` rooms of the list were met before it, and the
/// next unused id was `id` before and `end` after it: the list of scans that the tables name has
/// one more, the text of a totem ends in the text for its artifact, the next room has its items,
/// and any other resource is unchanged.
pub open spec fn is_resource_patched(
    old: model::ResourceView,
    new: model::ResourceView,
    list: Seq<tables::RoomInfoView>,
    q: int,
    items: Seq<usize>,
    next: int,
    id: u32,
    end: u32,
    totem_texts: Seq<Seq<char>>,
    t: tables::TablesView,
    skip_hudmenus: bool,
) -> bool {
    &&& new.key == old.key
    &&& if old.key.fourcc == 0x53415657 && old.key.file_id == t.ids.phazon_mines_savw {
        match (old.kind, new.kind) {
            (model::ResourceKindView::Savw(a), model::ResourceKindView::Savw(b)) => {
                &&& end == id
                &&& b.len() == a.len() + 1
                &&& forall|i: int| 0 <= i < a.len() ==> #[trigger] b[i] == a[i]
                &&& b[a.len() as int].scan == t.ids.phazon_suit_scan
                &&& b[a.len() as int].logbook_category == 0
            },
            _ => false,
        }
    } else if is_totem_text(old.key) {
        match (old.kind, new.kind) {
            (model::ResourceKindView::Strg(a), model::ResourceKindView::Strg(b)) => {
                &&& end == id
                &&& forall|i: int|
                    0 <= i < totem_ids().len() && #[trigger] totem_ids()[i] == old.key.file_id
                        ==> is_reworded(a, b, totem_texts[i])
            },
            _ => false,
        }
    } else if is_room_of(old.key, list, q) {
        match (old.kind, new.kind) {
            (model::ResourceKindView::Mrea(a), model::ResourceKindView::Mrea(b)) => {
                area::patched_area(a, list[q], items, next, id, t, skip_hudmenus) == Some((b, end))
            },
            _ => false,
        }
    } else {
        new == old && end == id
    }
}

/// The ids of the totems' texts are found at their places.
proof fn lemma_totem_positions(file_id: u32)
    ensures
        pak::totem_position(file_id) is Some <==> totem_ids().contains(file_id),
        forall|i: int|
            0 <= i < totem_ids().len() && #[trigger] totem_ids()[i] == file_id
                ==> pak::totem_position(file_id) == Some(i),
{
    let ids = totem_ids();
    match pak::totem_position(file_id) {
        Some(i) => {
            assert(0 <= i < 12 && ids[i] == file_id);
        },
        None => {},
    }
}

/// Replacing the last texts.
proof fn lemma_reworded(
    old: Seq<model::StringTableView>,
    new: Seq<model::StringTableView>,
    text: Seq<char>,
)
    ensures
        is_reworded(old, new, text) <==> pak::all_have_text(old) && new == pak::with_last_text(
            old,
            text,
        ),
{
    let made = pak::with_last_text(old, text);
    if pak::all_have_text(old) {
        assert forall|i: int| 0 <= i < old.len() implies {
            let last = (#[trigger] old[i]).strings.len() - 1;
            &&& last >= 0
            &&& made[i].lang == old[i].lang
            &&& made[i].strings.len() == old[i].strings.len()
            &&& made[i].strings[last] == text
            &&& forall|k: int|
                0 <= k < last ==> #[trigger] made[i].strings[k] == old[i].strings[k]
        } by {
            assert(made[i].strings == old[i].strings.drop_last().push(text));
        }
        assert(is_reworded(old, made, text));
    }
    if is_reworded(old, new, text) {
        assert forall|i: int| 0 <= i < old.len() implies (#[trigger] old[i]).strings.len()
            > 0 by {}
        assert forall|i: int| 0 <= i < old.len() implies #[trigger] new[i] == made[i] by {
            let last = old[i].strings.len() - 1;
            assert(last >= 0);
            assert(new[i].strings =~= made[i].strings);
        }
        assert(new =~= made);
    }
}

/// One resource.
proof fn lemma_resource(
    old: model::ResourceView,
    new: model::ResourceView,
    list: Seq<tables::RoomInfoView>,
    q: int,
    items: Seq<usize>,
    next: int,
    id: u32,
    end: u32,
    totem_texts: Seq<Seq<char>>,
    t: tables::TablesView,
    skip_hudmenus: bool,
)
    ensures
        pak::is_next_room(old.key, list, q) == is_room_of(old.key, list, q),
        is_resource_patched(
            old,
            new,
            list,
            q,
            items,
            next,
            id,
            end,
            totem_texts,
            t,
            skip_hudmenus,
        ) <==> pak::patched_resource(
            old,
            list,
            q,
            items,
            next,
            id,
            totem_texts,
            t,
            skip_hudmenus,
        ) == Some((new, end)),
{
    lemma_totem_positions(old.key.file_id);
    if old.key.fourcc == 0x53415657 && old.key.file_id == t.ids.phazon_mines_savw {
        match (old.kind, new.kind) {
            (model::ResourceKindView::Savw(a), model::ResourceKindView::Savw(b)) => {
                let made = pak::with_phazon_scan(a, t.ids);
                if is_resource_patched(
                    old,
                    new,
                    list,
                    q,
                    items,
                    next,
                    id,
                    end,
                    totem_texts,
                    t,
                    skip_hudmenus,
                ) {
                    assert(b =~= made);
                }
            },
            _ => {},
        }
    } else if is_totem_text(old.key) {
        let i = pak::totem_position(old.key.file_id)->0;
        assert(0 <= i < 12 && totem_ids()[i] == old.key.file_id);
        match (old.kind, new.kind) {
            (model::ResourceKindView::Strg(a), model::ResourceKindView::Strg(b)) => {
                lemma_reworded(a, b, totem_texts[i]);
            },
            _ => {},
        }
    }
}

/// How far the patch of a pak has got before each resource up to the description of the world: the
/// number of rooms that were met, and the next unused id.
pub ghost struct Walk {
    pub met: Seq<int>,
    pub ids: Seq<u32>,
}

/// The resource at place `j` is patched as it should be, and the walk goes on from there.
pub open spec fn is_step(
    resources: Seq<model::ResourceView>,
    out: Seq<model::ResourceView>,
    list: Seq<tables::RoomInfoView>,
    items: Seq<usize>,
    next: int,
    totem_texts: Seq<Seq<char>>,
    t: tables::TablesView,
    skip_hudmenus: bool,
    walk: Walk,
    j: int,
) -> bool {
    &&& resources[j].key.fourcc != 0x4D4C564C
    &&& walk.met[j + 1] == walk.met[j] + if is_room_of(resources[j].key, list, walk.met[j]) {
        1int
    } else {
        0
    }
    &&& is_resource_patched(
        resources[j],
        out[j],
        list,
        walk.met[j],
        items,
        next + worlds::locations_of(list, walk.met[j]),
        walk.ids[j],
        walk.ids[j + 1],
        totem_texts,
        t,
        skip_hudmenus,
    )
}

/// A walk through a pak, from the resource at place `i` up to the description of the world at `m`.
pub open spec fn is_walk_from(
    i: int,
    resources: Seq<model::ResourceView>,
    out: Seq<model::ResourceView>,
    list: Seq<tables::RoomInfoView>,
    items: Seq<usize>,
    next: int,
    totem_texts: Seq<Seq<char>>,
    t: tables::TablesView,
    skip_hudmenus: bool,
    walk: Walk,
    m: int,
) -> bool {
    &&& i <= m < resources.len()
    &&& resources[m].key.fourcc == 0x4D4C564C
    &&& walk.met.len() == m + 1
    &&& walk.ids.len() == m + 1
    &&& forall|j: int|
        i <= j < m ==> #[trigger] is_step(
            resources,
            out,
            list,
            items,
            next,
            totem_texts,
            t,
            skip_hudmenus,
            walk,
            j,
        )
    &&& out.len() == resources.len()
    &&& forall|j: int| m <= j < resources.len() ==> #[trigger] out[j] == resources[j]
}

/// A walk through a pak that starts with no room met.
pub open spec fn is_walk(
    resources: Seq<model::ResourceView>,
    out: Seq<model::ResourceView>,
    list: Seq<tables::RoomInfoView>,
    items: Seq<usize>,
    next: int,
    fresh: u32,
    totem_texts: Seq<Seq<char>>,
    t: tables::TablesView,
    skip_hudmenus: bool,
    walk: Walk,
    m: int,
) -> bool {
    &&& is_walk_from(
        0,
        resources,
        out,
        list,
        items,
        next,
        totem_texts,
        t,
        skip_hudmenus,
        walk,
        m,
    )
    &&& walk.met[0] == 0
    &&& walk.ids[0] == fresh
}

/// A walk tells what comes of patching.
proof fn lemma_walk_patches(
    i: int,
    resources: Seq<model::ResourceView>,
    out: Seq<model::ResourceView>,
    list: Seq<tables::RoomInfoView>,
    items: Seq<usize>,
    next: int,
    totem_texts: Seq<Seq<char>>,
    t: tables::TablesView,
    skip_hudmenus: bool,
    walk: Walk,
    m: int,
)
    requires
        0 <= i <= m,
        0 <= walk.met[i] <= list.len(),
        forall|j: int| 0 <= j < i ==> #[trigger] out[j] == resources[j],
        is_walk_from(
            i,
            resources,
            out,
            list,
            items,
            next,
            totem_texts,
            t,
            skip_hudmenus,
            walk,
            m,
        ),
    ensures
        pak::patched_from(
            resources,
            i,
            list,
            walk.met[i],
            items,
            next + worlds::locations_of(list, walk.met[i]),
            walk.ids[i],
            totem_texts,
            t,
            skip_hudmenus,
        ) == Some((out, next + worlds::locations_of(list, walk.met[m]), walk.ids[m])),
    decreases m - i,
{
    if i == m {
        assert(out =~= resources);
    } else {
        assert(is_step(
            resources,
            out,
            list,
            items,
            next,
            totem_texts,
            t,
            skip_hudmenus,
            walk,
            i,
        ));
        let q = walk.met[i];
        lemma_resource(
            resources[i],
            out[i],
            list,
            q,
            items,
            next + worlds::locations_of(list, q),
            walk.ids[i],
            walk.ids[i + 1],
            totem_texts,
            t,
            skip_hudmenus,
        );
        let now = resources.update(i, out[i]);
        assert forall|j: int| i + 1 <= j < m implies #[trigger] is_step(
            now,
            out,
            list,
            items,
            next,
            totem_texts,
            t,
            skip_hudmenus,
            walk,
            j,
        ) by {
            assert(is_step(
                resources,
                out,
                list,
                items,
                next,
                totem_texts,
                t,
                skip_hudmenus,
                walk,
                j,
            ));
        }
        lemma_walk_patches(
            i + 1,
            now,
            out,
            list,
            items,
            next,
            totem_texts,
            t,
            skip_hudmenus,
            walk,
            m,
        );
    }
}

/// Where patching succeeds there is a walk.
#[verifier::spinoff_prover]
#[verifier::rlimit(40)]
proof fn lemma_patched_is_walk(
    i: int,
    resources: Seq<model::ResourceView>,
    list: Seq<tables::RoomInfoView>,
    q: int,
    items: Seq<usize>,
    next: int,
    fresh: u32,
    totem_texts: Seq<Seq<char>>,
    t: tables::TablesView,
    skip_hudmenus: bool,
) -> (r: (Walk, int))
    requires
        0 <= i,
        0 <= q <= list.len(),
        pak::patched_from(
            resources,
            i,
            list,
            q,
            items,
            next + worlds::locations_of(list, q),
            fresh,
            totem_texts,
            t,
            skip_hudmenus,
        ) is Some,
    ensures
        ({
            let out = (pak::patched_from(
                resources,
                i,
                list,
                q,
                items,
                next + worlds::locations_of(list, q),
                fresh,
                totem_texts,
                t,
                skip_hudmenus,
            )->0).0;
            &&& is_walk_from(
                i,
                resources,
                out,
                list,
                items,
                next,
                totem_texts,
                t,
                skip_hudmenus,
                r.0,
                r.1,
            )
            &&& r.0.met[i] == q
            &&& r.0.ids[i] == fresh
            &&& forall|j: int| 0 <= j < i ==> #[trigger] out[j] == resources[j]
        }),
    decreases resources.len() - i,
{
    if resources[i].key.fourcc == 0x4D4C564C {
        (
            Walk {
                met: Seq::new((i + 1) as nat, |j: int| q),
                ids: Seq::new((i + 1) as nat, |j: int| fresh),
            },
            i,
        )
    } else {
        let start = next + worlds::locations_of(list, q);
        let (r, id) = pak::patched_resource(
            resources[i],
            list,
            q,
            items,
            start,
            fresh,
            totem_texts,
            t,
            skip_hudmenus,
        )->0;
        lemma_resource(
            resources[i],
            r,
            list,
            q,
            items,
            start,
            fresh,
            id,
            totem_texts,
            t,
            skip_hudmenus,
        );
        let now = resources.update(i, r);
        let after = if is_room_of(resources[i].key, list, q) {
            q + 1
        } else {
            q
        };
        let out = (pak::patched_from(
            now,
            i + 1,
            list,
            after,
            items,
            next + worlds::locations_of(list, after),
            id,
            totem_texts,
            t,
            skip_hudmenus,
        )->0).0;
        let (rest, m) = lemma_patched_is_walk(
            i + 1,
            now,
            list,
            after,
            items,
            next,
            id,
            totem_texts,
            t,
            skip_hudmenus,
        );
        let walk = Walk { met: rest.met.update(i, q), ids: rest.ids.update(i, fresh) };
        assert(out[i] == now[i]);
        assert forall|j: int| i <= j < m implies #[trigger] is_step(
            resources,
            out,
            list,
            items,
            next,
            totem_texts,
            t,
            skip_hudmenus,
            walk,
            j,
        ) by {
            if j > i {
                assert(is_step(
                    now,
                    out,
                    list,
                    items,
                    next,
                    totem_texts,
                    t,
                    skip_hudmenus,
                    rest,
                    j,
                ));
            }
        }
        assert forall|j: int| m <= j < resources.len() implies #[trigger] out[j]
            == resources[j] by {
            assert(out[j] == now[j]);
        }
        assert forall|j: int| 0 <= j < i implies #[trigger] out[j] == resources[j] by {
            assert(out[j] == now[j]);
        }
        (walk, m)
    }
}

/// A pak is patched exactly by a walk through it up to the first description of a world: every
/// resource before that is patched as it should be, in turn, and all others stay. Among them, the
/// text of each totem ends, in every language, in what is to be said of its artifact.
pub proof fn law_pak_is_walked(
    resources: Seq<model::ResourceView>,
    list: Seq<tables::RoomInfoView>,
    items: Seq<usize>,
    next: int,
    fresh: u32,
    totem_texts: Seq<Seq<char>>,
    t: tables::TablesView,
    skip_hudmenus: bool,
    out: Seq<model::ResourceView>,
    end: int,
    id: u32,
)
    ensures
        pak::patched_pak(
            resources,
            list,
            items,
            next,
            fresh,
            totem_texts,
            t,
            skip_hudmenus,
        ) == Some((out, end, id)) <==> exists|walk: Walk, m: int| #[trigger]
            is_walk(
                resources,
                out,
                list,
                items,
                next,
                fresh,
                totem_texts,
                t,
                skip_hudmenus,
                walk,
                m,
            ) && end == next + worlds::locations_of(list, walk.met[m]) && id == walk.ids[m],
{
    let patched = pak::patched_pak(
        resources,
        list,
        items,
        next,
        fresh,
        totem_texts,
        t,
        skip_hudmenus,
    );
    if exists|walk: Walk, m: int| #[trigger]
        is_walk(
            resources,
            out,
            list,
            items,
            next,
            fresh,
            totem_texts,
            t,
            skip_hudmenus,
            walk,
            m,
        ) && end == next + worlds::locations_of(list, walk.met[m]) && id == walk.ids[m] {
        let (walk, m) = choose|walk: Walk, m: int| #[trigger]
            is_walk(
                resources,
                out,
                list,
                items,
                next,
                fresh,
                totem_texts,
                t,
                skip_hudmenus,
                walk,
                m,
            ) && end == next + worlds::locations_of(list, walk.met[m]) && id == walk.ids[m];
        lemma_walk_patches(
            0,
            resources,
            out,
            list,
            items,
            next,
            totem_texts,
            t,
            skip_hudmenus,
            walk,
            m,
        );
    }
    if patched == Some((out, end, id)) {
        let (walk, m) = lemma_patched_is_walk(
            0,
            resources,
            list,
            0,
            items,
            next,
            fresh,
            totem_texts,
            t,
            skip_hudmenus,
        );
        assert(is_walk(
            resources,
            out,
            list,
            items,
            next,
            fresh,
            totem_texts,
            t,
            skip_hudmenus,
            walk,
            m,
        ));
        lemma_walk_patches(
            0,
            resources,
            out,
            list,
            items,
            next,
            totem_texts,
            t,
            skip_hudmenus,
            walk,
            m,
        );
    }
}

/// In a patched pak the text of a totem, met before the description of the world, ends in every
/// language in what is to be said of the artifact at its place; nothing else of it changes.
pub proof fn law_totems_are_told(
    resources: Seq<model::ResourceView>,
    list: Seq<tables::RoomInfoView>,
    items: Seq<usize>,
    next: int,
    fresh: u32,
    totem_texts: Seq<Seq<char>>,
    t: tables::TablesView,
    skip_hudmenus: bool,
    j: int,
    i: int,
)
    requires
        pak::patched_pak(
            resources,
            list,
            items,
            next,
            fresh,
            totem_texts,
            t,
            skip_hudmenus,
        ) is Some,
        0 <= j < resources.len(),
        forall|k: int|
            0 <= k < j ==> (#[trigger] resources[k]).key.fourcc != 0x4D4C564C,
        0 <= i < 12,
        resources[j].key == (ResourceKey { file_id: totem_ids()[i], fourcc: 0x53545247 }),
    ensures
        ({
            let new = (pak::patched_pak(
                resources,
                list,
                items,
                next,
                fresh,
                totem_texts,
                t,
                skip_hudmenus,
            )->0).0[j];
            &&& new.key == resources[j].key
            &&& match (resources[j].kind, new.kind) {
                (model::ResourceKindView::Strg(a), model::ResourceKindView::Strg(b)) => {
                    is_reworded(a, b, totem_texts[i])
                },
                _ => false,
            }
        }),
{
    let (out, end, id) = pak::patched_pak(
        resources,
        list,
        items,
        next,
        fresh,
        totem_texts,
        t,
        skip_hudmenus,
    )->0;
    law_pak_is_walked(
        resources,
        list,
        items,
        next,
        fresh,
        totem_texts,
        t,
        skip_hudmenus,
        out,
        end,
        id,
    );
    let (walk, m) = choose|walk: Walk, m: int| #[trigger]
        is_walk(
            resources,
            out,
            list,
            items,
            next,
            fresh,
            totem_texts,
            t,
            skip_hudmenus,
            walk,
            m,
        ) && end == next + worlds::locations_of(list, walk.met[m]) && id == walk.ids[m];
    assert(j < m);
    assert(is_step(resources, out, list, items, next, totem_texts, t, skip_hudmenus, walk, j));
    assert(totem_ids()[i] == resources[j].key.file_id);
}

/// The states of a room while its items are put there, each with the next unused id: first without
/// what is to be removed, then after each of its locations.
pub open spec fn is_room_walk(
    a: model::AreaView,
    room: tables::RoomInfoView,
    items: Seq<usize>,
    next: int,
    fresh: u32,
    t: tables::TablesView,
    skip_hudmenus: bool,
    states: Seq<(model::AreaView, u32)>,
) -> bool {
    let places = room.pickup_locations;
    &&& forall|k: int|
        0 <= k < room.objects_to_remove.len() ==> (#[trigger] room.objects_to_remove[k]).layer
            < a.layers.len()
    &&& states.len() == places.len() + 1
    &&& states[0] == (
        model::AreaView { layers: patched_rooms::left_layers(a, room), ..a },
        fresh,
    )
    &&& forall|k: int|
        0 <= k < places.len() ==> #[trigger] is_placed(
            places,
            items,
            next,
            t,
            skip_hudmenus,
            states,
            k,
        )
}

/// The item of the location at place `k` of a room is put there: the item with the number of the
/// location among all.
pub open spec fn is_placed(
    places: Seq<tables::PickupLocationView>,
    items: Seq<usize>,
    next: int,
    t: tables::TablesView,
    skip_hudmenus: bool,
    states: Seq<(model::AreaView, u32)>,
    k: int,
) -> bool {
    &&& next + k < items.len()
    &&& items[next + k] < t.items.len()
    &&& area::with_location(
        states[k].0,
        places[k],
        next + k,
        items[next + k] as int,
        places.len() == 1,
        states[k].1,
        t,
        skip_hudmenus,
    ) == Some(states[k + 1])
}

/// The states of a room tell what comes of its locations.
proof fn lemma_states(
    places: Seq<tables::PickupLocationView>,
    items: Seq<usize>,
    next: int,
    t: tables::TablesView,
    skip_hudmenus: bool,
    states: Seq<(model::AreaView, u32)>,
    k: int,
)
    requires
        0 <= k <= places.len(),
        states.len() == places.len() + 1,
        forall|i: int|
            0 <= i < places.len() ==> #[trigger] is_placed(
                places,
                items,
                next,
                t,
                skip_hudmenus,
                states,
                i,
            ),
    ensures
        area::with_locations(
            states[k].0,
            places,
            k,
            items,
            next + k,
            states[k].1,
            t,
            skip_hudmenus,
        ) == Some(states[places.len() as int]),
    decreases places.len() - k,
{
    if k < places.len() {
        assert(is_placed(places, items, next, t, skip_hudmenus, states, k));
        lemma_states(places, items, next, t, skip_hudmenus, states, k + 1);
    }
}

/// Where the items are put at the locations there are such states.
proof fn lemma_states_exist(
    a: model::AreaView,
    places: Seq<tables::PickupLocationView>,
    k: int,
    items: Seq<usize>,
    next: int,
    fresh: u32,
    t: tables::TablesView,
    skip_hudmenus: bool,
) -> (states: Seq<(model::AreaView, u32)>)
    requires
        0 <= k <= places.len(),
        area::with_locations(a, places, k, items, next + k, fresh, t, skip_hudmenus) is Some,
    ensures
        states.len() == places.len() + 1,
        states[k] == (a, fresh),
        forall|i: int|
            k <= i < places.len() ==> #[trigger] is_placed(
                places,
                items,
                next,
                t,
                skip_hudmenus,
                states,
                i,
            ),
    decreases places.len() - k,
{
    if k < places.len() {
        let (b, id) = area::with_location(
            a,
            places[k],
            next + k,
            items[next + k] as int,
            places.len() == 1,
            fresh,
            t,
            skip_hudmenus,
        )->0;
        let rest = lemma_states_exist(b, places, k + 1, items, next, id, t, skip_hudmenus);
        let states = rest.update(k, (a, fresh));
        assert forall|i: int| k <= i < places.len() implies #[trigger] is_placed(
            places,
            items,
            next,
            t,
            skip_hudmenus,
            states,
            i,
        ) by {
            if i > k {
                assert(is_placed(places, items, next, t, skip_hudmenus, rest, i));
            }
        }
        states
    } else {
        Seq::new((k + 1) as nat, |i: int| (a, fresh))
    }
}

/// A room is patched exactly by removing what is to be removed and then putting the item of each
/// location, in turn: the `k`-th location of the room gets the item that comes `k` after the first
/// of the room in the list of all.
pub proof fn law_room_is_walked(
    a: model::AreaView,
    room: tables::RoomInfoView,
    items: Seq<usize>,
    next: int,
    fresh: u32,
    t: tables::TablesView,
    skip_hudmenus: bool,
    out: model::AreaView,
    id: u32,
)
    ensures
        area::patched_area(a, room, items, next, fresh, t, skip_hudmenus) == Some((out, id))
            <==> exists|states: Seq<(model::AreaView, u32)>| #[trigger]
            is_room_walk(a, room, items, next, fresh, t, skip_hudmenus, states) && (out, id)
                == states[room.pickup_locations.len() as int],
{
    let places = room.pickup_locations;
    let patched = area::patched_area(a, room, items, next, fresh, t, skip_hudmenus);
    let left = patched_rooms::left_layers(a, room);
    placing::law_removal_leaves(a.layers, room.objects_to_remove);
    if area::without_objects(a.layers, room.objects_to_remove) is Some {
        assert(area::without_objects(a.layers, room.objects_to_remove)->0 =~= left);
    }
    if exists|states: Seq<(model::AreaView, u32)>| #[trigger]
        is_room_walk(a, room, items, next, fresh, t, skip_hudmenus, states) && (out, id)
            == states[places.len() as int] {
        let states = choose|states: Seq<(model::AreaView, u32)>| #[trigger]
            is_room_walk(a, room, items, next, fresh, t, skip_hudmenus, states) && (out, id)
                == states[places.len() as int];
        lemma_states(places, items, next, t, skip_hudmenus, states, 0);
    }
    if patched == Some((out, id)) {
        let first = model::AreaView { layers: left, ..a };
        let states = lemma_states_exist(
            first,
            places,
            0,
            items,
            next,
            fresh,
            t,
            skip_hudmenus,
        );
        lemma_states(places, items, next, t, skip_hudmenus, states, 0);
        assert(is_room_walk(a, room, items, next, fresh, t, skip_hudmenus, states));
    }
}

/// The pak of the `w`-th world was patched in its turn.
pub open spec fn is_world_step(
    entries: Seq<model::EntryView>,
    out: Seq<model::EntryView>,
    items: Seq<usize>,
    totem_texts: Seq<Seq<char>>,
    t: tables::TablesView,
    skip_hudmenus: bool,
    starts: Seq<int>,
    ids: Seq<u32>,
    w: int,
) -> bool {
    exists|f: int| #[trigger]
        supply::is_first_named(entries, supply::world_names()[w], f) && match (
            entries[f].file,
            out[f].file,
        ) {
            (Some(model::FileView::Pak(old)), Some(model::FileView::Pak(new))) => {
                pak::patched_pak(
                    old,
                    t.rooms[w],
                    items,
                    starts[w],
                    ids[w],
                    totem_texts,
                    t,
                    skip_hudmenus,
                ) == Some((new, starts[w + 1], ids[w + 1]))
            },
            _ => false,
        }
}

/// The worlds from the `v`-th on were patched, one after another, and no other file changed.
pub open spec fn is_disc_walk_from(
    v: int,
    entries: Seq<model::EntryView>,
    out: Seq<model::EntryView>,
    items: Seq<usize>,
    totem_texts: Seq<Seq<char>>,
    t: tables::TablesView,
    skip_hudmenus: bool,
    starts: Seq<int>,
    ids: Seq<u32>,
) -> bool {
    &&& starts.len() == 6
    &&& ids.len() == 6
    &&& forall|w: int|
        v <= w < 5 ==> #[trigger] is_world_step(
            entries,
            out,
            items,
            totem_texts,
            t,
            skip_hudmenus,
            starts,
            ids,
            w,
        )
    &&& out.len() == entries.len()
    &&& forall|f: int|
        0 <= f < entries.len() ==> {
            &&& (#[trigger] out[f]).name == entries[f].name
            &&& !is_pak_from(v, entries, f) ==> out[f] == entries[f]
        }
}

/// A file is the pak of a world from the `v`-th on.
pub open spec fn is_pak_from(v: int, entries: Seq<model::EntryView>, f: int) -> bool {
    exists|w: int|
        v <= w < 5 && #[trigger] supply::is_first_named(entries, supply::world_names()[w], f)
}

/// No two worlds have the same name.
proof fn lemma_world_names_apart(v: int, w: int)
    requires
        0 <= v < 5,
        0 <= w < 5,
        v != w,
    ensures
        supply::world_names()[v] != supply::world_names()[w],
{
    reveal_strlit("Metroid2.pak");
    reveal_strlit("Metroid3.pak");
    reveal_strlit("Metroid4.pak");
    reveal_strlit("metroid5.pak");
    reveal_strlit("Metroid6.pak");
    assert(supply::world_names()[v][7] != supply::world_names()[w][7]);
}

/// Changing the file of the pak of a world leaves the others to be found where they were.
proof fn lemma_other_paks(
    entries: Seq<model::EntryView>,
    v: int,
    f: int,
    new: model::EntryView,
    w: int,
    g: int,
)
    requires
        0 <= v < 5,
        0 <= w < 5,
        supply::is_first_named(entries, supply::world_names()[v], f),
        new.name == entries[f].name,
    ensures
        supply::is_first_named(entries.update(f, new), supply::world_names()[w], g)
            <==> supply::is_first_named(entries, supply::world_names()[w], g),
        v != w && supply::is_first_named(entries, supply::world_names()[w], g) ==> g != f,
        v == w && supply::is_first_named(entries, supply::world_names()[w], g) ==> g == f,
{
    let now = entries.update(f, new);
    let name = supply::world_names()[w];
    assert forall|j: int| 0 <= j < entries.len() implies (#[trigger] now[j]).name
        == entries[j].name by {}
    if supply::is_first_named(now, name, g) {
        assert forall|j: int| 0 <= j < g implies (#[trigger] entries[j]).name != name by {
            assert(now[j].name == entries[j].name);
        }
    }
    if v != w {
        lemma_world_names_apart(v, w);
    } else {
        supply::lemma_found(entries, name, f);
        supply::lemma_found(entries, name, g);
    }
}

/// A walk through the worlds tells what comes of patching them.
#[verifier::spinoff_prover]
#[verifier::rlimit(40)]
proof fn lemma_disc_walk_patches(
    v: int,
    entries: Seq<model::EntryView>,
    out: Seq<model::EntryView>,
    items: Seq<usize>,
    totem_texts: Seq<Seq<char>>,
    t: tables::TablesView,
    skip_hudmenus: bool,
    starts: Seq<int>,
    ids: Seq<u32>,
)
    requires
        0 <= v <= 5,
        is_disc_walk_from(
            v,
            entries,
            out,
            items,
            totem_texts,
            t,
            skip_hudmenus,
            starts,
            ids,
        ),
    ensures
        patch::worlds_patched(
            entries,
            v,
            items,
            starts[v],
            ids[v],
            totem_texts,
            t,
            skip_hudmenus,
        ) == Some(out),
    decreases 5 - v,
{
    assert(resources::pak_names() =~= supply::world_names());
    if v == 5 {
        assert forall|f: int| 0 <= f < entries.len() implies #[trigger] out[f] == entries[f] by {
            assert(!is_pak_from(v, entries, f));
        }
        assert(out =~= entries);
    } else {
        assert(is_world_step(
            entries,
            out,
            items,
            totem_texts,
            t,
            skip_hudmenus,
            starts,
            ids,
            v,
        ));
        let name = supply::world_names()[v];
        let f = choose|f: int| #[trigger]
            supply::is_first_named(entries, name, f) && match (entries[f].file, out[f].file) {
                (Some(model::FileView::Pak(old)), Some(model::FileView::Pak(new))) => {
                    pak::patched_pak(
                        old,
                        t.rooms[v],
                        items,
                        starts[v],
                        ids[v],
                        totem_texts,
                        t,
                        skip_hudmenus,
                    ) == Some((new, starts[v + 1], ids[v + 1]))
                },
                _ => false,
            };
        supply::lemma_found(entries, name, f);
        let now = entries.update(f, out[f]);
        assert(out[f].name == entries[f].name);
        assert(out[f] == (model::EntryView { file: out[f].file, ..entries[f] }));
        assert forall|w: int| v + 1 <= w < 5 implies #[trigger] is_world_step(
            now,
            out,
            items,
            totem_texts,
            t,
            skip_hudmenus,
            starts,
            ids,
            w,
        ) by {
            assert(is_world_step(
                entries,
                out,
                items,
                totem_texts,
                t,
                skip_hudmenus,
                starts,
                ids,
                w,
            ));
            let g = choose|g: int| #[trigger]
                supply::is_first_named(entries, supply::world_names()[w], g) && match (
                    entries[g].file,
                    out[g].file,
                ) {
                    (Some(model::FileView::Pak(old)), Some(model::FileView::Pak(new))) => {
                        pak::patched_pak(
                            old,
                            t.rooms[w],
                            items,
                            starts[w],
                            ids[w],
                            totem_texts,
                            t,
                            skip_hudmenus,
                        ) == Some((new, starts[w + 1], ids[w + 1]))
                    },
                    _ => false,
                };
            lemma_other_paks(entries, v, f, out[f], w, g);
            assert(supply::is_first_named(now, supply::world_names()[w], g));
            assert(now[g] == entries[g]);
        }
        assert forall|g: int| 0 <= g < now.len() implies {
            &&& (#[trigger] out[g]).name == now[g].name
            &&& !is_pak_from(v + 1, now, g) ==> out[g] == now[g]
        } by {
            if g != f && !is_pak_from(v + 1, now, g) {
                if is_pak_from(v, entries, g) {
                    let w = choose|w: int|
                        v <= w < 5 && #[trigger] supply::is_first_named(
                            entries,
                            supply::world_names()[w],
                            g,
                        );
                    lemma_other_paks(entries, v, f, out[f], w, g);
                    assert(supply::is_first_named(now, supply::world_names()[w], g));
                }
            }
        }
        lemma_disc_walk_patches(
            v + 1,
            now,
            out,
            items,
            totem_texts,
            t,
            skip_hudmenus,
            starts,
            ids,
        );
    }
}

/// Where the worlds are patched there is a walk through them.
#[verifier::spinoff_prover]
#[verifier::rlimit(60)]
proof fn lemma_patched_is_disc_walk(
    v: int,
    entries: Seq<model::EntryView>,
    items: Seq<usize>,
    next: int,
    fresh: u32,
    totem_texts: Seq<Seq<char>>,
    t: tables::TablesView,
    skip_hudmenus: bool,
) -> (r: (Seq<int>, Seq<u32>))
    requires
        0 <= v <= 5,
        patch::worlds_patched(
            entries,
            v,
            items,
            next,
            fresh,
            totem_texts,
            t,
            skip_hudmenus,
        ) is Some,
    ensures
        r.0.len() == 6,
        r.1.len() == 6,
        r.0[v] == next,
        r.1[v] == fresh,
        is_disc_walk_from(
            v,
            entries,
            patch::worlds_patched(
                entries,
                v,
                items,
                next,
                fresh,
                totem_texts,
                t,
                skip_hudmenus,
            )->0,
            items,
            totem_texts,
            t,
            skip_hudmenus,
            r.0,
            r.1,
        ),
    decreases 5 - v,
{
    assert(resources::pak_names() =~= supply::world_names());
    if v == 5 {
        (Seq::new(6, |i: int| next), Seq::new(6, |i: int| fresh))
    } else {
        let out = patch::worlds_patched(
            entries,
            v,
            items,
            next,
            fresh,
            totem_texts,
            t,
            skip_hudmenus,
        )->0;
        let name = supply::world_names()[v];
        let f = crate::files::first_named(entries, name)->0;
        supply::lemma_found(entries, name, f);
        let old = patch::pak_in(entries[f].file)->0;
        let (new, position, id) = pak::patched_pak(
            old,
            t.rooms[v],
            items,
            next,
            fresh,
            totem_texts,
            t,
            skip_hudmenus,
        )->0;
        let entry = model::EntryView { file: Some(model::FileView::Pak(new)), ..entries[f] };
        let now = entries.update(f, entry);
        let (later, more) = lemma_patched_is_disc_walk(
            v + 1,
            now,
            items,
            position,
            id,
            totem_texts,
            t,
            skip_hudmenus,
        );
        let starts = later.update(v, next);
        let ids = more.update(v, fresh);
        assert(out[f] == entry) by {
            if is_pak_from(v + 1, now, f) {
                let w = choose|w: int|
                    v + 1 <= w < 5 && #[trigger] supply::is_first_named(
                        now,
                        supply::world_names()[w],
                        f,
                    );
                lemma_other_paks(entries, v, f, entry, w, f);
            }
            assert(out[f].name == now[f].name);
        }
        assert forall|w: int| v <= w < 5 implies #[trigger] is_world_step(
            entries,
            out,
            items,
            totem_texts,
            t,
            skip_hudmenus,
            starts,
            ids,
            w,
        ) by {
            if w == v {
                assert(supply::is_first_named(entries, supply::world_names()[w], f));
            } else {
                assert(is_world_step(
                    now,
                    out,
                    items,
                    totem_texts,
                    t,
                    skip_hudmenus,
                    later,
                    more,
                    w,
                ));
                let g = choose|g: int| #[trigger]
                    supply::is_first_named(now, supply::world_names()[w], g) && match (
                        now[g].file,
                        out[g].file,
                    ) {
                        (Some(model::FileView::Pak(old)), Some(model::FileView::Pak(new))) => {
                            pak::patched_pak(
                                old,
                                t.rooms[w],
                                items,
                                later[w],
                                more[w],
                                totem_texts,
                                t,
                                skip_hudmenus,
                            ) == Some((new, later[w + 1], more[w + 1]))
                        },
                        _ => false,
                    };
                lemma_other_paks(entries, v, f, entry, w, g);
                assert(supply::is_first_named(entries, supply::world_names()[w], g));
                assert(now[g] == entries[g]);
            }
        }
        assert forall|g: int| 0 <= g < entries.len() implies {
            &&& (#[trigger] out[g]).name == entries[g].name
            &&& !is_pak_from(v, entries, g) ==> out[g] == entries[g]
        } by {
            assert(out[g].name == now[g].name);
            if !is_pak_from(v, entries, g) {
                assert(g != f) by {
                    assert(supply::is_first_named(entries, supply::world_names()[v], f));
                }
                if is_pak_from(v + 1, now, g) {
                    let w = choose|w: int|
                        v + 1 <= w < 5 && #[trigger] supply::is_first_named(
                            now,
                            supply::world_names()[w],
                            g,
                        );
                    lemma_other_paks(entries, v, f, entry, w, g);
                    assert(supply::is_first_named(entries, supply::world_names()[w], g));
                }
                assert(out[g] == now[g]);
            }
        }
        (starts, ids)
    }
}

/// Given items are put on a disc, and given texts told, exactly by patching the paks of the worlds
/// one after another: the first with the first of the items, and each other with those that follow
/// the last of the one before. Ids are counted on from world to world, from 0xDEEF0000 on. No other
/// file changes.
pub proof fn law_worlds_are_walked(
    entries: Seq<model::EntryView>,
    items: Seq<usize>,
    totem_texts: Seq<Seq<char>>,
    t: tables::TablesView,
    skip_hudmenus: bool,
    out: Seq<model::EntryView>,
)
    ensures
        patch::worlds_patched(
            entries,
            0,
            items,
            0,
            0xDEEF0000,
            totem_texts,
            t,
            skip_hudmenus,
        ) == Some(out) <==> exists|starts: Seq<int>, ids: Seq<u32>|
            starts[0] == 0 && ids[0] == 0xDEEF0000 && #[trigger] is_disc_walk_from(
                0,
                entries,
                out,
                items,
                totem_texts,
                t,
                skip_hudmenus,
                starts,
                ids,
            ),
{
    let patched = patch::worlds_patched(
        entries,
        0,
        items,
        0,
        0xDEEF0000,
        totem_texts,
        t,
        skip_hudmenus,
    );
    if exists|starts: Seq<int>, ids: Seq<u32>|
        starts[0] == 0 && ids[0] == 0xDEEF0000 && #[trigger] is_disc_walk_from(
            0,
            entries,
            out,
            items,
            totem_texts,
            t,
            skip_hudmenus,
            starts,
            ids,
        ) {
        let (starts, ids) = choose|starts: Seq<int>, ids: Seq<u32>|
            starts[0] == 0 && ids[0] == 0xDEEF0000 && #[trigger] is_disc_walk_from(
                0,
                entries,
                out,
                items,
                totem_texts,
                t,
                skip_hudmenus,
                starts,
                ids,
            );
        lemma_disc_walk_patches(
            0,
            entries,
            out,
            items,
            totem_texts,
            t,
            skip_hudmenus,
            starts,
            ids,
        );
    }
    if patched == Some(out) {
        let (starts, ids) = lemma_patched_is_disc_walk(
            0,
            entries,
            items,
            0,
            0xDEEF0000,
            totem_texts,
            t,
            skip_hudmenus,
        );
    }
}

/// The items of a layout are put on a disc exactly where the resources are there and the paks of
/// the worlds can be patched one after another, with the items that are chosen for the layout and
/// the texts that its totems are given.
pub proof fn law_disc_is_walked(
    entries: Seq<model::EntryView>,
    layout: Seq<u8>,
    words: Seq<u32>,
    t: tables::TablesView,
    skip_hudmenus: bool,
    out: Seq<model::EntryView>,
)
    ensures
        patch::pickups_modified(entries, layout, words, t, skip_hudmenus) == Some(out) <==> {
            &&& patch::resources_ready(entries, t, skip_hudmenus)
            &&& exists|starts: Seq<int>, ids: Seq<u32>|
                starts[0] == 0 && ids[0] == 0xDEEF0000 && #[trigger] is_disc_walk_from(
                    0,
                    entries,
                    out,
                    patch::resolved(layout, totems::words_after_totems(words)).0,
                    totems::random_totem_texts(layout, words, t),
                    t,
                    skip_hudmenus,
                    starts,
                    ids,
                )
        },
{
    law_worlds_are_walked(
        entries,
        patch::resolved(layout, totems::words_after_totems(words)).0,
        totems::random_totem_texts(layout, words, t),
        t,
        skip_hudmenus,
        out,
    );
}

/// On a disc that has the items of a layout, the text of each totem that the pak of a world holds
/// before its description ends in every language in what the totem of that artifact is given to
/// say for the layout.
pub proof fn law_disc_tells_of_artifacts(
    entries: Seq<model::EntryView>,
    layout: Seq<u8>,
    words: Seq<u32>,
    t: tables::TablesView,
    skip_hudmenus: bool,
    w: int,
    old: Seq<model::ResourceView>,
    j: int,
    i: int,
) -> (new: Seq<model::ResourceView>)
    requires
        patch::pickups_modified(entries, layout, words, t, skip_hudmenus) is Some,
        0 <= w < 5,
        supply::is_world(entries, w, old),
        0 <= j < old.len(),
        forall|k: int| 0 <= k < j ==> (#[trigger] old[k]).key.fourcc != 0x4D4C564C,
        0 <= i < 12,
        old[j].key == (ResourceKey { file_id: totem_ids()[i], fourcc: 0x53545247 }),
    ensures
        supply::is_world(
            patch::pickups_modified(entries, layout, words, t, skip_hudmenus)->0,
            w,
            new,
        ),
        new.len() == old.len(),
        new[j].key == old[j].key,
        match (old[j].kind, new[j].kind) {
            (model::ResourceKindView::Strg(a), model::ResourceKindView::Strg(b)) => is_reworded(
                a,
                b,
                totems::random_totem_texts(layout, words, t)[i],
            ),
            _ => false,
        },
{
    let out = patch::pickups_modified(entries, layout, words, t, skip_hudmenus)->0;
    let items = patch::resolved(layout, totems::words_after_totems(words)).0;
    let texts = totems::random_totem_texts(layout, words, t);
    law_disc_is_walked(entries, layout, words, t, skip_hudmenus, out);
    let (starts, ids) = choose|starts: Seq<int>, ids: Seq<u32>|
        starts[0] == 0 && ids[0] == 0xDEEF0000 && #[trigger] is_disc_walk_from(
            0,
            entries,
            out,
            items,
            texts,
            t,
            skip_hudmenus,
            starts,
            ids,
        );
    assert(is_world_step(entries, out, items, texts, t, skip_hudmenus, starts, ids, w));
    let name = supply::world_names()[w];
    let f = choose|f: int| #[trigger]
        supply::is_first_named(entries, name, f) && match (entries[f].file, out[f].file) {
            (Some(model::FileView::Pak(held)), Some(model::FileView::Pak(made))) => {
                pak::patched_pak(
                    held,
                    t.rooms[w],
                    items,
                    starts[w],
                    ids[w],
                    texts,
                    t,
                    skip_hudmenus,
                ) == Some((made, starts[w + 1], ids[w + 1]))
            },
            _ => false,
        };
    let g = choose|g: int| #[trigger]
        supply::is_first_named(entries, name, g) && entries[g].file == Some(
            model::FileView::Pak(old),
        );
    supply::lemma_found(entries, name, f);
    supply::lemma_found(entries, name, g);
    let new = patch::pak_in(out[f].file)->0;
    assert(supply::is_first_named(out, name, f)) by {
        assert(out[f].name == entries[f].name);
        assert forall|k: int| 0 <= k < f implies (#[trigger] out[k]).name != name by {
            assert(entries[k].name != name);
        }
    }
    assert(supply::is_world(out, w, new));
    law_totems_are_told(
        old,
        t.rooms[w],
        items,
        starts[w],
        ids[w],
        texts,
        t,
        skip_hudmenus,
        j,
        i,
    );
    worlds::law_pak_keeps_resources(
        old,
        t.rooms[w],
        items,
        starts[w],
        ids[w],
        texts,
        t,
        skip_hudmenus,
    );
    new
}

/// What is put at a location of a layout, and the generator words before and after: 35 stands for
/// no item, and is put there as 35 or, where a coin that falls so once in four says it, as 36; any
/// other item is put there as it is, and draws nothing.
pub open spec fn is_chosen(
    layout: Seq<u8>,
    items: Seq<usize>,
    words: Seq<Seq<u32>>,
    k: int,
) -> bool {
    if layout[k] == 35 {
        let (second, later) = random::weighted_bool_outcome(words[k], 4);
        &&& words[k + 1] == later
        &&& items[k] == if second {
            36usize
        } else {
            35
        }
    } else {
        items[k] == layout[k] && words[k + 1] == words[k]
    }
}

/// The items are chosen one after another, each with the generator words that the one before left.
pub proof fn law_items_are_chosen(layout: Seq<u8>, words: Seq<u32>) -> (states: Seq<Seq<u32>>)
    ensures
        states.len() == layout.len() + 1,
        states[0] == words,
        patch::resolved(layout, words).0.len() == layout.len(),
        patch::resolved(layout, words).1 == states[layout.len() as int],
        forall|k: int|
            0 <= k < layout.len() ==> #[trigger] is_chosen(
                layout,
                patch::resolved(layout, words).0,
                states,
                k,
            ),
    decreases layout.len(),
{
    if layout.len() == 0 {
        seq![words]
    } else {
        let front = layout.drop_last();
        let earlier = law_items_are_chosen(front, words);
        let states = earlier.push(patch::resolved(layout, words).1);
        let items = patch::resolved(layout, words).0;
        assert forall|k: int| 0 <= k < layout.len() implies #[trigger] is_chosen(
            layout,
            items,
            states,
            k,
        ) by {
            if k < front.len() {
                assert(is_chosen(front, patch::resolved(front, words).0, earlier, k));
            }
        }
        states
    }
}

} // verus!
