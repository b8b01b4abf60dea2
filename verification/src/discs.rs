//! What patching promises of a disc.

use vstd::prelude::*;
use crate::area;
use crate::files;
use crate::model;
use crate::model::ResourceKey;
use crate::pak;
use crate::patch;
use crate::patch::PatchOptions;
use crate::resources;
use crate::rooms;
use crate::starting_items;
use crate::tables;
use crate::tables::ObjectLocation;
use crate::totems;
use crate::worlds;

verus! {

/// The same names in the same order.
pub open spec fn same_names(a: Seq<model::EntryView>, b: Seq<model::EntryView>) -> bool {
    &&& a.len() == b.len()
    &&& forall|i: int| 0 <= i < a.len() ==> (#[trigger] b[i]).name == a[i].name
}

/// Where a name is found depends on the names alone.
proof fn lemma_same_place(a: Seq<model::EntryView>, b: Seq<model::EntryView>, name: Seq<char>)
    requires
        same_names(a, b),
    ensures
        files::first_named(a, name) == files::first_named(b, name),
{
    files::lemma_first_named(a, name);
    files::lemma_first_named(b, name);
    match (files::first_named(a, name), files::first_named(b, name)) {
        (Some(i), Some(j)) => {
            assert(b[i].name == a[i].name);
            assert(b[j].name == a[j].name);
        },
        (Some(i), None) => {
            assert(b[i].name == a[i].name);
        },
        (None, Some(j)) => {
            assert(b[j].name == a[j].name);
        },
        (None, None) => {},
    }
}

/// No two of the paks have the same name.
proof fn lemma_pak_names_differ(v: int, w: int)
    requires
        0 <= v < tables::WORLD_COUNT,
        0 <= w < tables::WORLD_COUNT,
        v != w,
    ensures
        resources::pak_names()[v] != resources::pak_names()[w],
{
    reveal_strlit("Metroid2.pak");
    reveal_strlit("Metroid3.pak");
    reveal_strlit("Metroid4.pak");
    reveal_strlit("metroid5.pak");
    reveal_strlit("Metroid6.pak");
    let a = resources::pak_names()[v];
    let b = resources::pak_names()[w];
    assert(a[7] != b[7]);
}

/// The pak of a world.
pub open spec fn world_pak(entries: Seq<model::EntryView>, w: int) -> Option<
    Seq<model::ResourceView>,
> {
    match files::first_named(entries, resources::pak_names()[w]) {
        Some(i) => patch::pak_in(entries[i].file),
        None => None,
    }
}

/// The number of locations that are met before a world.
pub open spec fn world_start(
    entries: Seq<model::EntryView>,
    t: tables::TablesView,
    w: int,
) -> int
    decreases w,
{
    if w <= 0 {
        0
    } else {
        world_start(entries, t, w - 1) + worlds::locations_of(
            t.rooms[w - 1],
            worlds::rooms_met(world_pak(entries, w - 1)->0, 0, t.rooms[w - 1], 0),
        )
    }
}

/// The worlds from the `v`-th on are as they were.
spec fn worlds_untouched(
    first: Seq<model::EntryView>,
    now: Seq<model::EntryView>,
    v: int,
) -> bool {
    forall|u: int|
        v <= u < tables::WORLD_COUNT ==> #[trigger] world_pak(now, u) == world_pak(first, u)
}

/// Patching a world changes no other.
proof fn lemma_other_worlds(
    now: Seq<model::EntryView>,
    w: int,
    i: int,
    file: Option<model::FileView>,
    u: int,
)
    requires
        0 <= w < tables::WORLD_COUNT,
        0 <= u < tables::WORLD_COUNT,
        u != w,
        files::first_named(now, resources::pak_names()[w]) == Some(i),
    ensures
        same_names(now, now.update(i, model::EntryView { file, ..now[i] })),
        world_pak(now.update(i, model::EntryView { file, ..now[i] }), u) == world_pak(now, u),
{
    let next = now.update(i, model::EntryView { file, ..now[i] });
    files::lemma_first_named(now, resources::pak_names()[w]);
    files::lemma_first_named(now, resources::pak_names()[u]);
    lemma_same_place(now, next, resources::pak_names()[u]);
    lemma_pak_names_differ(u, w);
}

/// A world's pak was patched with the items from `next` on.
pub open spec fn world_was_patched(
    before: Option<Seq<model::ResourceView>>,
    after: Option<Seq<model::ResourceView>>,
    w: int,
    items: Seq<usize>,
    next: int,
    fresh: u32,
    totem_texts: Seq<Seq<char>>,
    t: tables::TablesView,
    skip_hudmenus: bool,
) -> bool {
    match (before, after) {
        (Some(old), Some(new)) => {
            let patched = pak::patched_pak(
                old,
                t.rooms[w],
                items,
                next,
                fresh,
                totem_texts,
                t,
                skip_hudmenus,
            );
            patched is Some && (patched->0).0 == new
        },
        _ => false,
    }
}

/// Patching the worlds from the `v`-th on patches the `w`-th, and changes no file but their paks.
#[verifier::rlimit(40)]
proof fn lemma_worlds(
    first: Seq<model::EntryView>,
    now: Seq<model::EntryView>,
    v: int,
    items: Seq<usize>,
    next: int,
    fresh: u32,
    totem_texts: Seq<Seq<char>>,
    t: tables::TablesView,
    skip_hudmenus: bool,
    w: int,
) -> (id: u32)
    requires
        0 <= v <= tables::WORLD_COUNT,
        0 <= w < tables::WORLD_COUNT,
        same_names(first, now),
        worlds_untouched(first, now, v),
        patch::worlds_patched(now, v, items, next, fresh, totem_texts, t, skip_hudmenus) is Some,
    ensures
        ({
            let out = patch::worlds_patched(
                now,
                v,
                items,
                next,
                fresh,
                totem_texts,
                t,
                skip_hudmenus,
            )->0;
            &&& same_names(now, out)
            &&& v <= w ==> fresh <= id
            &&& w < v ==> world_pak(out, w) == world_pak(now, w)
            &&& v <= w ==> world_was_patched(
                world_pak(first, w),
                world_pak(out, w),
                w,
                items,
                next + world_start(first, t, w) - world_start(first, t, v),
                id,
                totem_texts,
                t,
                skip_hudmenus,
            )
            &&& forall|j: int|
                0 <= j < now.len() && !resources::pak_names().contains(now[j].name)
                    ==> #[trigger] out[j] == now[j]
        }),
    decreases tables::WORLD_COUNT - v,
{
    if v < tables::WORLD_COUNT {
        let name = resources::pak_names()[v];
        let i = files::first_named(now, name)->0;
        files::lemma_first_named(now, name);
        lemma_same_place(first, now, name);
        let old = patch::pak_in(now[i].file)->0;
        assert(world_pak(now, v) == world_pak(first, v));
        let (new, position, end) = pak::patched_pak(
            old,
            t.rooms[v],
            items,
            next,
            fresh,
            totem_texts,
            t,
            skip_hudmenus,
        )->0;
        worlds::law_pak_patches_rooms(
            old,
            t.rooms[v],
            items,
            next,
            fresh,
            totem_texts,
            t,
            skip_hudmenus,
            0,
        );
        worlds::law_pak_uses_ids(
            old,
            t.rooms[v],
            items,
            next,
            fresh,
            totem_texts,
            t,
            skip_hudmenus,
        );
        let file = Some(model::FileView::Pak(new));
        let after = now.update(i, model::EntryView { file, ..now[i] });
        assert forall|u: int|
            0 <= u < tables::WORLD_COUNT && u != v implies #[trigger] world_pak(after, u)
            == world_pak(now, u) by {
            lemma_other_worlds(now, v, i, file, u);
        }
        assert(same_names(now, after));
        lemma_same_place(now, after, name);
        assert(world_pak(after, v) == Some(new));
        let id = lemma_worlds(
            first,
            after,
            v + 1,
            items,
            position,
            end,
            totem_texts,
            t,
            skip_hudmenus,
            w,
        );
        assert(resources::pak_names().contains(now[i].name));
        if w == v {
            fresh
        } else {
            id
        }
    } else {
        fresh
    }
}

/// The paks of all worlds are patched, each with the items that follow those of the worlds before
/// it and with ids from the first that patching may use on, and no other file changes.
pub proof fn law_worlds_are_patched(
    entries: Seq<model::EntryView>,
    items: Seq<usize>,
    totem_texts: Seq<Seq<char>>,
    t: tables::TablesView,
    skip_hudmenus: bool,
    w: int,
) -> (id: u32)
    requires
        0 <= w < tables::WORLD_COUNT,
        patch::worlds_patched(
            entries,
            0,
            items,
            0,
            patch::FIRST_FRESH_ID,
            totem_texts,
            t,
            skip_hudmenus,
        ) is Some,
    ensures
        ({
            let out = patch::worlds_patched(
                entries,
                0,
                items,
                0,
                patch::FIRST_FRESH_ID,
                totem_texts,
                t,
                skip_hudmenus,
            )->0;
            &&& same_names(entries, out)
            &&& patch::FIRST_FRESH_ID <= id
            &&& world_was_patched(
                world_pak(entries, w),
                world_pak(out, w),
                w,
                items,
                world_start(entries, t, w),
                id,
                totem_texts,
                t,
                skip_hudmenus,
            )
            &&& forall|j: int|
                0 <= j < entries.len() && !resources::pak_names().contains(entries[j].name)
                    ==> #[trigger] out[j] == entries[j]
        }),
{
    lemma_worlds(
        entries,
        entries,
        0,
        items,
        0,
        patch::FIRST_FRESH_ID,
        totem_texts,
        t,
        skip_hudmenus,
        w,
    )
}

/// The next unused id after a world was patched.
pub open spec fn world_ids_end(
    before: Option<Seq<model::ResourceView>>,
    w: int,
    items: Seq<usize>,
    next: int,
    fresh: u32,
    totem_texts: Seq<Seq<char>>,
    t: tables::TablesView,
    skip_hudmenus: bool,
) -> u32 {
    (pak::patched_pak(
        before->0,
        t.rooms[w],
        items,
        next,
        fresh,
        totem_texts,
        t,
        skip_hudmenus,
    )->0).2
}

/// The ids of a later world come after those of an earlier one.
#[verifier::rlimit(80)]
proof fn lemma_worlds_ids(
    first: Seq<model::EntryView>,
    now: Seq<model::EntryView>,
    u: int,
    items: Seq<usize>,
    next: int,
    fresh: u32,
    totem_texts: Seq<Seq<char>>,
    t: tables::TablesView,
    skip_hudmenus: bool,
    v: int,
    w: int,
) -> (ids: (u32, u32))
    requires
        0 <= u <= v < w < tables::WORLD_COUNT,
        same_names(first, now),
        worlds_untouched(first, now, u),
        patch::worlds_patched(now, u, items, next, fresh, totem_texts, t, skip_hudmenus) is Some,
    ensures
        ({
            let out = patch::worlds_patched(
                now,
                u,
                items,
                next,
                fresh,
                totem_texts,
                t,
                skip_hudmenus,
            )->0;
            let next_v = next + world_start(first, t, v) - world_start(first, t, u);
            let next_w = next + world_start(first, t, w) - world_start(first, t, u);
            &&& world_was_patched(
                world_pak(first, v),
                world_pak(out, v),
                v,
                items,
                next_v,
                ids.0,
                totem_texts,
                t,
                skip_hudmenus,
            )
            &&& world_was_patched(
                world_pak(first, w),
                world_pak(out, w),
                w,
                items,
                next_w,
                ids.1,
                totem_texts,
                t,
                skip_hudmenus,
            )
            &&& world_ids_end(
                world_pak(first, v),
                v,
                items,
                next_v,
                ids.0,
                totem_texts,
                t,
                skip_hudmenus,
            ) <= ids.1
        }),
    decreases tables::WORLD_COUNT - u,
{
    let name = resources::pak_names()[u];
    let i = files::first_named(now, name)->0;
    files::lemma_first_named(now, name);
    lemma_same_place(first, now, name);
    let old = patch::pak_in(now[i].file)->0;
    assert(world_pak(now, u) == world_pak(first, u));
    let (new, position, end) = pak::patched_pak(
        old,
        t.rooms[u],
        items,
        next,
        fresh,
        totem_texts,
        t,
        skip_hudmenus,
    )->0;
    worlds::law_pak_patches_rooms(
        old,
        t.rooms[u],
        items,
        next,
        fresh,
        totem_texts,
        t,
        skip_hudmenus,
        0,
    );
    let file = Some(model::FileView::Pak(new));
    let after = now.update(i, model::EntryView { file, ..now[i] });
    assert forall|x: int|
        0 <= x < tables::WORLD_COUNT && x != u implies #[trigger] world_pak(after, x)
        == world_pak(now, x) by {
        lemma_other_worlds(now, u, i, file, x);
    }
    assert(same_names(now, after));
    lemma_same_place(now, after, name);
    assert(world_pak(after, u) == Some(new));
    if u == v {
        let id = lemma_worlds(
            first,
            after,
            u + 1,
            items,
            position,
            end,
            totem_texts,
            t,
            skip_hudmenus,
            w,
        );
        lemma_worlds(
            first,
            after,
            u + 1,
            items,
            position,
            end,
            totem_texts,
            t,
            skip_hudmenus,
            v,
        );
        (fresh, id)
    } else {
        lemma_worlds_ids(
            first,
            after,
            u + 1,
            items,
            position,
            end,
            totem_texts,
            t,
            skip_hudmenus,
            v,
            w,
        )
    }
}

/// No id is used in two worlds: the ids of a later world come after those of an earlier one.
pub proof fn law_worlds_ids_apart(
    entries: Seq<model::EntryView>,
    items: Seq<usize>,
    totem_texts: Seq<Seq<char>>,
    t: tables::TablesView,
    skip_hudmenus: bool,
    v: int,
    w: int,
) -> (ids: (u32, u32))
    requires
        0 <= v < w < tables::WORLD_COUNT,
        patch::worlds_patched(
            entries,
            0,
            items,
            0,
            patch::FIRST_FRESH_ID,
            totem_texts,
            t,
            skip_hudmenus,
        ) is Some,
    ensures
        ({
            let out = patch::worlds_patched(
                entries,
                0,
                items,
                0,
                patch::FIRST_FRESH_ID,
                totem_texts,
                t,
                skip_hudmenus,
            )->0;
            &&& world_was_patched(
                world_pak(entries, v),
                world_pak(out, v),
                v,
                items,
                world_start(entries, t, v),
                ids.0,
                totem_texts,
                t,
                skip_hudmenus,
            )
            &&& world_was_patched(
                world_pak(entries, w),
                world_pak(out, w),
                w,
                items,
                world_start(entries, t, w),
                ids.1,
                totem_texts,
                t,
                skip_hudmenus,
            )
            &&& world_ids_end(
                world_pak(entries, v),
                v,
                items,
                world_start(entries, t, v),
                ids.0,
                totem_texts,
                t,
                skip_hudmenus,
            ) <= ids.1
        }),
{
    lemma_worlds_ids(
        entries,
        entries,
        0,
        items,
        0,
        patch::FIRST_FRESH_ID,
        totem_texts,
        t,
        skip_hudmenus,
        v,
        w,
    )
}

/// The items at the locations are those of the layout; only where that has none may one of two
/// looks stand.
pub proof fn law_layout_is_kept(layout: Seq<u8>, words: Seq<u32>, n: int)
    requires
        0 <= n < layout.len(),
    ensures
        patch::resolved(layout, words).0.len() == layout.len(),
        patch::resolved(layout, words).0[n] == layout[n] || (layout[n] == patch::NOTHING
            && patch::resolved(layout, words).0[n] == patch::NOTHING + 1),
    decreases layout.len(),
{
    let front = layout.drop_last();
    lemma_resolved_len(front, words);
    if n < front.len() {
        law_layout_is_kept(front, words, n);
    }
}

/// One item for each location.
proof fn lemma_resolved_len(layout: Seq<u8>, words: Seq<u32>)
    ensures
        patch::resolved(layout, words).0.len() == layout.len(),
    decreases layout.len(),
{
    if layout.len() > 0 {
        lemma_resolved_len(layout.drop_last(), words);
    }
}

/// What is found is a spawn point.
proof fn lemma_spawn_point_found(objects: Seq<model::ObjectView>)
    requires
        starting_items::first_spawn_point(objects) is Some,
    ensures
        0 <= starting_items::first_spawn_point(objects)->0 < objects.len(),
        objects[starting_items::first_spawn_point(objects)->0].property_data is SpawnPoint,
    decreases objects.len(),
{
    if objects.len() > 0 && !(objects[0].property_data is SpawnPoint) {
        lemma_spawn_point_found(objects.drop_first());
    }
}

/// What is found is among the resources.
proof fn lemma_room_found(resources: Seq<model::ResourceView>)
    requires
        starting_items::first_room(resources) is Some,
    ensures
        0 <= starting_items::first_room(resources)->0 < resources.len(),
    decreases resources.len(),
{
    if resources.len() > 0 && resources[0].key.fourcc != model::MREA {
        lemma_room_found(resources.drop_first());
    }
}

/// Setting the starting items moves no item: what a location held, it holds.
proof fn lemma_starting_items_keep(
    old: Seq<model::ResourceView>,
    items: u64,
    j: int,
    room: tables::RoomInfoView,
    i: int,
    location_idx: int,
    item: int,
    t: tables::TablesView,
    skip_hudmenus: bool,
)
    requires
        starting_items::with_starting_items(old, items) is Some,
        0 <= j < old.len(),
        worlds::is_room_with_item(old[j], room, i, location_idx, item, t, skip_hudmenus),
    ensures
        starting_items::with_starting_items(old, items)->0.len() == old.len(),
        worlds::is_room_with_item(
            starting_items::with_starting_items(old, items)->0[j],
            room,
            i,
            location_idx,
            item,
            t,
            skip_hudmenus,
        ),
{
    let r = starting_items::first_room(old)->0;
    lemma_room_found(old);
    if j == r {
        match old[r].kind {
            model::ResourceKindView::Mrea(a) => {
                let objects = a.layers[0];
                lemma_spawn_point_found(objects);
                let changed = starting_items::with_spawn_items(objects, items)->0;
                let b = model::AreaView { layers: a.layers.update(0, changed), ..a };
                assert forall|at: ObjectLocation|
                    (#[trigger] rooms::object_at(a, at)) is Some && !(rooms::object_at(
                        a,
                        at,
                    )->0.property_data is SpawnPoint) implies rooms::object_at(b, at)
                    == rooms::object_at(a, at) by {
                    if at.layer == 0 {
                        area::lemma_first_with_id(objects, at.instance_id);
                        rooms::lemma_first_stays(objects, changed, at.instance_id);
                    }
                }
                let place = room.pickup_locations[i];
                assert(rooms::object_at(a, place.location) is Some);
                assert(rooms::object_at(a, place.hudmemo) is Some);
                assert(rooms::object_at(a, place.attainment_audio) is Some);
            },
            _ => {},
        }
    }
}

/// Changing the file of one entry keeps the names and the other files.
proof fn lemma_with_file(
    entries: Seq<model::EntryView>,
    name: Seq<char>,
    change: spec_fn(Option<model::FileView>) -> Option<Option<model::FileView>>,
)
    requires
        patch::with_file(entries, name, change) is Some,
    ensures
        ({
            let out = patch::with_file(entries, name, change)->0;
            let i = files::first_named(entries, name)->0;
            &&& same_names(entries, out)
            &&& 0 <= i < entries.len()
            &&& entries[i].name == name
            &&& Some(out[i].file) == change(entries[i].file)
            &&& forall|j: int|
                0 <= j < entries.len() && j != i ==> #[trigger] out[j] == entries[j]
            &&& forall|j: int|
                0 <= j < entries.len() && entries[j].name != name ==> #[trigger] out[j]
                    == entries[j]
        }),
{
    files::lemma_first_named(entries, name);
}

/// The names of the files that may differ after patching.
pub open spec fn is_patchable_file(name: Seq<char>) -> bool {
    ||| resources::pak_names().contains(name)
    ||| name == "default.dol"@
    ||| name == "Metroid1.pak"@
    ||| files::fmv_names().contains(name)
}

/// The paks of the worlds are none of the other files that are patched.
proof fn lemma_pak_is_no_other(w: int)
    requires
        0 <= w < tables::WORLD_COUNT,
    ensures
        resources::pak_names()[w] != "default.dol"@,
        resources::pak_names()[w] != "Metroid1.pak"@,
        !files::fmv_names().contains(resources::pak_names()[w]),
{
    reveal_strlit("Metroid2.pak");
    reveal_strlit("Metroid3.pak");
    reveal_strlit("Metroid4.pak");
    reveal_strlit("metroid5.pak");
    reveal_strlit("Metroid6.pak");
    reveal_strlit("default.dol");
    reveal_strlit("Metroid1.pak");
    reveal_strlit("attract0.thp");
    reveal_strlit("attract1.thp");
    reveal_strlit("attract2.thp");
    reveal_strlit("attract3.thp");
    reveal_strlit("attract4.thp");
    reveal_strlit("attract5.thp");
    reveal_strlit("attract6.thp");
    reveal_strlit("attract7.thp");
    reveal_strlit("attract8.thp");
    reveal_strlit("attract9.thp");
    let name = resources::pak_names()[w];
    assert(name[7] != "Metroid1.pak"@[7]);
    assert(name.len() != "default.dol"@.len());
    assert(name[1] == 'e');
    assert forall|i: int| 0 <= i < files::fmv_names().len() implies #[trigger] files::fmv_names()[i]
        != name by {
        assert(files::fmv_names()[i][1] == 't');
    }
}

/// Finishing keeps the names, and changes no file that is not to be patched; of the paks of the
/// worlds it changes only the one with the starting items.
proof fn lemma_finished(entries: Seq<model::EntryView>, options: PatchOptions, w: int)
    requires
        patch::finished(entries, options) is Some,
        0 <= w < tables::WORLD_COUNT,
    ensures
        ({
            let out = patch::finished(entries, options)->0;
            &&& same_names(entries, out)
            &&& forall|j: int|
                0 <= j < entries.len() && !is_patchable_file(entries[j].name)
                    ==> #[trigger] out[j] == entries[j]
            &&& world_pak(out, w) == match options.starting_items {
                Some(items) if w == 2 => starting_items::with_starting_items(
                    world_pak(entries, w)->0,
                    items,
                ),
                _ => world_pak(entries, w),
            }
            &&& w == 2 && options.starting_items is Some ==> world_pak(entries, w) is Some
                && world_pak(out, w) is Some
        }),
{
    let name = resources::pak_names()[w];
    lemma_pak_is_no_other(w);
    files::lemma_first_named(entries, name);
    let first = if options.skip_frigate {
        let middle = patch::with_file(entries, "default.dol"@, |f| patch::dol_patched(f))->0;
        lemma_with_file(entries, "default.dol"@, |f| patch::dol_patched(f));
        lemma_with_file(middle, "Metroid1.pak"@, |f| patch::emptied(f));
        let first = patch::frigate_skipped(entries)->0;
        lemma_same_place(entries, middle, name);
        lemma_same_place(middle, first, name);
        first
    } else {
        entries
    };
    assert(same_names(entries, first));
    lemma_same_place(entries, first, name);
    assert(world_pak(first, w) == world_pak(entries, w));
    let second = match options.starting_items {
        Some(items) => {
            let change = |f| patch::starting_items_set(f, items);
            let second = patch::with_file(first, "Metroid4.pak"@, change)->0;
            lemma_with_file(first, "Metroid4.pak"@, change);
            lemma_same_place(first, second, name);
            if w != 2 {
                lemma_pak_names_differ(w, 2);
            }
            assert(resources::pak_names()[2] == "Metroid4.pak"@);
            assert(resources::pak_names().contains("Metroid4.pak"@));
            second
        },
        None => first,
    };
    assert(same_names(entries, second));
    let out = patch::finished(entries, options)->0;
    assert(same_names(second, out));
    lemma_same_place(second, out, name);
    files::lemma_first_named(second, name);
}

/// A patched disc has the files of the old one, with their names and in their order. Only the main
/// program, the paks of the worlds and the films of the attract mode may differ.
pub proof fn law_disc_keeps_files(
    entries: Seq<model::EntryView>,
    layout: Seq<u8>,
    words: Seq<u32>,
    t: tables::TablesView,
    options: PatchOptions,
)
    requires
        patch::patched_entries(entries, layout, words, t, options) is Some,
    ensures
        ({
            let out = patch::patched_entries(entries, layout, words, t, options)->0;
            &&& same_names(entries, out)
            &&& forall|j: int|
                0 <= j < entries.len() && !is_patchable_file(entries[j].name)
                    ==> #[trigger] out[j] == entries[j]
        }),
{
    let placed = patch::pickups_modified(entries, layout, words, t, options.skip_hudmenus)->0;
    law_worlds_are_patched(
        entries,
        patch::resolved(layout, totems::words_after_totems(words)).0,
        totems::random_totem_texts(layout, words, t),
        t,
        options.skip_hudmenus,
        0,
    );
    lemma_finished(placed, options, 0);
}

/// Every location of every room that is met on a patched disc holds the item that the layout names
/// for it; only where the layout has none may one of two looks stand. The `i`-th location of the
/// `q`-th room of the `w`-th world is the `n`-th of all.
pub proof fn law_disc_holds_items(
    entries: Seq<model::EntryView>,
    layout: Seq<u8>,
    words: Seq<u32>,
    t: tables::TablesView,
    options: PatchOptions,
    w: int,
    q: int,
    i: int,
) -> (j: int)
    requires
        patch::patched_entries(entries, layout, words, t, options) is Some,
        0 <= w < tables::WORLD_COUNT,
        0 <= q < worlds::rooms_met(world_pak(entries, w)->0, 0, t.rooms[w], 0),
        rooms::places_apart(t.rooms[w][q].pickup_locations),
        0 <= i < t.rooms[w][q].pickup_locations.len(),
    ensures
        ({
            let out = patch::patched_entries(entries, layout, words, t, options)->0;
            let items = patch::resolved(layout, totems::words_after_totems(words)).0;
            let n = world_start(entries, t, w) + worlds::locations_of(t.rooms[w], q) + i;
            &&& 0 <= n < layout.len()
            &&& items[n] == layout[n] || (layout[n] == patch::NOTHING && items[n]
                == patch::NOTHING + 1)
            &&& world_pak(out, w) is Some
            &&& 0 <= j < world_pak(out, w)->0.len()
            &&& worlds::is_room_with_item(
                world_pak(out, w)->0[j],
                t.rooms[w][q],
                i,
                n,
                items[n] as int,
                t,
                options.skip_hudmenus,
            )
        }),
{
    let placed = patch::pickups_modified(entries, layout, words, t, options.skip_hudmenus)->0;
    let items = patch::resolved(layout, totems::words_after_totems(words)).0;
    let texts = totems::random_totem_texts(layout, words, t);
    let id = law_worlds_are_patched(entries, items, texts, t, options.skip_hudmenus, w);
    let start = world_start(entries, t, w);
    let n = start + worlds::locations_of(t.rooms[w], q) + i;
    let j = worlds::law_pak_holds_items(
        world_pak(entries, w)->0,
        t.rooms[w],
        items,
        start,
        id,
        texts,
        t,
        options.skip_hudmenus,
        q,
        i,
    );
    lemma_start_is_natural(entries, t, w);
    lemma_locations_are_natural(t.rooms[w], q);
    lemma_resolved_len(layout, totems::words_after_totems(words));
    law_layout_is_kept(layout, totems::words_after_totems(words), n);
    lemma_finished(placed, options, w);
    match options.starting_items {
        Some(number) => {
            if w == 2 {
                lemma_starting_items_keep(
                    world_pak(placed, w)->0,
                    number,
                    j,
                    t.rooms[w][q],
                    i,
                    n,
                    items[n] as int,
                    t,
                    options.skip_hudmenus,
                );
            }
        },
        None => {},
    }
    j
}

/// A number of locations is no less than nothing.
proof fn lemma_locations_are_natural(list: Seq<tables::RoomInfoView>, n: int)
    ensures
        worlds::locations_of(list, n) >= 0,
    decreases n,
{
    if n > 0 {
        lemma_locations_are_natural(list, n - 1);
    }
}

/// A number of locations is no less than nothing.
proof fn lemma_start_is_natural(entries: Seq<model::EntryView>, t: tables::TablesView, w: int)
    ensures
        world_start(entries, t, w) >= 0,
    decreases w,
{
    if w > 0 {
        lemma_start_is_natural(entries, t, w - 1);
        lemma_locations_are_natural(
            t.rooms[w - 1],
            worlds::rooms_met(world_pak(entries, w - 1)->0, 0, t.rooms[w - 1], 0),
        );
    }
}

/// Every resource that a room asks for, for any item, has a source on the disc.
pub proof fn law_needed_resources_have_sources(
    entries: Seq<model::EntryView>,
    t: tables::TablesView,
    skip_hudmenus: bool,
    item: int,
    key: ResourceKey,
)
    requires
        skip_hudmenus ==> t.has_message_ids(),
        patch::resources_ready(entries, t, skip_hudmenus),
        0 <= item < t.items.len(),
        area::needed_resources(t, item, skip_hudmenus).contains(key),
    ensures
        patch::final_source(entries, t, skip_hudmenus, key) is Some,
{
    let deps = t.items[item].deps;
    let needed = area::needed_resources(t, item, skip_hudmenus);
    let i = choose|i: int| 0 <= i < needed.len() && needed[i] == key;
    if i < deps.len() {
        assert(deps[i] == key);
        assert(deps.contains(key));
        assert(resources::is_wanted(t.items, key));
    }
}

/// The first level is skipped: the main program is the patched one, and the pak of the level is
/// empty.
pub proof fn law_frigate_is_skipped(entries: Seq<model::EntryView>)
    requires
        patch::frigate_skipped(entries) is Some,
    ensures
        ({
            let out = patch::frigate_skipped(entries)->0;
            let dol = files::first_named(entries, "default.dol"@)->0;
            let pak = files::first_named(entries, "Metroid1.pak"@)->0;
            &&& same_names(entries, out)
            &&& Some(out[dol].file) == patch::dol_patched(entries[dol].file)
            &&& Some(out[pak].file) == patch::emptied(entries[pak].file)
        }),
{
    reveal_strlit("default.dol");
    reveal_strlit("Metroid1.pak");
    let middle = patch::with_file(entries, "default.dol"@, |f| patch::dol_patched(f))->0;
    lemma_with_file(entries, "default.dol"@, |f| patch::dol_patched(f));
    lemma_with_file(middle, "Metroid1.pak"@, |f| patch::emptied(f));
    lemma_same_place(entries, middle, "Metroid1.pak"@);
    assert("default.dol"@.len() != "Metroid1.pak"@.len());
}

} // verus!
