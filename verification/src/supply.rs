//! Where the resources that rooms are given come from, stated by the files of the disc.

use vstd::prelude::*;
use crate::files;
use crate::model;
use crate::model::ResourceKey;
use crate::patch;
use crate::resources;
use crate::resources::ResourceSource;
use crate::tables;
use crate::tables::AssetIds;

verus! {

/// The files of the worlds with pickups.
pub open spec fn world_names() -> Seq<Seq<char>> {
    seq!["Metroid2.pak"@, "Metroid3.pak"@, "Metroid4.pak"@, "metroid5.pak"@, "Metroid6.pak"@]
}

/// The `f`-th entry is the first with a name.
pub open spec fn is_first_named(
    entries: Seq<model::EntryView>,
    name: Seq<char>,
    f: int,
) -> bool {
    &&& 0 <= f < entries.len()
    &&& entries[f].name == name
    &&& forall|j: int| 0 <= j < f ==> (#[trigger] entries[j]).name != name
}

/// A file is found by its name.
pub proof fn lemma_found(entries: Seq<model::EntryView>, name: Seq<char>, f: int)
    ensures
        is_first_named(entries, name, f) <==> files::first_named(entries, name) == Some(f),
{
    files::lemma_first_named(entries, name);
    match files::first_named(entries, name) {
        Some(g) => {
            if is_first_named(entries, name, f) {
                if f < g {
                    assert(entries[f].name != name);
                } else if g < f {
                    assert(entries[g].name != name);
                }
            }
        },
        None => {
            if 0 <= f < entries.len() {
                assert(entries[f].name != name);
            }
        },
    }
}

/// The resources of the file of a world.
pub open spec fn is_world(
    entries: Seq<model::EntryView>,
    w: int,
    resources: Seq<model::ResourceView>,
) -> bool {
    exists|f: int| #[trigger]
        is_first_named(entries, world_names()[w], f) && entries[f].file == Some(
            model::FileView::Pak(resources),
        )
}

/// The resources of the files of all worlds, no more of them than can be counted.
pub open spec fn are_worlds(
    entries: Seq<model::EntryView>,
    worlds: Seq<Seq<model::ResourceView>>,
) -> bool {
    &&& worlds.len() == 5
    &&& forall|w: int| 0 <= w < 5 ==> #[trigger] is_world(entries, w, worlds[w])
    &&& forall|w: int| 0 <= w < 5 ==> (#[trigger] worlds[w]).len() <= usize::MAX
}

/// An item needs a resource.
pub open spec fn is_needed(t: tables::TablesView, key: ResourceKey) -> bool {
    exists|item: int|
        0 <= item < t.items.len() && (#[trigger] t.items[item]).deps.contains(key)
}

/// A world holds a resource at a place.
pub open spec fn holds_at(
    worlds: Seq<Seq<model::ResourceView>>,
    w: int,
    i: int,
    key: ResourceKey,
) -> bool {
    &&& 0 <= w < worlds.len()
    &&& 0 <= i < worlds[w].len()
    &&& worlds[w][i].key == key
}

/// No world holds a resource.
pub open spec fn is_nowhere(worlds: Seq<Seq<model::ResourceView>>, key: ResourceKey) -> bool {
    forall|w: int, i: int| !#[trigger] holds_at(worlds, w, i, key)
}

/// The model of the Phazon Suit, which is made.
pub open spec fn made_model(ids: AssetIds) -> ResourceKey {
    ResourceKey { file_id: ids.phazon_suit_cmdl, fourcc: 0x434D444C }
}

/// The character of the Phazon Suit, which is made.
pub open spec fn made_character(ids: AssetIds) -> ResourceKey {
    ResourceKey { file_id: ids.phazon_suit_ancs, fourcc: 0x414E4353 }
}

/// The keys of a world's resources.
proof fn lemma_world_keys(
    entries: Seq<model::EntryView>,
    worlds: Seq<Seq<model::ResourceView>>,
    w: int,
)
    requires
        are_worlds(entries, worlds),
        0 <= w < 5,
    ensures
        resources::pak_keys(entries, resources::pak_names()[w]) == Some(
            worlds[w].map_values(|r: model::ResourceView| r.key),
        ),
{
    assert(is_world(entries, w, worlds[w]));
    let f = choose|f: int| #[trigger]
        is_first_named(entries, world_names()[w], f) && entries[f].file == Some(
            model::FileView::Pak(worlds[w]),
        );
    lemma_found(entries, world_names()[w], f);
    assert(resources::pak_names()[w] == world_names()[w]);
}

/// What the first offer of a resource among those of a world is.
proof fn lemma_offer_in_world(w: int, keys: Seq<ResourceKey>, n: int, key: ResourceKey)
    requires
        0 <= w < 5,
        0 <= n <= keys.len(),
        keys.len() <= usize::MAX,
    ensures
        match resources::first_offer(resources::pak_offers(w, keys).take(n), key) {
            Some(ResourceSource::Pak { pak, index }) => {
                &&& pak == w
                &&& index < n
                &&& keys[index as int] == key
                &&& forall|i: int| 0 <= i < index ==> #[trigger] keys[i] != key
            },
            Some(_) => false,
            None => forall|i: int| 0 <= i < n ==> #[trigger] keys[i] != key,
        },
    decreases n,
{
    if n > 0 {
        lemma_offer_in_world(w, keys, n - 1, key);
        let offers = resources::pak_offers(w, keys);
        assert(offers.take(n).drop_last() =~= offers.take(n - 1));
        assert(offers.take(n).last() == offers[n - 1]);
    }
}

/// The first offer among several comes from the first of them that has one.
proof fn lemma_offer_first(
    a: Seq<resources::Offer>,
    b: Seq<resources::Offer>,
    key: ResourceKey,
)
    ensures
        resources::first_offer(a + b, key) == match resources::first_offer(a, key) {
            Some(s) => Some(s),
            None => resources::first_offer(b, key),
        },
    decreases b.len(),
{
    if b.len() == 0 {
        assert(a + b =~= a);
    } else {
        lemma_offer_first(a, b.drop_last(), key);
        assert((a + b).drop_last() =~= a + b.drop_last());
    }
}

/// What the first offer of a resource among those of the first `n` worlds is.
proof fn lemma_offer_in_worlds(
    entries: Seq<model::EntryView>,
    worlds: Seq<Seq<model::ResourceView>>,
    n: int,
    key: ResourceKey,
)
    requires
        are_worlds(entries, worlds),
        0 <= n <= 5,
    ensures
        match resources::first_offer(resources::offers_of_paks(entries, n), key) {
            Some(ResourceSource::Pak { pak, index }) => {
                &&& pak < n
                &&& holds_at(worlds, pak as int, index as int, key)
                &&& forall|w: int, i: int|
                    w < pak || (w == pak && i < index) ==> !#[trigger] holds_at(
                        worlds,
                        w,
                        i,
                        key,
                    )
            },
            Some(_) => false,
            None => forall|w: int, i: int|
                w < n ==> !#[trigger] holds_at(worlds, w, i, key),
        },
    decreases n,
{
    if n > 0 {
        lemma_offer_in_worlds(entries, worlds, n - 1, key);
        lemma_world_keys(entries, worlds, n - 1);
        let keys = worlds[n - 1].map_values(|r: model::ResourceView| r.key);
        let offers = resources::pak_offers(n - 1, keys);
        assert(offers.take(keys.len() as int) =~= offers);
        lemma_offer_in_world(n - 1, keys, keys.len() as int, key);
        lemma_offer_first(resources::offers_of_paks(entries, n - 1), offers, key);
        assert forall|w: int, i: int|
            w == n - 1 && #[trigger] holds_at(worlds, w, i, key) implies keys[i] == key by {}
    }
}

/// All offers of a resource: the worlds, and what is made of the Phazon Suit.
proof fn lemma_all_offers(entries: Seq<model::EntryView>, ids: AssetIds, key: ResourceKey)
    ensures
        resources::first_offer(resources::all_offers(entries, ids), key)
            == match resources::first_offer(resources::offers_of_paks(entries, 5), key) {
            Some(s) => Some(s),
            None => if key == made_model(ids) {
                Some(ResourceSource::PhazonCmdl)
            } else if key == made_character(ids) {
                Some(ResourceSource::PhazonAncs)
            } else {
                None
            },
        },
{
    let paks = resources::offers_of_paks(entries, 5);
    let cmdl = resources::Offer {
        key: resources::suit_key(ids.phazon_suit_cmdl, model::CMDL),
        source: ResourceSource::PhazonCmdl,
    };
    let ancs = resources::Offer {
        key: resources::suit_key(ids.phazon_suit_ancs, model::ANCS),
        source: ResourceSource::PhazonAncs,
    };
    assert(resources::all_offers(entries, ids) == paks.push(cmdl).push(ancs));
    assert(paks.push(cmdl).push(ancs).drop_last() =~= paks.push(cmdl));
    assert(paks.push(cmdl).drop_last() =~= paks);
    reveal_with_fuel(resources::first_offer, 3);
}

/// Where a resource comes from. What the caller supplies comes from there. Else it must be one that
/// an item needs; then it comes from the first place, in the order of the worlds and of the
/// resources in them, that holds it; else it may be the model or the character of the Phazon Suit,
/// which are made.
pub proof fn law_source_is_right(
    entries: Seq<model::EntryView>,
    worlds: Seq<Seq<model::ResourceView>>,
    t: tables::TablesView,
    key: ResourceKey,
)
    requires
        are_worlds(entries, worlds),
        t.extra_assets.len() <= usize::MAX,
    ensures
        match resources::source_of(entries, t, key) {
            Some(ResourceSource::Extra(i)) => i < t.extra_assets.len() && t.extra_assets[i as int]
                == key,
            Some(ResourceSource::Pak { pak, index }) => {
                &&& !t.extra_assets.contains(key)
                &&& is_needed(t, key)
                &&& holds_at(worlds, pak as int, index as int, key)
                &&& forall|w: int, i: int|
                    w < pak || (w == pak && i < index) ==> !#[trigger] holds_at(
                        worlds,
                        w,
                        i,
                        key,
                    )
            },
            Some(ResourceSource::PhazonCmdl) => {
                &&& !t.extra_assets.contains(key)
                &&& is_needed(t, key)
                &&& is_nowhere(worlds, key)
                &&& key == made_model(t.ids)
            },
            Some(ResourceSource::PhazonAncs) => {
                &&& !t.extra_assets.contains(key)
                &&& is_needed(t, key)
                &&& is_nowhere(worlds, key)
                &&& key == made_character(t.ids)
            },
            Some(ResourceSource::SkipHudmemo(_)) => false,
            None => {
                &&& !t.extra_assets.contains(key)
                &&& is_needed(t, key) ==> is_nowhere(worlds, key) && key != made_model(t.ids)
                    && key != made_character(t.ids)
            },
        },
{
    lemma_offer_in_worlds(entries, worlds, 5, key);
    lemma_all_offers(entries, t.ids, key);
    lemma_needed(t, key);
    if t.extra_assets.contains(key) {
        assert(t.extra_assets[t.extra_assets.index_of(key)] == key);
    }
}

/// What an item needs, stated in two ways.
proof fn lemma_needed(t: tables::TablesView, key: ResourceKey)
    ensures
        is_needed(t, key) == resources::is_wanted(t.items, key),
{
}

/// The caller supplies a resource, or an item needs it and a world holds it.
pub open spec fn is_at_hand(
    worlds: Seq<Seq<model::ResourceView>>,
    t: tables::TablesView,
    key: ResourceKey,
) -> bool {
    t.extra_assets.contains(key) || (is_needed(t, key) && !is_nowhere(worlds, key))
}

/// Whether a disc has all that the items need: the model and the character of the Gravity Suit are
/// at hand, and everything that an item needs is, but for those of the Phazon Suit, which are made.
pub proof fn law_disc_is_complete(
    entries: Seq<model::EntryView>,
    worlds: Seq<Seq<model::ResourceView>>,
    t: tables::TablesView,
)
    requires
        are_worlds(entries, worlds),
    ensures
        resources::resources_complete(entries, t) <==> {
            &&& is_at_hand(
                worlds,
                t,
                ResourceKey { file_id: t.ids.gravity_suit_cmdl, fourcc: 0x434D444C },
            )
            &&& is_at_hand(
                worlds,
                t,
                ResourceKey { file_id: t.ids.gravity_suit_ancs, fourcc: 0x414E4353 },
            )
            &&& forall|key: ResourceKey| #[trigger]
                is_needed(t, key) ==> is_at_hand(worlds, t, key) || key == made_model(t.ids)
                    || key == made_character(t.ids)
        },
{
    assert forall|p: int| 0 <= p < 5 implies resources::pak_keys(
        entries,
        #[trigger] resources::pak_names()[p],
    ) is Some by {
        lemma_world_keys(entries, worlds, p);
    }
    let paks = resources::offers_of_paks(entries, 5);
    assert forall|key: ResourceKey| #[trigger]
        is_at_hand(worlds, t, key) == resources::source_among(t, paks, key) is Some by {
        lemma_offer_in_worlds(entries, worlds, 5, key);
        lemma_needed(t, key);
        if !is_nowhere(worlds, key) {
            let (w, i) = choose|w: int, i: int| #[trigger] holds_at(worlds, w, i, key);
            assert(w < 5);
        }
    }
    let cmdl = ResourceKey { file_id: t.ids.gravity_suit_cmdl, fourcc: 0x434D444C };
    let ancs = ResourceKey { file_id: t.ids.gravity_suit_ancs, fourcc: 0x414E4353 };
    assert(cmdl == resources::suit_key(t.ids.gravity_suit_cmdl, model::CMDL));
    assert(ancs == resources::suit_key(t.ids.gravity_suit_ancs, model::ANCS));
    assert(is_at_hand(worlds, t, cmdl) == resources::source_among(t, paks, cmdl) is Some);
    assert(is_at_hand(worlds, t, ancs) == resources::source_among(t, paks, ancs) is Some);
    assert forall|key: ResourceKey| #[trigger] is_needed(t, key) implies (is_at_hand(
        worlds,
        t,
        key,
    ) || key == made_model(t.ids) || key == made_character(t.ids)) == (resources::source_of(
        entries,
        t,
        key,
    ) is Some) by {
        lemma_all_offers(entries, t.ids, key);
        lemma_needed(t, key);
    }
    assert forall|key: ResourceKey| #[trigger]
        resources::is_wanted(t.items, key) == is_needed(t, key) by {
        lemma_needed(t, key);
    }
    assert forall|key: ResourceKey| #[trigger]
        is_needed(t, key) == resources::is_wanted(t.items, key) by {
        lemma_needed(t, key);
    }
}

/// A disc without the file of a world is not complete.
pub proof fn law_disc_needs_worlds(
    entries: Seq<model::EntryView>,
    t: tables::TablesView,
    w: int,
)
    requires
        0 <= w < 5,
        forall|resources: Seq<model::ResourceView>| !#[trigger] is_world(entries, w, resources),
    ensures
        !resources::resources_complete(entries, t),
{
    if resources::resources_complete(entries, t) {
        assert(resources::pak_keys(entries, resources::pak_names()[w]) is Some);
        let f = files::first_named(entries, resources::pak_names()[w])->0;
        assert(resources::pak_names()[w] == world_names()[w]);
        lemma_found(entries, world_names()[w], f);
        match entries[f].file {
            Some(model::FileView::Pak(held)) => {
                assert(is_world(entries, w, held));
            },
            _ => {},
        }
    }
}

/// The texts that are added where messages are not to interrupt, and only there: one for each item,
/// under the id that its message asks for, which says in English what was acquired. Each of them is
/// the source of its key, and other keys have the sources that they have without.
pub proof fn law_messages_are_added(
    entries: Seq<model::EntryView>,
    t: tables::TablesView,
    item: int,
    key: ResourceKey,
)
    requires
        t.has_message_ids(),
        0 <= item < t.items.len(),
        t.items.len() <= usize::MAX,
    ensures
        ({
            let own = ResourceKey {
                file_id: (t.ids.skip_hudmemo_strg_start + item) as u32,
                fourcc: 0x53545247,
            };
            let texts = patch::added_texts(t, true);
            &&& own.file_id == t.ids.skip_hudmemo_strg_start + item
            &&& texts.len() == t.items.len()
            &&& texts[item].key == own
            &&& texts[item].kind == model::ResourceKindView::Strg(
                seq![
                    model::StringTableView {
                        lang: 0x454E474C,
                        strings: seq!["&just=center;"@ + t.items[item].name + " acquired!\0"@],
                    },
                ],
            )
            &&& patch::final_source(entries, t, true, own) == Some(
                ResourceSource::SkipHudmemo(item as usize),
            )
            &&& patch::added_texts(t, false) == Seq::<model::ResourceView>::empty()
            &&& patch::final_source(entries, t, false, key) == resources::source_of(
                entries,
                t,
                key,
            )
            &&& !(key.fourcc == 0x53545247 && t.ids.skip_hudmemo_strg_start <= key.file_id
                < t.ids.skip_hudmemo_strg_start + t.items.len()) ==> patch::final_source(
                entries,
                t,
                true,
                key,
            ) == resources::source_of(entries, t, key)
        }),
{
}

/// Texts are added only where none of them is there already; without them nothing is asked for but
/// that the disc is complete.
pub proof fn law_messages_must_be_new(entries: Seq<model::EntryView>, t: tables::TablesView)
    requires
        t.has_message_ids(),
    ensures
        patch::resources_ready(entries, t, false) <==> resources::resources_complete(entries, t),
        patch::resources_ready(entries, t, true) <==> resources::resources_complete(entries, t)
            && forall|key: ResourceKey|
            #![trigger resources::source_of(entries, t, key)]
            key.fourcc == 0x53545247 && t.ids.skip_hudmemo_strg_start <= key.file_id
                < t.ids.skip_hudmemo_strg_start + t.items.len() ==> resources::source_of(
                entries,
                t,
                key,
            ) is None,
{
    assert forall|key: ResourceKey|
        #![trigger resources::source_of(entries, t, key)]
        key.fourcc == 0x53545247 && t.ids.skip_hudmemo_strg_start <= key.file_id
            < t.ids.skip_hudmemo_strg_start + t.items.len() implies key == resources::skip_key(
        t.ids,
        key.file_id - t.ids.skip_hudmemo_strg_start,
    ) by {}
    assert forall|i: int| 0 <= i < t.items.len() implies (#[trigger] resources::skip_key(
        t.ids,
        i,
    )).fourcc == 0x53545247 && resources::skip_key(t.ids, i).file_id
        == t.ids.skip_hudmemo_strg_start + i by {}
    if patch::resources_ready(entries, t, true) {
        assert forall|key: ResourceKey|
            #![trigger resources::source_of(entries, t, key)]
            key.fourcc == 0x53545247 && t.ids.skip_hudmemo_strg_start <= key.file_id
                < t.ids.skip_hudmemo_strg_start + t.items.len() implies resources::source_of(
            entries,
            t,
            key,
        ) is None by {
            let i = key.file_id - t.ids.skip_hudmemo_strg_start;
            assert(key == resources::skip_key(t.ids, i));
        }
    }
}

/// A key is that of the text of one of the first `n` items.
pub open spec fn is_text_of_items(ids: AssetIds, n: int, key: ResourceKey) -> bool {
    &&& key.fourcc == 0x53545247
    &&& ids.skip_hudmemo_strg_start <= key.file_id < ids.skip_hudmemo_strg_start + n
}

/// The texts are entered into a map of sources, each under its key as the text of its item, and
/// the rest of the map stays. They are free to be entered exactly if the map has none of the keys.
pub proof fn law_texts_are_entered(
    map: Map<u64, ResourceSource>,
    t: tables::TablesView,
    n: int,
    key: ResourceKey,
)
    requires
        t.has_message_ids(),
        0 <= n <= t.items.len(),
    ensures
        ({
            let now = resources::with_skip_texts(map, t.ids, n);
            let code = key.code_spec();
            if is_text_of_items(t.ids, n, key) {
                now.contains_key(code) && now[code] == ResourceSource::SkipHudmemo(
                    (key.file_id - t.ids.skip_hudmemo_strg_start) as usize,
                )
            } else {
                now.contains_key(code) == map.contains_key(code) && now[code] == map[code]
            }
        }),
        resources::skip_texts_free(map, t.ids, n) <==> forall|k: ResourceKey|
            is_text_of_items(t.ids, n, k) ==> !map.contains_key(#[trigger] k.code_spec()),
    decreases n,
{
    let code = key.code_spec();
    assert forall|i: int| 0 <= i < n implies is_text_of_items(
        t.ids,
        n,
        #[trigger] resources::skip_key(t.ids, i),
    ) && resources::skip_key(t.ids, i).file_id == t.ids.skip_hudmemo_strg_start + i by {}
    assert forall|k: ResourceKey| #[trigger] is_text_of_items(t.ids, n, k) implies k
        == resources::skip_key(t.ids, k.file_id - t.ids.skip_hudmemo_strg_start) by {}
    if resources::skip_texts_free(map, t.ids, n) {
        assert forall|k: ResourceKey| is_text_of_items(t.ids, n, k) implies !map.contains_key(
            #[trigger] k.code_spec(),
        ) by {
            let i = k.file_id - t.ids.skip_hudmemo_strg_start;
            assert(k == resources::skip_key(t.ids, i));
        }
    }
    if forall|k: ResourceKey|
        is_text_of_items(t.ids, n, k) ==> !map.contains_key(#[trigger] k.code_spec()) {
        assert forall|i: int| 0 <= i < n implies !map.contains_key(
            (#[trigger] resources::skip_key(t.ids, i)).code_spec(),
        ) by {
            assert(is_text_of_items(t.ids, n, resources::skip_key(t.ids, i)));
        }
    }
    if n > 0 {
        law_texts_are_entered(map, t, n - 1, key);
        let added = resources::skip_key(t.ids, n - 1);
        if added.code_spec() == code {
            model::lemma_code_injective(added, key);
        }
    }
}

/// Four bytes spell a number, highest byte first.
pub open spec fn spells(bytes: Seq<u8>, at: int, n: u32) -> bool {
    bytes[at] * 0x100_0000 + bytes[at + 1] * 0x1_0000 + bytes[at + 2] * 0x100 + bytes[at + 3] == n
}

/// Bytes that were filled up to a multiple of 32, and otherwise kept but for some places.
pub open spec fn is_filled_up(
    old: Seq<u8>,
    new: Seq<u8>,
    fill: u8,
    changed: spec_fn(int) -> bool,
) -> bool {
    &&& new.len() % 32 == 0
    &&& old.len() <= new.len() < old.len() + 32
    &&& forall|i: int| 0 <= i < old.len() && !changed(i) ==> #[trigger] new[i] == old[i]
    &&& forall|i: int| old.len() <= i < new.len() && !changed(i) ==> #[trigger] new[i] == fill
}

/// The model of the Phazon Suit is that of the Gravity Suit, filled up to a multiple of 32 bytes,
/// with the ids of two textures written at 0x64 and at 0x70. It can be made exactly if that reaches
/// to there.
pub proof fn law_model_is_made(cmdl: Seq<u8>, fill: u8, ids: AssetIds)
    ensures
        resources::phazon_model(cmdl, fill, ids) is Some <==> cmdl.len() > 0x60,
        resources::phazon_model(cmdl, fill, ids) is Some ==> {
            let new = resources::phazon_model(cmdl, fill, ids)->0;
            &&& is_filled_up(
                cmdl,
                new,
                fill,
                |i: int| 0x64 <= i < 0x68 || 0x70 <= i < 0x74,
            )
            &&& spells(new, 0x64, ids.phazon_suit_txtr1)
            &&& spells(new, 0x70, ids.phazon_suit_txtr2)
        },
{
}

/// The character of the Phazon Suit is that of the Gravity Suit, filled up to a multiple of 32
/// bytes, with the id of the model written at 0x14. It can be made exactly if there is something to
/// fill up.
pub proof fn law_character_is_made(ancs: Seq<u8>, fill: u8, ids: AssetIds)
    ensures
        resources::phazon_character(ancs, fill, ids) is Some <==> ancs.len() > 0,
        resources::phazon_character(ancs, fill, ids) is Some ==> {
            let new = resources::phazon_character(ancs, fill, ids)->0;
            &&& is_filled_up(ancs, new, fill, |i: int| 0x14 <= i < 0x18)
            &&& spells(new, 0x14, ids.phazon_suit_cmdl)
        },
{
}

} // verus!
