//! The whole patch of a disc.

use rand::XorShiftRng;
use std::collections::HashMap;
use vstd::prelude::*;
use crate::files;
use crate::model;
use crate::model::{FileContent, FstEntry, Pak, Resource, ResourceKey};
use crate::pak;
use crate::random;
use crate::resources;
use crate::resources::ResourceSource;
use crate::starting_items;
use crate::tables;
use crate::tables::Tables;
use crate::totems;

verus! {

broadcast use vstd::std_specs::hash::group_hash_axioms;

/// The first id of an object that patching adds.
pub const FIRST_FRESH_ID: u32 = 0xDEEF0000;

/// The item of a layout that stands for no item.
pub const NOTHING: u8 = 35;

/// One in so many places without an item looks different.
pub const SECOND_LOOK_ODDS: u32 = 4;

/// The item that is put at a location: a place without an item can have one of two looks.
pub open spec fn item_at(entry: u8, second_look: bool) -> usize {
    if entry == NOTHING && second_look {
        (NOTHING + 1) as usize
    } else {
        entry as usize
    }
}

/// Chooses the item that is put at a location.
pub fn choose_item(entry: u8, second_look: bool) -> (r: usize)
    ensures
        r == item_at(entry, second_look),
{
    if entry == NOTHING && second_look {
        NOTHING as usize + 1
    } else {
        entry as usize
    }
}

/// The items that are put at the locations, and the generator words that are left. Only a place
/// without an item draws from the generator.
pub open spec fn resolved(layout: Seq<u8>, words: Seq<u32>) -> (Seq<usize>, Seq<u32>)
    decreases layout.len(),
{
    if layout.len() == 0 {
        (Seq::empty(), words)
    } else {
        let (items, w) = resolved(layout.drop_last(), words);
        if layout.last() == NOTHING {
            let outcome = random::weighted_bool_outcome(w, SECOND_LOOK_ODDS);
            (items.push(item_at(NOTHING, outcome.0)), outcome.1)
        } else {
            (items.push(item_at(layout.last(), false)), w)
        }
    }
}

/// Chooses the items that are put at the locations.
pub fn resolve_layout(layout: &Vec<u8>, rng: &mut XorShiftRng) -> (r: Vec<usize>)
    ensures
        (r@, random::generator_words(*final(rng))) == resolved(
            layout@,
            random::generator_words(*old(rng)),
        ),
        r@.len() == layout@.len(),
{
    let ghost words = random::generator_words(*rng);
    let mut items: Vec<usize> = Vec::new();
    assert(layout@.take(0) =~= Seq::empty());
    for i in 0..layout.len()
        invariant
            words == random::generator_words(*old(rng)),
            items@.len() == i,
            (items@, random::generator_words(*rng)) == resolved(layout@.take(i as int), words),
    {
        assert(layout@.take(i + 1).drop_last() =~= layout@.take(i as int));
        let entry = layout[i];
        let second_look = if entry == NOTHING {
            random::weighted_bool(rng, SECOND_LOOK_ODDS)
        } else {
            false
        };
        items.push(choose_item(entry, second_look));
    }
    assert(layout@.take(layout@.len() as int) =~= layout@);
    items
}

/// The entries with the file of one of them changed; `None` if there is no such entry, or its file
/// cannot change that way.
pub open spec fn with_file(
    entries: Seq<model::EntryView>,
    name: Seq<char>,
    change: spec_fn(Option<model::FileView>) -> Option<Option<model::FileView>>,
) -> Option<Seq<model::EntryView>> {
    match files::first_named(entries, name) {
        None => None,
        Some(i) => match change(entries[i].file) {
            None => None,
            Some(file) => Some(entries.update(i, model::EntryView { file, ..entries[i] })),
        },
    }
}

/// The pak in a file.
pub open spec fn pak_in(file: Option<model::FileView>) -> Option<Seq<model::ResourceView>> {
    match file {
        Some(model::FileView::Pak(resources)) => Some(resources),
        _ => None,
    }
}

/// The entries with the paks from the `w`-th world on patched.
pub open spec fn worlds_patched(
    entries: Seq<model::EntryView>,
    w: int,
    items: Seq<usize>,
    next: int,
    fresh: u32,
    totem_texts: Seq<Seq<char>>,
    t: tables::TablesView,
    skip_hudmenus: bool,
) -> Option<Seq<model::EntryView>>
    decreases tables::WORLD_COUNT - w,
{
    if w >= tables::WORLD_COUNT {
        Some(entries)
    } else {
        match files::first_named(entries, resources::pak_names()[w]) {
            None => None,
            Some(i) => match pak_in(entries[i].file) {
                None => None,
                Some(old) => match pak::patched_pak(
                    old,
                    t.rooms[w],
                    items,
                    next,
                    fresh,
                    totem_texts,
                    t,
                    skip_hudmenus,
                ) {
                    None => None,
                    Some((new, position, id)) => worlds_patched(
                        entries.update(
                            i,
                            model::EntryView {
                                file: Some(model::FileView::Pak(new)),
                                ..entries[i]
                            },
                        ),
                        w + 1,
                        items,
                        position,
                        id,
                        totem_texts,
                        t,
                        skip_hudmenus,
                    ),
                },
            },
        }
    }
}

/// Where a resource of the patched disc comes from.
pub open spec fn final_source(
    entries: Seq<model::EntryView>,
    t: tables::TablesView,
    skip_hudmenus: bool,
    key: ResourceKey,
) -> Option<ResourceSource> {
    let start = t.ids.skip_hudmemo_strg_start;
    if skip_hudmenus && key.fourcc == model::STRG && start <= key.file_id < start + t.items.len() {
        Some(ResourceSource::SkipHudmemo((key.file_id - start) as usize))
    } else {
        resources::source_of(entries, t, key)
    }
}

/// The disc holds all resources, and no text that is to be added.
pub open spec fn resources_ready(
    entries: Seq<model::EntryView>,
    t: tables::TablesView,
    skip_hudmenus: bool,
) -> bool {
    &&& resources::resources_complete(entries, t)
    &&& skip_hudmenus ==> forall|i: int|
        0 <= i < t.items.len() ==> resources::source_of(
            entries,
            t,
            #[trigger] resources::skip_key(t.ids, i),
        ) is None
}

/// The entries with the items of a layout at their locations, from given generator words; `None`
/// if the disc is not as expected.
pub open spec fn pickups_modified(
    entries: Seq<model::EntryView>,
    layout: Seq<u8>,
    words: Seq<u32>,
    t: tables::TablesView,
    skip_hudmenus: bool,
) -> Option<Seq<model::EntryView>> {
    if !resources_ready(entries, t, skip_hudmenus) {
        None
    } else {
        worlds_patched(
            entries,
            0,
            resolved(layout, totems::words_after_totems(words)).0,
            0,
            FIRST_FRESH_ID,
            totems::random_totem_texts(layout, words, t),
            t,
            skip_hudmenus,
        )
    }
}

/// The patched files, where the resources that their rooms need come from, and the texts among
/// those resources.
#[derive(Debug)]
pub struct PickupPatch {
    pub entries: Vec<FstEntry>,
    pub sources: HashMap<u64, ResourceSource>,
    pub texts: Vec<Resource>,
}

/// The texts that are added.
pub open spec fn added_texts(t: tables::TablesView, skip_hudmenus: bool) -> Seq<
    model::ResourceView,
> {
    if skip_hudmenus {
        Seq::new(t.items.len(), |i: int| resources::skip_resource(t, i))
    } else {
        Seq::empty()
    }
}

/// Takes the pak of an entry out of a list; the entry keeps a placeholder.
fn take_pak(entries: &mut Vec<FstEntry>, i: usize) -> (r: Option<Pak>)
    requires
        i < old(entries)@.len(),
    ensures
        final(entries)@.len() == old(entries)@.len(),
        forall|j: int| 0 <= j < old(entries)@.len() && j != i ==> final(entries)@[j]
            == old(entries)@[j],
        final(entries)@[i as int].name == old(entries)@[i as int].name,
        match r {
            Some(p) => pak_in(old(entries)@[i as int]@.file) == Some(p@),
            None => pak_in(old(entries)@[i as int]@.file) is None && final(entries)@[i as int]@
                == old(entries)@[i as int]@,
        },
{
    let mut taken: Option<FileContent> = None;
    core::mem::swap(&mut taken, &mut entries[i].file);
    match taken {
        Some(FileContent::Pak(pak)) => Some(pak),
        other => {
            entries[i].file = other;
            None
        },
    }
}

/// Patches the paks of all worlds: puts given items at their locations, and gives the totems given
/// texts.
pub fn modify_worlds(
    entries: Vec<FstEntry>,
    items: &Vec<usize>,
    totem_texts: &Vec<String>,
    t: &Tables,
    skip_hudmenus: bool,
) -> (r: Option<Vec<FstEntry>>)
    requires
        t@.wf(),
        skip_hudmenus ==> t@.has_message_ids(),
        totem_texts@.len() == pak::ARTIFACT_COUNT,
    ensures
        r is Some <==> worlds_patched(
            model::views(entries@),
            0,
            items@,
            0,
            FIRST_FRESH_ID,
            model::views(totem_texts@),
            t@,
            skip_hudmenus,
        ) is Some,
        r is Some ==> model::views((r->0)@) == worlds_patched(
            model::views(entries@),
            0,
            items@,
            0,
            FIRST_FRESH_ID,
            model::views(totem_texts@),
            t@,
            skip_hudmenus,
        )->0,
{
    let mut patched = entries;
    let mut next: usize = 0;
    let mut id = FIRST_FRESH_ID;
    for w in 0..tables::WORLD_COUNT
        invariant
            t@.wf(),
            skip_hudmenus ==> t@.has_message_ids(),
            totem_texts@.len() == pak::ARTIFACT_COUNT,
            next <= items@.len(),
            worlds_patched(
                model::views(entries@),
                0,
                items@,
                0,
                FIRST_FRESH_ID,
                model::views(totem_texts@),
                t@,
                skip_hudmenus,
            ) == worlds_patched(
                model::views(patched@),
                w as int,
                items@,
                next as int,
                id,
                model::views(totem_texts@),
                t@,
                skip_hudmenus,
            ),
    {
        let ghost now = model::views(patched@);
        let i = match files::find_file(&patched, resources::pak_name(w)) {
            Some(i) => i,
            None => {
                return None;
            },
        };
        assert(now[i as int] == patched@[i as int]@);
        assert(t@.rooms[w as int] == model::views(t.rooms@[w as int]@));
        let pak = match take_pak(&mut patched, i) {
            Some(pak) => pak,
            None => {
                return None;
            },
        };
        match pak::modify_pickups_in_pak(
            pak,
            &t.rooms[w],
            items,
            next,
            id,
            totem_texts,
            t,
            skip_hudmenus,
        ) {
            Some((new, position, new_id)) => {
                patched[i].file = Some(FileContent::Pak(new));
                assert(model::views(patched@) =~= now.update(
                    i as int,
                    model::EntryView { file: Some(model::FileView::Pak(new@)), ..now[i as int] },
                ));
                next = position;
                id = new_id;
            },
            None => {
                return None;
            },
        }
    }
    Some(patched)
}

/// Adding the texts gives each of them a source, and leaves the others as they were.
proof fn lemma_skip_sources(
    map: Map<u64, ResourceSource>,
    entries: Seq<model::EntryView>,
    t: tables::TablesView,
    n: int,
)
    requires
        t.has_message_ids(),
        0 <= n <= t.items.len(),
        resources::holds(map, |k: ResourceKey| resources::source_of(entries, t, k)),
    ensures
        resources::holds(
            resources::with_skip_texts(map, t.ids, n),
            |k: ResourceKey|
                if k.fourcc == model::STRG && t.ids.skip_hudmemo_strg_start <= k.file_id
                    < t.ids.skip_hudmemo_strg_start + n {
                    Some(
                        ResourceSource::SkipHudmemo(
                            (k.file_id - t.ids.skip_hudmemo_strg_start) as usize,
                        ),
                    )
                } else {
                    resources::source_of(entries, t, k)
                },
        ),
    decreases n,
{
    let start = t.ids.skip_hudmemo_strg_start;
    let now = resources::with_skip_texts(map, t.ids, n);
    if n > 0 {
        lemma_skip_sources(map, entries, t, n - 1);
        let before = resources::with_skip_texts(map, t.ids, n - 1);
        let added = resources::skip_key(t.ids, n - 1);
        assert forall|k: ResourceKey|
            #![trigger k.code_spec()]
            match (if k.fourcc == model::STRG && start <= k.file_id < start + n {
                Some(ResourceSource::SkipHudmemo((k.file_id - start) as usize))
            } else {
                resources::source_of(entries, t, k)
            }) {
                Some(s) => now.contains_key(k.code_spec()) && now[k.code_spec()] == s,
                None => !now.contains_key(k.code_spec()),
            } by {
            if k.code_spec() == added.code_spec() {
                model::lemma_code_injective(k, added);
            } else {
                assert(now.contains_key(k.code_spec()) == before.contains_key(k.code_spec()));
            }
        }
    } else {
        assert forall|k: ResourceKey|
            #![trigger k.code_spec()]
            match resources::source_of(entries, t, k) {
                Some(s) => now.contains_key(k.code_spec()) && now[k.code_spec()] == s,
                None => !now.contains_key(k.code_spec()),
            } by {
            assert(map.contains_key(k.code_spec()) == now.contains_key(k.code_spec()));
        }
    }
}

/// Puts the items of a layout at their locations.
pub fn modify_pickups(
    entries: Vec<FstEntry>,
    layout: &Vec<u8>,
    rng: XorShiftRng,
    t: &Tables,
    skip_hudmenus: bool,
) -> (r: Option<PickupPatch>)
    requires
        t@.wf(),
        skip_hudmenus ==> t@.has_message_ids(),
    ensures
        r is Some <==> pickups_modified(
            model::views(entries@),
            layout@,
            random::generator_words(rng),
            t@,
            skip_hudmenus,
        ) is Some,
        r is Some ==> model::views((r->0).entries@) == pickups_modified(
            model::views(entries@),
            layout@,
            random::generator_words(rng),
            t@,
            skip_hudmenus,
        )->0,
        r is Some ==> resources::holds(
            (r->0).sources@,
            |k: ResourceKey| final_source(model::views(entries@), t@, skip_hudmenus, k),
        ),
        r is Some ==> model::views((r->0).texts@) == added_texts(t@, skip_hudmenus),
        r is Some ==> totems::draws_orders(random::generator_words(rng)),
{
    let ghost all = model::views(entries@);
    let mut rng = rng;
    let mut sources = match resources::collect_pickup_resources(&entries, t) {
        Some(sources) => sources,
        None => {
            return None;
        },
    };
    let mut texts: Vec<Resource> = Vec::new();
    if skip_hudmenus {
        let ghost found = sources@;
        proof {
            assert(resources::skip_texts_free(found, t@.ids, t@.items.len() as int) == (forall|
                i: int,
            |
                0 <= i < t@.items.len() ==> resources::source_of(
                    all,
                    t@,
                    #[trigger] resources::skip_key(t@.ids, i),
                ) is None)) by {
                assert forall|i: int|
                    #![trigger resources::skip_key(t@.ids, i)]
                    found.contains_key(resources::skip_key(t@.ids, i).code_spec())
                        == resources::source_of(
                        all,
                        t@,
                        resources::skip_key(t@.ids, i),
                    ) is Some by {}
            }
            lemma_skip_sources(found, all, t@, t@.items.len() as int);
        }
        match resources::add_skip_hudmemos_strgs(sources, t) {
            Some((more, added)) => {
                sources = more;
                texts = added;
            },
            None => {
                return None;
            },
        }
    }
    assert(model::views(texts@) =~= added_texts(t@, skip_hudmenus));
    let totem_texts = totems::build_artifact_temple_totem_scan_strings(layout, &mut rng, t);
    let items = resolve_layout(layout, &mut rng);
    match modify_worlds(entries, &items, &totem_texts, t, skip_hudmenus) {
        Some(entries) => Some(PickupPatch { entries, sources, texts }),
        None => None,
    }
}

/// What the user asks for.
#[derive(Debug, Clone, Copy)]
pub struct PatchOptions {
    pub skip_hudmenus: bool,
    pub skip_frigate: bool,
    pub keep_fmvs: bool,
    pub starting_items: Option<u64>,
}

/// Why a disc cannot be patched.
#[derive(Debug, Clone, Copy, PartialEq, Eq, Structural)]
pub enum PatchError {
    WrongGame,
    Corrupt,
}

impl PatchError {
    /// The text of the message that is shown for the error.
    pub open spec fn text(self) -> Seq<char> {
        match self {
            PatchError::WrongGame => "The input ISO doesn't appear to be Metroid Prime."@,
            PatchError::Corrupt => "An error occurred while parsing the input ISO. This most likely means your ISO is corrupt. Please verify that your ISO matches one of the following hashes:\nMD5:  737cbfe7230af3df047323a3185d7e57\nSHA1: 1c8b27af7eed2d52e7f038ae41bb682c4f9d09b5\n"@,
        }
    }

    /// The message that is shown for the error.
    pub fn message(&self) -> (r: String)
        ensures
            r@ == self.text(),
    {
        match self {
            PatchError::WrongGame => "The input ISO doesn't appear to be Metroid Prime.".to_owned(),
            PatchError::Corrupt => "An error occurred while parsing the input ISO. This most likely means your ISO is corrupt. Please verify that your ISO matches one of the following hashes:\nMD5:  737cbfe7230af3df047323a3185d7e57\nSHA1: 1c8b27af7eed2d52e7f038ae41bb682c4f9d09b5\n".to_owned(),
        }
    }
}

/// The identifier in the header of the one game that can be patched.
pub open spec fn game_identifier() -> Seq<u8> {
    seq![0x47, 0x4D, 0x38, 0x45, 0x30, 0x31]
}

/// Whether the identifier in a header is that of the game.
pub fn is_supported_game(identifier: &[u8; 6]) -> (r: bool)
    ensures
        r == (identifier@ == game_identifier()),
{
    let supported = identifier[0] == 0x47 && identifier[1] == 0x4D && identifier[2] == 0x38
        && identifier[3] == 0x45 && identifier[4] == 0x30 && identifier[5] == 0x31;
    assert(supported ==> identifier@ =~= game_identifier());
    supported
}

/// The main program's file, patched; `None` if it cannot be.
pub open spec fn dol_patched(file: Option<model::FileView>) -> Option<Option<model::FileView>> {
    match file {
        Some(model::FileView::Raw(dol)) => if dol.len() >= files::DOL_PATCH_2 + 2 {
            Some(Some(model::FileView::External(files::without_frigate(dol))))
        } else {
            None
        },
        _ => None,
    }
}

/// A pak without its resources; any other file as it is.
pub open spec fn emptied(file: Option<model::FileView>) -> Option<Option<model::FileView>> {
    match pak_in(file) {
        Some(_) => Some(Some(model::FileView::Pak(Seq::empty()))),
        None => Some(file),
    }
}

/// A pak with the starting items set; `None` if they cannot be.
pub open spec fn starting_items_set(file: Option<model::FileView>, items: u64) -> Option<
    Option<model::FileView>,
> {
    match pak_in(file) {
        Some(resources) => match starting_items::with_starting_items(resources, items) {
            Some(patched) => Some(Some(model::FileView::Pak(patched))),
            None => None,
        },
        None => None,
    }
}

/// The entries with the first level skipped.
pub open spec fn frigate_skipped(entries: Seq<model::EntryView>) -> Option<
    Seq<model::EntryView>,
> {
    match with_file(entries, "default.dol"@, |f| dol_patched(f)) {
        Some(patched) => with_file(patched, "Metroid1.pak"@, |f| emptied(f)),
        None => None,
    }
}

/// The entries with everything done that follows the placing of the items.
pub open spec fn finished(entries: Seq<model::EntryView>, options: PatchOptions) -> Option<
    Seq<model::EntryView>,
> {
    let first = if options.skip_frigate {
        frigate_skipped(entries)
    } else {
        Some(entries)
    };
    let second = match (first, options.starting_items) {
        (Some(e), Some(items)) => with_file(
            e,
            "Metroid4.pak"@,
            |f| starting_items_set(f, items),
        ),
        _ => first,
    };
    match second {
        Some(e) => if options.keep_fmvs {
            Some(e)
        } else if files::fmvs_are_files(e) {
            Some(files::with_fmvs_replaced(e))
        } else {
            None
        },
        None => None,
    }
}

/// The entries of the patched disc, from given generator words; `None` if the disc is not as
/// expected.
pub open spec fn patched_entries(
    entries: Seq<model::EntryView>,
    layout: Seq<u8>,
    words: Seq<u32>,
    t: tables::TablesView,
    options: PatchOptions,
) -> Option<Seq<model::EntryView>> {
    match pickups_modified(entries, layout, words, t, options.skip_hudmenus) {
        Some(placed) => finished(placed, options),
        None => None,
    }
}

/// The lines that are shown about the starting items.
pub open spec fn report(options: PatchOptions) -> Seq<Seq<char>> {
    match options.starting_items {
        Some(items) => starting_items::starting_report(starting_items::starting_point(items, 0)),
        None => Seq::empty(),
    }
}

/// A patched disc, and the lines that are shown about it.
#[derive(Debug)]
pub struct PatchedDisc {
    pub entries: Vec<FstEntry>,
    pub sources: HashMap<u64, ResourceSource>,
    pub texts: Vec<Resource>,
    pub report: Vec<String>,
}

/// Makes the game skip the first level, and takes the contents of its pak away.
pub fn skip_frigate(entries: Vec<FstEntry>) -> (r: Option<Vec<FstEntry>>)
    ensures
        r is Some <==> frigate_skipped(model::views(entries@)) is Some,
        r is Some ==> model::views((r->0)@) == frigate_skipped(model::views(entries@))->0,
{
    let ghost before = model::views(entries@);
    let mut patched = entries;
    let dol = match files::find_file(&patched, "default.dol") {
        Some(i) => i,
        None => {
            return None;
        },
    };
    assert(before[dol as int] == patched@[dol as int]@);
    let mut taken: Option<FileContent> = None;
    core::mem::swap(&mut taken, &mut patched[dol].file);
    match taken {
        Some(FileContent::Raw(bytes)) => {
            if bytes.len() < files::DOL_PATCH_2 + 2 {
                return None;
            }
            patched[dol].file = Some(FileContent::External(files::patch_dol_skip_frigate(bytes)));
        },
        _ => {
            return None;
        },
    }
    let ghost middle = model::views(patched@);
    assert(middle =~= before.update(dol as int, patched@[dol as int]@));
    assert(with_file(before, "default.dol"@, |f| dol_patched(f)) == Some(middle));
    let pak = match files::find_file(&patched, "Metroid1.pak") {
        Some(i) => i,
        None => {
            return None;
        },
    };
    assert(middle[pak as int] == patched@[pak as int]@);
    let ghost held = patched@;
    match take_pak(&mut patched, pak) {
        Some(_) => {
            patched[pak].file = Some(FileContent::Pak(Pak { resources: Vec::new() }));
            assert(patched@[pak as int]@.file->0->Pak_0 =~= Seq::empty());
        },
        None => {},
    }
    assert forall|j: int| 0 <= j < patched@.len() && j != pak implies #[trigger] patched@[j]@
        == middle[j] by {
        assert(patched@[j] == held[j]);
        assert(held[j]@ == middle[j]);
    }
    assert(model::views(patched@) =~= middle.update(pak as int, patched@[pak as int]@));
    Some(patched)
}

/// Sets the items that the player starts with, and says which lines are shown about them.
pub fn set_starting_items(entries: Vec<FstEntry>, items: u64) -> (r: Option<
    (Vec<FstEntry>, Vec<String>),
>)
    ensures
        r is Some <==> with_file(
            model::views(entries@),
            "Metroid4.pak"@,
            |f| starting_items_set(f, items),
        ) is Some,
        r is Some ==> model::views((r->0).0@) == with_file(
            model::views(entries@),
            "Metroid4.pak"@,
            |f| starting_items_set(f, items),
        )->0,
        r is Some ==> model::views((r->0).1@) == starting_items::starting_report(
            starting_items::starting_point(items, 0),
        ),
{
    let ghost before = model::views(entries@);
    let mut patched = entries;
    let i = match files::find_file(&patched, "Metroid4.pak") {
        Some(i) => i,
        None => {
            return None;
        },
    };
    assert(before[i as int] == patched@[i as int]@);
    let pak = match take_pak(&mut patched, i) {
        Some(pak) => pak,
        None => {
            return None;
        },
    };
    match starting_items::patch_starting_pickups(pak, items) {
        Some((new, lines)) => {
            patched[i].file = Some(FileContent::Pak(new));
            assert(model::views(patched@) =~= before.update(i as int, patched@[i as int]@));
            Some((patched, lines))
        },
        None => None,
    }
}

/// Patches a disc: it must be that of the game, and as it is expected.
pub fn patch_disc(
    identifier: &[u8; 6],
    entries: Vec<FstEntry>,
    layout: &Vec<u8>,
    seed: [u32; 4],
    t: &Tables,
    options: PatchOptions,
) -> (r: Result<PatchedDisc, PatchError>)
    requires
        t@.wf(),
        options.skip_hudmenus ==> t@.has_message_ids(),
        seed@ != seq![0u32, 0, 0, 0],
    ensures
        r == Err::<PatchedDisc, PatchError>(PatchError::WrongGame) <==> identifier@
            != game_identifier(),
        r == Err::<PatchedDisc, PatchError>(PatchError::Corrupt) <==> identifier@
            == game_identifier() && patched_entries(
            model::views(entries@),
            layout@,
            seed@,
            t@,
            options,
        ) is None,
        r is Ok ==> model::views((r->Ok_0).entries@) == patched_entries(
            model::views(entries@),
            layout@,
            seed@,
            t@,
            options,
        )->0,
        r is Ok ==> resources::holds(
            (r->Ok_0).sources@,
            |k: ResourceKey| final_source(model::views(entries@), t@, options.skip_hudmenus, k),
        ),
        r is Ok ==> model::views((r->Ok_0).texts@) == added_texts(t@, options.skip_hudmenus),
        r is Ok ==> model::views((r->Ok_0).report@) == report(options),
        r is Ok ==> totems::draws_orders(seed@),
{
    if !is_supported_game(identifier) {
        return Err(PatchError::WrongGame);
    }
    let rng = random::seeded(seed);
    let placed = match modify_pickups(entries, layout, rng, t, options.skip_hudmenus) {
        Some(placed) => placed,
        None => {
            return Err(PatchError::Corrupt);
        },
    };
    let mut patched = placed.entries;
    let mut lines: Vec<String> = Vec::new();
    assert(model::views(lines@) =~= Seq::empty());
    if options.skip_frigate {
        patched = match skip_frigate(patched) {
            Some(patched) => patched,
            None => {
                return Err(PatchError::Corrupt);
            },
        };
    }
    if let Some(items) = options.starting_items {
        match set_starting_items(patched, items) {
            Some((with_items, shown)) => {
                patched = with_items;
                lines = shown;
            },
            None => {
                return Err(PatchError::Corrupt);
            },
        }
    }
    if !options.keep_fmvs {
        patched = match files::replace_fmvs(patched) {
            Some(patched) => patched,
            None => {
                return Err(PatchError::Corrupt);
            },
        };
    }
    Ok(
        PatchedDisc {
            entries: patched,
            sources: placed.sources,
            texts: placed.texts,
            report: lines,
        },
    )
}

} // verus!
