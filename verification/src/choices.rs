//! What each choice of the user does to a disc.

use vstd::prelude::*;
use crate::files;
use crate::model;
use crate::model::SpawnPoint;
use crate::patch;
use crate::patch::PatchOptions;
use crate::starting;
use crate::starting_items;
use crate::supply;
use crate::tables;

verus! {

/// The names of the films of the attract mode.
pub open spec fn film_names() -> Seq<Seq<char>> {
    seq![
        "attract0.thp"@,
        "attract1.thp"@,
        "attract2.thp"@,
        "attract3.thp"@,
        "attract4.thp"@,
        "attract5.thp"@,
        "attract6.thp"@,
        "attract7.thp"@,
        "attract8.thp"@,
        "attract9.thp"@,
    ]
}

/// A name is that of a film.
pub open spec fn is_film(name: Seq<char>) -> bool {
    film_names().contains(name)
}

/// The main program with the first level skipped: four bytes are others.
pub open spec fn is_program_patched(old: Seq<u8>, new: Seq<u8>) -> bool {
    &&& old.len() >= 0x1FF2C
    &&& new.len() == old.len()
    &&& new[0x1FF1E] == 0x39
    &&& new[0x1FF1F] == 0xF3
    &&& new[0x1FF2A] == 0xDE
    &&& new[0x1FF2B] == 0x28
    &&& forall|i: int|
        0 <= i < old.len() && i != 0x1FF1E && i != 0x1FF1F && i != 0x1FF2A && i != 0x1FF2B
            ==> #[trigger] new[i] == old[i]
}

/// A disc can be finished as the user wants: the main program and the pak of the first level are
/// there to skip it, there is a place to set the starting items at, and every film is a file.
pub open spec fn can_be_finished(entries: Seq<model::EntryView>, options: PatchOptions) -> bool {
    &&& options.skip_frigate ==> {
        &&& exists|f: int| #[trigger]
            supply::is_first_named(entries, "default.dol"@, f) && is_long_program(
                entries[f].file,
            )
        &&& exists|f: int| #[trigger] supply::is_first_named(entries, "Metroid1.pak"@, f)
    }
    &&& options.starting_items is Some ==> exists|
        resources: Seq<model::ResourceView>,
    | #[trigger]
        supply::is_world(entries, 2, resources) && exists|
            r: int,
            a: model::AreaView,
            i: int,
            s: SpawnPoint,
        | #[trigger] starting::is_start(resources, r, a, i, s)
    &&& !options.keep_fmvs ==> forall|f: int|
        0 <= f < entries.len() && is_film((#[trigger] entries[f]).name) ==> entries[f].file is Some
}

/// A file holds a main program that is long enough.
pub open spec fn is_long_program(file: Option<model::FileView>) -> bool {
    match file {
        Some(model::FileView::Raw(dol)) => dol.len() >= 0x1FF2C,
        _ => false,
    }
}

/// The files that are patched after the items were placed have names of their own.
proof fn lemma_names_apart()
    ensures
        "default.dol"@ != "Metroid1.pak"@,
        "default.dol"@ != "Metroid4.pak"@,
        "Metroid1.pak"@ != "Metroid4.pak"@,
        !is_film("default.dol"@),
        !is_film("Metroid1.pak"@),
        !is_film("Metroid4.pak"@),
{
    reveal_strlit("default.dol");
    reveal_strlit("Metroid1.pak");
    reveal_strlit("Metroid4.pak");
    reveal_strlit("attract0.thp");
    reveal_strlit("attract1.thp");
    reveal_strlit("attract2.thp");
    reveal_strlit("attract3.thp");
    reveal_strlit("attract4.thp");
    reveal_strlit("attract5.thp");
    reveal_strlit("attract6.thp");
    reveal_strlit("attract7.thp");
    reveal_strlit("attract8.thp");
    reveal_strlit("attract9.thp");
    assert("default.dol"@.len() == 11);
    assert("Metroid1.pak"@.len() == 12 && "Metroid4.pak"@.len() == 12);
    assert("Metroid1.pak"@[7] == '1' && "Metroid4.pak"@[7] == '4');
    assert("Metroid1.pak"@[1] == 'e' && "Metroid4.pak"@[1] == 'e');
    assert forall|i: int| 0 <= i < 10 implies (#[trigger] film_names()[i]).len() == 12
        && film_names()[i][1] == 't' by {}
}

/// Changing the file of one entry.
proof fn lemma_one_file(
    entries: Seq<model::EntryView>,
    name: Seq<char>,
    change: spec_fn(Option<model::FileView>) -> Option<Option<model::FileView>>,
    f: int,
)
    requires
        supply::is_first_named(entries, name, f),
    ensures
        patch::with_file(entries, name, change) is Some <==> change(entries[f].file) is Some,
        patch::with_file(entries, name, change) is Some ==> patch::with_file(
            entries,
            name,
            change,
        )->0 == entries.update(
            f,
            model::EntryView { file: change(entries[f].file)->0, ..entries[f] },
        ),
{
    supply::lemma_found(entries, name, f);
}

/// Changing the file of an entry that is not there.
proof fn lemma_no_file(
    entries: Seq<model::EntryView>,
    name: Seq<char>,
    change: spec_fn(Option<model::FileView>) -> Option<Option<model::FileView>>,
)
    requires
        forall|f: int| !#[trigger] supply::is_first_named(entries, name, f),
    ensures
        patch::with_file(entries, name, change) is None,
{
    match files::first_named(entries, name) {
        Some(f) => {
            supply::lemma_found(entries, name, f);
        },
        None => {},
    }
}

/// Names alone decide which entry is the first of a name.
proof fn lemma_first_same(
    a: Seq<model::EntryView>,
    b: Seq<model::EntryView>,
    name: Seq<char>,
    f: int,
)
    requires
        a.len() == b.len(),
        forall|i: int| 0 <= i < a.len() ==> (#[trigger] b[i]).name == a[i].name,
    ensures
        supply::is_first_named(a, name, f) <==> supply::is_first_named(b, name, f),
{
    if supply::is_first_named(b, name, f) {
        assert forall|j: int| 0 <= j < f implies (#[trigger] a[j]).name != name by {
            assert(b[j].name == a[j].name);
        }
    }
    if supply::is_first_named(a, name, f) {
        assert(b[f].name == a[f].name);
    }
}

/// An entry of a finished disc, given what it was when the items had been placed.
pub open spec fn is_finished(
    entries: Seq<model::EntryView>,
    f: int,
    new: model::EntryView,
    options: PatchOptions,
) -> bool {
    let old = entries[f];
    &&& new.name == old.name
    &&& if !options.keep_fmvs && is_film(old.name) {
        new.file == Some(model::FileView::AttractMode)
    } else if options.skip_frigate && supply::is_first_named(entries, "default.dol"@, f) {
        match (old.file, new.file) {
            (Some(model::FileView::Raw(dol)), Some(model::FileView::External(patched))) => {
                is_program_patched(dol, patched)
            },
            _ => false,
        }
    } else if options.skip_frigate && supply::is_first_named(entries, "Metroid1.pak"@, f) {
        match old.file {
            Some(model::FileView::Pak(_)) => new.file == Some(
                model::FileView::Pak(Seq::empty()),
            ),
            _ => new.file == old.file,
        }
    } else if options.starting_items is Some && supply::is_first_named(
        entries,
        "Metroid4.pak"@,
        f,
    ) {
        match (old.file, new.file) {
            (Some(model::FileView::Pak(held)), Some(model::FileView::Pak(patched))) => {
                starting_items::with_starting_items(held, options.starting_items->0) == Some(
                    patched,
                )
            },
            _ => false,
        }
    } else {
        new == old
    }
}

/// The first step of finishing.
spec fn first_step(entries: Seq<model::EntryView>, options: PatchOptions) -> Option<
    Seq<model::EntryView>,
> {
    if options.skip_frigate {
        patch::frigate_skipped(entries)
    } else {
        Some(entries)
    }
}

/// The second step of finishing.
spec fn second_step(entries: Seq<model::EntryView>, options: PatchOptions) -> Option<
    Seq<model::EntryView>,
> {
    match options.starting_items {
        Some(items) => patch::with_file(
            entries,
            "Metroid4.pak"@,
            |f| patch::starting_items_set(f, items),
        ),
        None => Some(entries),
    }
}

/// Skipping the first level, entry by entry.
proof fn lemma_first_step(entries: Seq<model::EntryView>, options: PatchOptions)
    ensures
        first_step(entries, options) is Some <==> (options.skip_frigate ==> {
            &&& exists|f: int| #[trigger]
                supply::is_first_named(entries, "default.dol"@, f) && is_long_program(
                    entries[f].file,
                )
            &&& exists|f: int| #[trigger] supply::is_first_named(entries, "Metroid1.pak"@, f)
        }),
        first_step(entries, options) is Some ==> {
            let out = first_step(entries, options)->0;
            &&& out.len() == entries.len()
            &&& forall|f: int|
                0 <= f < out.len() ==> is_finished(
                    entries,
                    f,
                    #[trigger] out[f],
                    (PatchOptions { starting_items: None, keep_fmvs: true, ..options }),
                )
        },
{
    lemma_names_apart();
    if options.skip_frigate {
        let dol = |f| patch::dol_patched(f);
        let empty = |f| patch::emptied(f);
        if exists|f: int| supply::is_first_named(entries, "default.dol"@, f) {
            let d = choose|f: int| supply::is_first_named(entries, "default.dol"@, f);
            lemma_one_file(entries, "default.dol"@, dol, d);
            assert forall|f: int| #[trigger]
                supply::is_first_named(entries, "default.dol"@, f) implies f == d by {
                supply::lemma_found(entries, "default.dol"@, f);
                supply::lemma_found(entries, "default.dol"@, d);
            }
            assert(dol(entries[d].file) is Some == is_long_program(entries[d].file));
            if patch::with_file(entries, "default.dol"@, dol) is Some {
                let middle = patch::with_file(entries, "default.dol"@, dol)->0;
                assert forall|f: int| #[trigger]
                    supply::is_first_named(middle, "Metroid1.pak"@, f) <==> supply::is_first_named(
                        entries,
                        "Metroid1.pak"@,
                        f,
                    ) by {
                    lemma_first_same(entries, middle, "Metroid1.pak"@, f);
                }
                if exists|f: int| supply::is_first_named(entries, "Metroid1.pak"@, f) {
                    let p = choose|f: int| supply::is_first_named(entries, "Metroid1.pak"@, f);
                    assert(supply::is_first_named(middle, "Metroid1.pak"@, p));
                    lemma_one_file(middle, "Metroid1.pak"@, empty, p);
                    assert(empty(middle[p].file) is Some);
                    assert(p != d);
                    let out = first_step(entries, options)->0;
                    assert forall|f: int| #[trigger]
                        supply::is_first_named(entries, "Metroid1.pak"@, f) implies f == p by {
                        supply::lemma_found(entries, "Metroid1.pak"@, f);
                        supply::lemma_found(entries, "Metroid1.pak"@, p);
                    }
                    assert forall|f: int| 0 <= f < out.len() implies is_finished(
                        entries,
                        f,
                        #[trigger] out[f],
                        (PatchOptions { starting_items: None, keep_fmvs: true, ..options }),
                    ) by {
                        if f == d {
                            assert(supply::is_first_named(entries, "default.dol"@, f));
                        }
                        if f == p {
                            assert(!supply::is_first_named(entries, "default.dol"@, f));
                        }
                    }
                } else {
                    lemma_no_file(middle, "Metroid1.pak"@, empty);
                }
            }
        } else {
            lemma_no_file(entries, "default.dol"@, dol);
        }
    }
}

/// Whether a file is a pak whose starting items can be set.
proof fn lemma_startable(file: Option<model::FileView>, items: u64)
    ensures
        patch::starting_items_set(file, items) is Some <==> match file {
            Some(model::FileView::Pak(held)) => exists|
                r: int,
                a: model::AreaView,
                i: int,
                s: SpawnPoint,
            | #[trigger] starting::is_start(held, r, a, i, s),
            _ => false,
        },
{
    match file {
        Some(model::FileView::Pak(held)) => {
            if starting_items::with_starting_items(held, items) is Some {
                starting::law_start_is_needed(held, items);
            }
            if exists|r: int, a: model::AreaView, i: int, s: SpawnPoint| #[trigger]
                starting::is_start(held, r, a, i, s) {
                let (r, a, i, s) = choose|
                    r: int,
                    a: model::AreaView,
                    i: int,
                    s: SpawnPoint,
                | #[trigger] starting::is_start(held, r, a, i, s);
                starting::law_start_is_set(held, items, r, a, i, s);
            }
        },
        _ => {},
    }
}

/// Setting the starting items, entry by entry.
proof fn lemma_second_step(entries: Seq<model::EntryView>, options: PatchOptions)
    ensures
        second_step(entries, options) is Some <==> (options.starting_items is Some ==> exists|
            resources: Seq<model::ResourceView>,
        | #[trigger]
            supply::is_world(entries, 2, resources) && exists|
                r: int,
                a: model::AreaView,
                i: int,
                s: SpawnPoint,
            | #[trigger] starting::is_start(resources, r, a, i, s)),
        second_step(entries, options) is Some ==> {
            let out = second_step(entries, options)->0;
            &&& out.len() == entries.len()
            &&& forall|f: int|
                0 <= f < out.len() ==> is_finished(
                    entries,
                    f,
                    #[trigger] out[f],
                    (PatchOptions { skip_frigate: false, keep_fmvs: true, ..options }),
                )
        },
{
    lemma_names_apart();
    let name = "Metroid4.pak"@;
    assert(supply::world_names()[2] == name);
    match options.starting_items {
        Some(items) => {
            let set = |f| patch::starting_items_set(f, items);
            if exists|f: int| supply::is_first_named(entries, name, f) {
                let p = choose|f: int| supply::is_first_named(entries, name, f);
                lemma_one_file(entries, name, set, p);
                lemma_startable(entries[p].file, items);
                assert forall|f: int| #[trigger] supply::is_first_named(entries, name, f) implies f
                    == p by {
                    supply::lemma_found(entries, name, f);
                    supply::lemma_found(entries, name, p);
                }
                assert(set(entries[p].file) == patch::starting_items_set(entries[p].file, items));
                match entries[p].file {
                    Some(model::FileView::Pak(held)) => {
                        assert(supply::is_world(entries, 2, held));
                    },
                    _ => {},
                }
            } else {
                lemma_no_file(entries, name, set);
            }
        },
        None => {},
    }
}

/// What the steps of finishing make of a disc, together.
proof fn lemma_finishing(entries: Seq<model::EntryView>, options: PatchOptions)
    ensures
        patch::finished(entries, options) == match first_step(entries, options) {
            Some(first) => match second_step(first, options) {
                Some(second) => if options.keep_fmvs {
                    Some(second)
                } else if files::fmvs_are_files(second) {
                    Some(files::with_fmvs_replaced(second))
                } else {
                    None
                },
                None => None,
            },
            None => None,
        },
{
}

/// Which discs can be finished, and what becomes of each of their files: the films are replaced
/// unless they are to be kept; where the first level is to be skipped, the main program is patched
/// and the pak of the level emptied; where starting items are given, the pak with the start gets
/// them; and every other file stays.
#[verifier::rlimit(40)]
pub proof fn law_choices_are_made(entries: Seq<model::EntryView>, options: PatchOptions)
    ensures
        patch::finished(entries, options) is Some <==> can_be_finished(entries, options),
        patch::finished(entries, options) is Some ==> {
            let out = patch::finished(entries, options)->0;
            &&& out.len() == entries.len()
            &&& forall|f: int|
                0 <= f < out.len() ==> is_finished(entries, f, #[trigger] out[f], options)
        },
{
    lemma_finishing(entries, options);
    lemma_names_apart();
    lemma_first_step(entries, options);
    match first_step(entries, options) {
        None => {},
        Some(first) => {
            lemma_second_step(first, options);
            let only_first = PatchOptions { starting_items: None, keep_fmvs: true, ..options };
            let only_second = PatchOptions { skip_frigate: false, keep_fmvs: true, ..options };
            assert forall|i: int| 0 <= i < entries.len() implies (#[trigger] first[i]).name
                == entries[i].name by {
                assert(is_finished(entries, i, first[i], only_first));
            }
            assert forall|name: Seq<char>, f: int| #[trigger]
                supply::is_first_named(first, name, f) <==> supply::is_first_named(
                    entries,
                    name,
                    f,
                ) by {
                lemma_first_same(entries, first, name, f);
            }
            assert forall|f: int| #[trigger]
                supply::is_first_named(first, "Metroid4.pak"@, f) implies first[f]
                == entries[f] by {
                assert(is_finished(entries, f, first[f], only_first));
            }
            assert forall|f: int| #[trigger]
                supply::is_first_named(entries, "Metroid4.pak"@, f) implies first[f]
                == entries[f] by {
                assert(is_finished(entries, f, first[f], only_first));
            }
            lemma_same_start(entries, first);
            match second_step(first, options) {
                None => {},
                Some(second) => {
                    assert forall|i: int| 0 <= i < entries.len() implies (
                    #[trigger] second[i]).name == entries[i].name && (is_film(entries[i].name)
                        ==> second[i] == entries[i]) && is_finished(
                        entries,
                        i,
                        second[i],
                        (PatchOptions { keep_fmvs: true, ..options }),
                    ) by {
                        assert(is_finished(entries, i, first[i], only_first));
                        assert(is_finished(first, i, second[i], only_second));
                        assert(supply::is_first_named(first, "Metroid4.pak"@, i)
                            == supply::is_first_named(entries, "Metroid4.pak"@, i));
                    }
                    assert(files::fmv_names() =~= film_names());
                    assert(files::fmvs_are_files(second) <==> forall|f: int|
                        0 <= f < entries.len() && is_film((#[trigger] entries[f]).name)
                            ==> entries[f].file is Some) by {
                        if files::fmvs_are_files(second) {
                            assert forall|f: int|
                                0 <= f < entries.len() && is_film(
                                    (#[trigger] entries[f]).name,
                                ) implies entries[f].file is Some by {
                                assert(second[f] == entries[f]);
                            }
                        }
                    }
                    if patch::finished(entries, options) is Some {
                        let out = patch::finished(entries, options)->0;
                        assert forall|f: int| 0 <= f < out.len() implies is_finished(
                            entries,
                            f,
                            #[trigger] out[f],
                            options,
                        ) by {
                            assert(second[f].name == entries[f].name);
                        }
                    }
                },
            }
        },
    }
}

/// Where the file with the start is the same, so is what it holds.
proof fn lemma_same_start(entries: Seq<model::EntryView>, first: Seq<model::EntryView>)
    requires
        forall|f: int| #[trigger]
            supply::is_first_named(first, "Metroid4.pak"@, f) <==> supply::is_first_named(
                entries,
                "Metroid4.pak"@,
                f,
            ),
        forall|f: int| #[trigger]
            supply::is_first_named(first, "Metroid4.pak"@, f) ==> first[f] == entries[f],
    ensures
        forall|resources: Seq<model::ResourceView>|
            #![trigger supply::is_world(first, 2, resources)]
            #![trigger supply::is_world(entries, 2, resources)]
            supply::is_world(first, 2, resources) <==> supply::is_world(entries, 2, resources),
{
    assert(supply::world_names()[2] == "Metroid4.pak"@);
    assert forall|resources: Seq<model::ResourceView>| #[trigger]
        supply::is_world(first, 2, resources) <==> supply::is_world(entries, 2, resources) by {
        if supply::is_world(first, 2, resources) {
            let f = choose|f: int| #[trigger]
                supply::is_first_named(first, supply::world_names()[2], f) && first[f].file
                    == Some(model::FileView::Pak(resources));
            assert(supply::is_first_named(first, "Metroid4.pak"@, f));
            assert(supply::is_first_named(entries, supply::world_names()[2], f));
        }
        if supply::is_world(entries, 2, resources) {
            let f = choose|f: int| #[trigger]
                supply::is_first_named(entries, supply::world_names()[2], f) && entries[f].file
                    == Some(model::FileView::Pak(resources));
            assert(supply::is_first_named(first, "Metroid4.pak"@, f));
            assert(supply::is_first_named(first, supply::world_names()[2], f));
        }
    }
}

/// A disc is patched by placing the items and then finishing as the user wants; the lines that are
/// shown are those about the starting items, if any were given; and the one game that is patched
/// has an identifier of six bytes, which spell GM8E01.
pub proof fn law_disc_is_patched_in_turn(
    entries: Seq<model::EntryView>,
    layout: Seq<u8>,
    words: Seq<u32>,
    t: tables::TablesView,
    options: PatchOptions,
    identifier: Seq<u8>,
)
    ensures
        patch::patched_entries(entries, layout, words, t, options) == match patch::pickups_modified(
            entries,
            layout,
            words,
            t,
            options.skip_hudmenus,
        ) {
            Some(placed) => patch::finished(placed, options),
            None => None,
        },
        match options.starting_items {
            Some(items) => exists|s: SpawnPoint| #[trigger]
                starting::gives(s, items) && patch::report(options)
                    == starting_items::starting_report(s),
            None => patch::report(options).len() == 0,
        },
        identifier == patch::game_identifier() <==> {
            &&& identifier.len() == 6
            &&& identifier[0] as char == 'G'
            &&& identifier[1] as char == 'M'
            &&& identifier[2] as char == '8'
            &&& identifier[3] as char == 'E'
            &&& identifier[4] as char == '0'
            &&& identifier[5] as char == '1'
        },
{
    match options.starting_items {
        Some(items) => {
            starting::law_items_are_decoded(items, 0);
        },
        None => {},
    }
    let g = patch::game_identifier();
    if identifier.len() == 6 && identifier[0] as char == 'G' && identifier[1] as char == 'M'
        && identifier[2] as char == '8' && identifier[3] as char == 'E' && identifier[4] as char
        == '0' && identifier[5] as char == '1' {
        assert(identifier =~= g);
    }
}

} // verus!
