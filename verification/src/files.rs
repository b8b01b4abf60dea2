//! Files on the disc that are patched as a whole.

use vstd::prelude::*;
use crate::model;
use crate::model::{FileContent, FstEntry};

verus! {

/// The position of the first entry with a name.
pub open spec fn first_named(entries: Seq<model::EntryView>, name: Seq<char>) -> Option<int>
    decreases entries.len(),
{
    if entries.len() == 0 {
        None
    } else if entries[0].name == name {
        Some(0)
    } else {
        match first_named(entries.drop_first(), name) {
            Some(i) => Some(i + 1),
            None => None,
        }
    }
}

/// No earlier entry has the name.
pub proof fn lemma_first_named(entries: Seq<model::EntryView>, name: Seq<char>)
    ensures
        match first_named(entries, name) {
            Some(i) => {
                &&& 0 <= i < entries.len()
                &&& entries[i].name == name
                &&& forall|j: int| 0 <= j < i ==> (#[trigger] entries[j]).name != name
            },
            None => forall|j: int| 0 <= j < entries.len() ==> (#[trigger] entries[j]).name != name,
        },
    decreases entries.len(),
{
    if entries.len() > 0 && entries[0].name != name {
        let rest = entries.drop_first();
        lemma_first_named(rest, name);
        let end = match first_named(rest, name) {
            Some(i) => i,
            None => rest.len() as int,
        };
        assert forall|j: int| 0 <= j < end + 1 implies (#[trigger] entries[j]).name != name by {
            if j > 0 {
                assert(rest[j - 1] == entries[j]);
            }
        }
    }
}

/// Whether two texts are equal.
fn same_text(a: &str, b: &str) -> (r: bool)
    ensures
        r == (a@ == b@),
{
    a.to_owned() == b.to_owned()
}

/// Finds the first entry with a name.
pub fn find_file(entries: &Vec<FstEntry>, name: &str) -> (r: Option<usize>)
    ensures
        match r {
            Some(i) => first_named(model::views(entries@), name@) == Some(i as int) && i
                < entries@.len(),
            None => first_named(model::views(entries@), name@) is None,
        },
{
    let ghost all = model::views(entries@);
    proof {
        lemma_first_named(all, name@);
    }
    for i in 0..entries.len()
        invariant
            all == model::views(entries@),
            forall|j: int| 0 <= j < i ==> (#[trigger] all[j]).name != name@,
            match first_named(all, name@) {
                Some(i) => 0 <= i < all.len() && all[i].name == name@ && forall|j: int|
                    0 <= j < i ==> (#[trigger] all[j]).name != name@,
                None => forall|j: int| 0 <= j < all.len() ==> (#[trigger] all[j]).name != name@,
            },
    {
        assert(all[i as int] == entries@[i as int]@);
        if same_text(entries[i].name.as_str(), name) {
            return Some(i);
        }
    }
    None
}

/// The first place where the frigate is skipped.
pub const DOL_PATCH_1: usize = 0x1FF1E;

/// The second place where the frigate is skipped.
pub const DOL_PATCH_2: usize = 0x1FF2A;

/// The main program with the first level skipped: two bytes at each of two places differ.
pub open spec fn without_frigate(dol: Seq<u8>) -> Seq<u8> {
    dol.update(DOL_PATCH_1 as int, 0x39).update(DOL_PATCH_1 + 1, 0xF3).update(
        DOL_PATCH_2 as int,
        0xDE,
    ).update(DOL_PATCH_2 + 1, 0x28)
}

/// Makes the main program skip the first level.
pub fn patch_dol_skip_frigate(dol: Vec<u8>) -> (r: Vec<u8>)
    requires
        dol@.len() >= DOL_PATCH_2 + 2,
    ensures
        r@ == without_frigate(dol@),
        r@.len() == dol@.len(),
{
    let mut dol = dol;
    dol.set(DOL_PATCH_1, 0x39);
    dol.set(DOL_PATCH_1 + 1, 0xF3);
    dol.set(DOL_PATCH_2, 0xDE);
    dol.set(DOL_PATCH_2 + 1, 0x28);
    dol
}

/// Skipping the first level twice is skipping it once, and only four bytes change.
pub proof fn law_frigate_skipped_once(dol: Seq<u8>)
    requires
        dol.len() >= DOL_PATCH_2 + 2,
    ensures
        without_frigate(without_frigate(dol)) == without_frigate(dol),
        forall|i: int|
            0 <= i < dol.len() && !(DOL_PATCH_1 <= i < DOL_PATCH_1 + 2) && !(DOL_PATCH_2 <= i
                < DOL_PATCH_2 + 2) ==> without_frigate(dol)[i] == dol[i],
{
    assert(without_frigate(without_frigate(dol)) =~= without_frigate(dol));
}

/// The names of the films of the attract mode.
pub open spec fn fmv_names() -> Seq<Seq<char>> {
    seq![
        "attract0.thp"@,
        "attract1.thp"@,
        "attract2.thp"@,
        "attract3.thp"@,
        "attract4.thp"@,
        "attract5.thp"@,
        "attract6.thp"@,
        "attract7.thp"@,
        "attract8.thp"@,
        "attract9.thp"@,
    ]
}

/// Whether a name is that of a film of the attract mode.
pub fn is_fmv_name(name: &str) -> (r: bool)
    ensures
        r == fmv_names().contains(name@),
{
    let names: [&'static str; 10] = [
        "attract0.thp",
        "attract1.thp",
        "attract2.thp",
        "attract3.thp",
        "attract4.thp",
        "attract5.thp",
        "attract6.thp",
        "attract7.thp",
        "attract8.thp",
        "attract9.thp",
    ];
    let ghost all = fmv_names();
    for i in 0..10usize
        invariant
            all == fmv_names(),
            all.len() == 10,
            forall|j: int| 0 <= j < 10 ==> (#[trigger] names@[j])@ == all[j],
            forall|j: int| 0 <= j < i ==> all[j] != name@,
    {
        if same_text(names[i], name) {
            assert(all[i as int] == name@);
            return true;
        }
    }
    false
}

/// Every film of the attract mode is a file.
pub open spec fn fmvs_are_files(entries: Seq<model::EntryView>) -> bool {
    forall|i: int|
        0 <= i < entries.len() && fmv_names().contains((#[trigger] entries[i]).name)
            ==> entries[i].file is Some
}

/// The entries with the films of the attract mode replaced.
pub open spec fn with_fmvs_replaced(entries: Seq<model::EntryView>) -> Seq<model::EntryView> {
    entries.map_values(
        |e: model::EntryView|
            if fmv_names().contains(e.name) {
                model::EntryView { file: Some(model::FileView::AttractMode), ..e }
            } else {
                e
            },
    )
}

/// Replaces the films of the attract mode; `None` if one of them is no file.
pub fn replace_fmvs(entries: Vec<FstEntry>) -> (r: Option<Vec<FstEntry>>)
    ensures
        r is Some <==> fmvs_are_files(model::views(entries@)),
        r is Some ==> model::views((r->0)@) == with_fmvs_replaced(model::views(entries@)),
{
    let ghost before = model::views(entries@);
    let mut patched = entries;
    let count = patched.len();
    for i in 0..count
        invariant
            before == model::views(entries@),
            count == patched.len(),
            count == before.len(),
            forall|j: int|
                0 <= j < i && fmv_names().contains((#[trigger] before[j]).name)
                    ==> before[j].file is Some,
            forall|j: int|
                0 <= j < i ==> #[trigger] model::views(patched@)[j] == with_fmvs_replaced(
                    before,
                )[j],
            forall|j: int| i <= j < count ==> #[trigger] model::views(patched@)[j] == before[j],
    {
        let ghost now = patched@;
        assert(model::views(now)[i as int] == now[i as int]@);
        if is_fmv_name(patched[i].name.as_str()) {
            if patched[i].file.is_none() {
                assert(before[i as int].file is None);
                return None;
            }
            patched[i].file = Some(FileContent::AttractMode);
            assert(model::views(patched@)[i as int] == patched@[i as int]@);
            assert forall|j: int| 0 <= j < count && j != i implies #[trigger] model::views(
                patched@,
            )[j] == model::views(now)[j] by {
                assert(patched@[j] == now[j]);
            }
        }
    }
    assert(model::views(patched@) =~= with_fmvs_replaced(before));
    Some(patched)
}

/// Replacing the films twice is replacing them once, and names stay.
pub proof fn law_fmvs_replaced_once(entries: Seq<model::EntryView>)
    ensures
        with_fmvs_replaced(with_fmvs_replaced(entries)) == with_fmvs_replaced(entries),
        with_fmvs_replaced(entries).len() == entries.len(),
        forall|i: int|
            0 <= i < entries.len() ==> (#[trigger] with_fmvs_replaced(entries)[i]).name
                == entries[i].name,
{
    assert(with_fmvs_replaced(with_fmvs_replaced(entries)) =~= with_fmvs_replaced(entries));
}

} // verus!
