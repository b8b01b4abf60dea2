//! The resources that a room needs for the items in it, and where they come from.

use std::collections::HashMap;
use std::collections::HashSet;
use vstd::prelude::*;
use crate::files;
use crate::model;
use crate::model::{
    FileContent, FstEntry, Resource, ResourceKey, ResourceKind, StrgStringTable,
};
use crate::tables;
use crate::tables::{AssetIds, PickupMeta, Tables};

verus! {

broadcast use vstd::std_specs::hash::group_hash_axioms;

/// The names of the paks with pickups, in the order of a layout.
pub open spec fn pak_names() -> Seq<Seq<char>> {
    seq!["Metroid2.pak"@, "Metroid3.pak"@, "Metroid4.pak"@, "metroid5.pak"@, "Metroid6.pak"@]
}

/// The name of a pak with pickups.
pub fn pak_name(i: usize) -> (r: &'static str)
    requires
        i < tables::WORLD_COUNT,
    ensures
        r@ == pak_names()[i as int],
{
    if i == 0 {
        "Metroid2.pak"
    } else if i == 1 {
        "Metroid3.pak"
    } else if i == 2 {
        "Metroid4.pak"
    } else if i == 3 {
        "metroid5.pak"
    } else {
        "Metroid6.pak"
    }
}

/// Where a resource comes from.
#[derive(Clone, Copy, PartialEq, Eq, Structural, Debug)]
pub enum ResourceSource {
    /// The caller supplies it.
    Extra(usize),
    /// A pak with pickups holds it.
    Pak { pak: usize, index: usize },
    /// The model of the Phazon Suit, made from that of the Gravity Suit.
    PhazonCmdl,
    /// The character of the Phazon Suit, made from that of the Gravity Suit.
    PhazonAncs,
    /// The text that says without interruption which item was acquired.
    SkipHudmemo(usize),
}

/// A resource on offer.
pub ghost struct Offer {
    pub key: ResourceKey,
    pub source: ResourceSource,
}

/// Some item needs a resource.
pub open spec fn is_wanted(items: Seq<tables::PickupMetaView>, key: ResourceKey) -> bool {
    exists|i: int| 0 <= i < items.len() && (#[trigger] items[i]).deps.contains(key)
}

/// The first offer of a resource.
pub open spec fn first_offer(offers: Seq<Offer>, key: ResourceKey) -> Option<ResourceSource>
    decreases offers.len(),
{
    if offers.len() == 0 {
        None
    } else {
        match first_offer(offers.drop_last(), key) {
            Some(source) => Some(source),
            None => if offers.last().key == key {
                Some(offers.last().source)
            } else {
                None
            },
        }
    }
}

/// The offers of a pak.
pub open spec fn pak_offers(pak: int, keys: Seq<ResourceKey>) -> Seq<Offer> {
    Seq::new(
        keys.len(),
        |i: int|
            Offer {
                key: keys[i],
                source: ResourceSource::Pak { pak: pak as usize, index: i as usize },
            },
    )
}

/// The keys of the resources of a pak on the disc; `None` if there is no such pak.
pub open spec fn pak_keys(entries: Seq<model::EntryView>, name: Seq<char>) -> Option<
    Seq<ResourceKey>,
> {
    match files::first_named(entries, name) {
        None => None,
        Some(i) => match entries[i].file {
            Some(model::FileView::Pak(resources)) => Some(
                resources.map_values(|r: model::ResourceView| r.key),
            ),
            _ => None,
        },
    }
}

/// The first `n` paks with pickups are all on the disc.
pub open spec fn paks_present(entries: Seq<model::EntryView>, n: int) -> bool {
    forall|p: int| 0 <= p < n ==> pak_keys(entries, #[trigger] pak_names()[p]) is Some
}

/// The offers of the first `n` paks with pickups.
pub open spec fn offers_of_paks(entries: Seq<model::EntryView>, n: int) -> Seq<Offer>
    decreases n,
{
    if n <= 0 {
        Seq::empty()
    } else {
        offers_of_paks(entries, n - 1) + pak_offers(
            n - 1,
            pak_keys(entries, pak_names()[n - 1])->0,
        )
    }
}

/// Where a resource comes from, given the offers: the caller's own come first, and are taken
/// whether or not an item needs them.
pub open spec fn source_among(
    t: tables::TablesView,
    offers: Seq<Offer>,
    key: ResourceKey,
) -> Option<ResourceSource> {
    if t.extra_assets.contains(key) {
        Some(ResourceSource::Extra(t.extra_assets.index_of(key) as usize))
    } else if is_wanted(t.items, key) {
        first_offer(offers, key)
    } else {
        None
    }
}

/// The keys of the Gravity Suit's model and character, and of the Phazon Suit's.
pub open spec fn suit_key(file_id: u32, fourcc: u32) -> ResourceKey {
    ResourceKey { file_id, fourcc }
}

/// All offers: those of the paks, and the Phazon Suit.
pub open spec fn all_offers(entries: Seq<model::EntryView>, ids: tables::AssetIds) -> Seq<Offer> {
    offers_of_paks(entries, tables::WORLD_COUNT as int).push(
        Offer {
            key: suit_key(ids.phazon_suit_cmdl, model::CMDL),
            source: ResourceSource::PhazonCmdl,
        },
    ).push(
        Offer {
            key: suit_key(ids.phazon_suit_ancs, model::ANCS),
            source: ResourceSource::PhazonAncs,
        },
    )
}

/// Where a resource comes from.
pub open spec fn source_of(
    entries: Seq<model::EntryView>,
    t: tables::TablesView,
    key: ResourceKey,
) -> Option<ResourceSource> {
    source_among(t, all_offers(entries, t.ids), key)
}

/// The paks are there, the Gravity Suit is found in them, and every resource that an item needs
/// has a source.
pub open spec fn resources_complete(entries: Seq<model::EntryView>, t: tables::TablesView) -> bool {
    let paks = offers_of_paks(entries, tables::WORLD_COUNT as int);
    &&& paks_present(entries, tables::WORLD_COUNT as int)
    &&& source_among(t, paks, suit_key(t.ids.gravity_suit_cmdl, model::CMDL)) is Some
    &&& source_among(t, paks, suit_key(t.ids.gravity_suit_ancs, model::ANCS)) is Some
    &&& forall|key: ResourceKey| #[trigger]
        is_wanted(t.items, key) ==> source_of(entries, t, key) is Some
}

/// A map holds exactly what a function of the keys says.
pub open spec fn holds(
    map: Map<u64, ResourceSource>,
    source: spec_fn(ResourceKey) -> Option<ResourceSource>,
) -> bool {
    forall|key: ResourceKey|
        #![trigger key.code_spec()]
        match source(key) {
            Some(s) => map.contains_key(key.code_spec()) && map[key.code_spec()] == s,
            None => !map.contains_key(key.code_spec()),
        }
}

/// A set holds exactly the keys of which a predicate is true.
pub open spec fn holds_keys(set: Set<u64>, pred: spec_fn(ResourceKey) -> bool) -> bool {
    forall|key: ResourceKey|
        #![trigger key.code_spec()]
        set.contains(key.code_spec()) == pred(key)
}

/// Every number is that of a key.
proof fn lemma_code_onto(code: u64)
    ensures
        (ResourceKey {
            file_id: (code / 0x1_0000_0000) as u32,
            fourcc: (code % 0x1_0000_0000) as u32,
        }).code_spec() == code,
{
}

/// The resources that are still needed: wanted, and without a source so far.
spec fn missing(t: tables::TablesView, offers: Seq<Offer>, key: ResourceKey) -> bool {
    is_wanted(t.items, key) && source_among(t, offers, key) is None
}

/// One more offer.
proof fn lemma_one_more(
    t: tables::TablesView,
    offers: Seq<Offer>,
    offer: Offer,
    key: ResourceKey,
)
    ensures
        source_among(t, offers.push(offer), key) == if key == offer.key && missing(
            t,
            offers,
            key,
        ) {
            Some(offer.source)
        } else {
            source_among(t, offers, key)
        },
{
    assert(offers.push(offer).drop_last() =~= offers);
}

/// Takes an offer if its resource is still needed.
fn take_offer(
    looking_for: &mut HashSet<u64>,
    found: &mut HashMap<u64, ResourceSource>,
    key: ResourceKey,
    source: ResourceSource,
    Ghost(t): Ghost<tables::TablesView>,
    Ghost(offers): Ghost<Seq<Offer>>,
)
    requires
        holds_keys(old(looking_for)@, |k: ResourceKey| missing(t, offers, k)),
        holds(old(found)@, |k: ResourceKey| source_among(t, offers, k)),
    ensures
        holds_keys(
            final(looking_for)@,
            |k: ResourceKey| missing(t, offers.push(Offer { key, source }), k),
        ),
        holds(
            final(found)@,
            |k: ResourceKey| source_among(t, offers.push(Offer { key, source }), k),
        ),
{
    let code = key.code();
    let ghost before = found@;
    let ghost before_set = looking_for@;
    if looking_for.remove(&code) {
        found.insert(code, source);
    }
    proof {
        let more = offers.push(Offer { key, source });
        assert(before_set.contains(key.code_spec()) == missing(t, offers, key));
        assert forall|k: ResourceKey|
            #![trigger k.code_spec()]
            looking_for@.contains(k.code_spec()) == missing(t, more, k) by {
            lemma_one_more(t, offers, Offer { key, source }, k);
            if k.code_spec() == key.code_spec() {
                model::lemma_code_injective(k, key);
            }
            assert(before_set.contains(k.code_spec()) == missing(t, offers, k));
        }
        assert forall|k: ResourceKey|
            #![trigger k.code_spec()]
            match source_among(t, more, k) {
                Some(s) => found@.contains_key(k.code_spec()) && found@[k.code_spec()] == s,
                None => !found@.contains_key(k.code_spec()),
            } by {
            lemma_one_more(t, offers, Offer { key, source }, k);
            if k.code_spec() == key.code_spec() {
                model::lemma_code_injective(k, key);
            }
            let s = source_among(t, offers, k);
            assert(match s {
                Some(s) => before.contains_key(k.code_spec()) && before[k.code_spec()] == s,
                None => !before.contains_key(k.code_spec()),
            });
        }
    }
}

/// Collects the keys of all resources that items need.
fn collect_wanted(items: &Vec<PickupMeta>) -> (r: HashSet<u64>)
    ensures
        holds_keys(r@, |k: ResourceKey| is_wanted(model::views(items@), k)),
{
    let mut r: HashSet<u64> = HashSet::new();
    let ghost all = model::views(items@);
    for i in 0..items.len()
        invariant
            all == model::views(items@),
            holds_keys(r@, |k: ResourceKey| is_wanted(all.take(i as int), k)),
    {
        let deps = &items[i].deps;
        let ghost before = r@;
        assert(all[i as int].deps == deps@);
        for j in 0..deps.len()
            invariant
                forall|k: ResourceKey|
                    #![trigger k.code_spec()]
                    r@.contains(k.code_spec()) == (before.contains(k.code_spec()) || deps@.take(
                        j as int,
                    ).contains(k)),
        {
            let ghost now = r@;
            let code = deps[j].code();
            r.insert(code);
            assert forall|k: ResourceKey|
                #![trigger k.code_spec()]
                r@.contains(k.code_spec()) == (before.contains(k.code_spec()) || deps@.take(
                    j + 1,
                ).contains(k)) by {
                let shorter = deps@.take(j as int);
                let longer = deps@.take(j + 1);
                assert(longer =~= shorter.push(deps@[j as int]));
                if k.code_spec() == code {
                    model::lemma_code_injective(k, deps@[j as int]);
                    assert(longer[j as int] == k);
                }
                if shorter.contains(k) {
                    let m = choose|m: int| 0 <= m < shorter.len() && shorter[m] == k;
                    assert(longer[m] == k);
                }
                if longer.contains(k) && k != deps@[j as int] {
                    let m = choose|m: int| 0 <= m < longer.len() && longer[m] == k;
                    assert(shorter[m] == k);
                }
                assert(now.contains(k.code_spec()) == (before.contains(k.code_spec())
                    || deps@.take(j as int).contains(k)));
            }
        }
        assert(deps@.take(deps@.len() as int) =~= deps@);
        assert forall|k: ResourceKey|
            #![trigger k.code_spec()]
            r@.contains(k.code_spec()) == is_wanted(all.take(i + 1), k) by {
            assert(before.contains(k.code_spec()) == is_wanted(all.take(i as int), k));
            let shorter = all.take(i as int);
            let longer = all.take(i + 1);
            if is_wanted(shorter, k) {
                let m = choose|m: int|
                    0 <= m < shorter.len() && (#[trigger] shorter[m]).deps.contains(k);
                assert(longer[m].deps.contains(k));
            }
            if deps@.contains(k) {
                assert(longer[i as int].deps.contains(k));
            }
            if is_wanted(longer, k) && !deps@.contains(k) {
                let m = choose|m: int|
                    0 <= m < longer.len() && (#[trigger] longer[m]).deps.contains(k);
                assert(shorter[m].deps.contains(k));
            }
        }
    }
    assert(all.take(items@.len() as int) =~= all);
    r
}

/// Starts the collection with the caller's own resources.
fn collect_extra(t: &Tables) -> (r: (HashSet<u64>, HashMap<u64, ResourceSource>))
    requires
        t@.wf(),
    ensures
        holds_keys(r.0@, |k: ResourceKey| missing(t@, Seq::empty(), k)),
        holds(r.1@, |k: ResourceKey| source_among(t@, Seq::empty(), k)),
{
    let mut looking_for = collect_wanted(&t.items);
    let mut found: HashMap<u64, ResourceSource> = HashMap::new();
    let ghost extra = t@.extra_assets;
    for i in 0..t.extra_assets.len()
        invariant
            t@.wf(),
            extra == t@.extra_assets,
            extra == t.extra_assets@,
            forall|j: int|
                0 <= j < i ==> found@.contains_key((#[trigger] extra[j]).code_spec())
                    && found@[extra[j].code_spec()] == ResourceSource::Extra(j as usize),
            forall|k: ResourceKey|
                #![trigger k.code_spec()]
                found@.contains_key(k.code_spec()) ==> extra.take(i as int).contains(k),
            forall|k: ResourceKey|
                #![trigger k.code_spec()]
                looking_for@.contains(k.code_spec()) == (is_wanted(t@.items, k) && !extra.take(
                    i as int,
                ).contains(k)),
    {
        let ghost now = found@;
        let ghost now_set = looking_for@;
        let code = t.extra_assets[i].code();
        looking_for.remove(&code);
        found.insert(code, ResourceSource::Extra(i));
        let ghost shorter = extra.take(i as int);
        let ghost longer = extra.take(i + 1);
        assert(longer =~= shorter.push(extra[i as int]));
        assert forall|j: int| 0 <= j < i + 1 implies found@.contains_key(
            (#[trigger] extra[j]).code_spec(),
        ) && found@[extra[j].code_spec()] == ResourceSource::Extra(j as usize) by {
            if j < i && extra[j].code_spec() == code {
                model::lemma_code_injective(extra[j], extra[i as int]);
            }
        }
        assert forall|k: ResourceKey| #[trigger] longer.contains(k) == (shorter.contains(k) || k
            == extra[i as int]) by {
            if shorter.contains(k) {
                let m = choose|m: int| 0 <= m < shorter.len() && shorter[m] == k;
                assert(longer[m] == k);
            }
            if k == extra[i as int] {
                assert(longer[i as int] == k);
            }
            if longer.contains(k) {
                let m = choose|m: int| 0 <= m < longer.len() && longer[m] == k;
                if m < i {
                    assert(shorter[m] == k);
                }
            }
        }
        assert forall|k: ResourceKey|
            #![trigger k.code_spec()]
            found@.contains_key(k.code_spec()) implies longer.contains(k) by {
            if k.code_spec() == code {
                model::lemma_code_injective(k, extra[i as int]);
            } else {
                assert(now.contains_key(k.code_spec()));
            }
        }
        assert forall|k: ResourceKey|
            #![trigger k.code_spec()]
            looking_for@.contains(k.code_spec()) == (is_wanted(t@.items, k) && !longer.contains(
                k,
            )) by {
            if k.code_spec() == code {
                model::lemma_code_injective(k, extra[i as int]);
            } else {
                assert(now_set.contains(k.code_spec()) == looking_for@.contains(k.code_spec()));
            }
        }
    }
    proof {
        assert(extra.take(extra.len() as int) =~= extra);
        assert forall|k: ResourceKey|
            #![trigger k.code_spec()]
            match source_among(t@, Seq::empty(), k) {
                Some(s) => found@.contains_key(k.code_spec()) && found@[k.code_spec()] == s,
                None => !found@.contains_key(k.code_spec()),
            } by {
            if extra.contains(k) {
                let m = extra.index_of(k);
                assert(extra[m] == k);
            }
        }
    }
    (looking_for, found)
}

/// Appending the `i`-th offer of the `n`-th pak gives the offers up to and including it.
proof fn lemma_pak_offer(
    entries: Seq<model::EntryView>,
    n: int,
    keys: Seq<ResourceKey>,
    i: int,
)
    requires
        0 <= n < tables::WORLD_COUNT,
        pak_keys(entries, pak_names()[n]) == Some(keys),
        0 <= i < keys.len(),
    ensures
        (offers_of_paks(entries, n) + pak_offers(n, keys).take(i)).push(pak_offers(n, keys)[i])
            == offers_of_paks(entries, n) + pak_offers(n, keys).take(i + 1),
{
    assert((offers_of_paks(entries, n) + pak_offers(n, keys).take(i)).push(
        pak_offers(n, keys)[i],
    ) =~= offers_of_paks(entries, n) + pak_offers(n, keys).take(i + 1));
}

/// Finds where each resource comes from; `None` if the disc does not hold what is needed.
pub fn collect_pickup_resources(entries: &Vec<FstEntry>, t: &Tables) -> (r: Option<
    HashMap<u64, ResourceSource>,
>)
    requires
        t@.wf(),
    ensures
        r is Some <==> resources_complete(model::views(entries@), t@),
        r is Some ==> holds(
            (r->0)@,
            |k: ResourceKey| source_of(model::views(entries@), t@, k),
        ),
{
    let ghost all = model::views(entries@);
    let (mut looking_for, mut found) = collect_extra(t);
    let mut n: usize = 0;
    while n < tables::WORLD_COUNT
        invariant
            t@.wf(),
            all == model::views(entries@),
            n <= tables::WORLD_COUNT,
            paks_present(all, n as int),
            holds_keys(
                looking_for@,
                |k: ResourceKey| missing(t@, offers_of_paks(all, n as int), k),
            ),
            holds(found@, |k: ResourceKey| source_among(t@, offers_of_paks(all, n as int), k)),
        decreases tables::WORLD_COUNT - n,
    {
        let ghost name = pak_names()[n as int];
        let pak = match files::find_file(entries, pak_name(n)) {
            Some(at) => {
                assert(all[at as int] == entries@[at as int]@);
                match &entries[at].file {
                    Some(FileContent::Pak(pak)) => pak,
                    _ => {
                        assert(pak_keys(all, name) is None);
                        return None;
                    },
                }
            },
            None => {
                assert(pak_keys(all, name) is None);
                return None;
            },
        };
        let ghost keys = pak@.map_values(|r: model::ResourceView| r.key);
        let ghost offers = pak_offers(n as int, keys);
        assert(pak_keys(all, name) == Some(keys));
        let count = pak.resources.len();
        assert(offers_of_paks(all, n as int) + offers.take(0) =~= offers_of_paks(all, n as int));
        for i in 0..count
            invariant
                n < tables::WORLD_COUNT,
                count == pak.resources@.len(),
                keys == pak@.map_values(|r: model::ResourceView| r.key),
                pak_keys(all, pak_names()[n as int]) == Some(keys),
                offers == pak_offers(n as int, keys),
                holds_keys(
                    looking_for@,
                    |k: ResourceKey|
                        missing(t@, offers_of_paks(all, n as int) + offers.take(i as int), k),
                ),
                holds(
                    found@,
                    |k: ResourceKey|
                        source_among(t@, offers_of_paks(all, n as int) + offers.take(i as int), k),
                ),
        {
            let key = pak.resources[i].key;
            assert(keys[i as int] == key) by {
                assert(pak@[i as int] == pak.resources@[i as int]@);
            }
            let source = ResourceSource::Pak { pak: n, index: i };
            proof {
                lemma_pak_offer(all, n as int, keys, i as int);
            }
            take_offer(
                &mut looking_for,
                &mut found,
                key,
                source,
                Ghost(t@),
                Ghost(offers_of_paks(all, n as int) + offers.take(i as int)),
            );
        }
        assert(offers.take(count as int) =~= offers);
        n = n + 1;
    }
    let ghost paks = offers_of_paks(all, tables::WORLD_COUNT as int);
    let gravity_cmdl = ResourceKey { file_id: t.ids.gravity_suit_cmdl, fourcc: model::CMDL };
    let gravity_ancs = ResourceKey { file_id: t.ids.gravity_suit_ancs, fourcc: model::ANCS };
    if !found.contains_key(&gravity_cmdl.code()) || !found.contains_key(&gravity_ancs.code()) {
        return None;
    }
    let cmdl = ResourceKey { file_id: t.ids.phazon_suit_cmdl, fourcc: model::CMDL };
    take_offer(
        &mut looking_for,
        &mut found,
        cmdl,
        ResourceSource::PhazonCmdl,
        Ghost(t@),
        Ghost(paks),
    );
    let ancs = ResourceKey { file_id: t.ids.phazon_suit_ancs, fourcc: model::ANCS };
    take_offer(
        &mut looking_for,
        &mut found,
        ancs,
        ResourceSource::PhazonAncs,
        Ghost(t@),
        Ghost(paks.push(Offer { key: cmdl, source: ResourceSource::PhazonCmdl })),
    );
    proof {
        let offers = all_offers(all, t@.ids);
        assert(holds_keys(looking_for@, |k: ResourceKey| missing(t@, offers, k)));
        if looking_for@ =~= Set::empty() {
            assert forall|key: ResourceKey| #[trigger] is_wanted(t@.items, key) implies source_of(
                all,
                t@,
                key,
            ) is Some by {
                assert(!looking_for@.contains(key.code_spec()));
            }
        } else {
            let code = choose|code: u64| looking_for@.contains(code);
            lemma_code_onto(code);
            let key = ResourceKey {
                file_id: (code / 0x1_0000_0000) as u32,
                fourcc: (code % 0x1_0000_0000) as u32,
            };
            assert(looking_for@.contains(key.code_spec()));
            assert(is_wanted(t@.items, key));
        }
    }
    if looking_for.is_empty() {
        Some(found)
    } else {
        None
    }
}

/// Bytes with a number written over four of them, highest byte first.
pub open spec fn with_number(bytes: Seq<u8>, at: int, n: u32) -> Seq<u8> {
    bytes.update(at, (n / 0x100_0000) as u8).update(at + 1, ((n / 0x1_0000) % 0x100) as u8).update(
        at + 2,
        ((n / 0x100) % 0x100) as u8,
    ).update(at + 3, (n % 0x100) as u8)
}

/// Bytes filled up to a multiple of 32.
pub open spec fn padded(bytes: Seq<u8>, fill: u8) -> Seq<u8> {
    bytes + Seq::new(((32 - bytes.len() % 32) % 32) as nat, |i: int| fill)
}

/// The Phazon Suit's model: the Gravity Suit's with other textures; `None` if that is too short.
pub open spec fn phazon_model(cmdl: Seq<u8>, fill: u8, ids: AssetIds) -> Option<Seq<u8>> {
    let bytes = padded(cmdl, fill);
    if bytes.len() < 0x74 {
        None
    } else {
        Some(
            with_number(
                with_number(bytes, 0x64, ids.phazon_suit_txtr1),
                0x70,
                ids.phazon_suit_txtr2,
            ),
        )
    }
}

/// The Phazon Suit's character: the Gravity Suit's with the other model; `None` if that is too
/// short.
pub open spec fn phazon_character(ancs: Seq<u8>, fill: u8, ids: AssetIds) -> Option<Seq<u8>> {
    let bytes = padded(ancs, fill);
    if bytes.len() < 0x18 {
        None
    } else {
        Some(with_number(bytes, 0x14, ids.phazon_suit_cmdl))
    }
}

/// Fills bytes up to a multiple of 32.
fn pad(bytes: &mut Vec<u8>, fill: u8)
    ensures
        final(bytes)@ == padded(old(bytes)@, fill),
        final(bytes)@.len() % 32 == 0,
{
    let ghost before = bytes@;
    let count = (32 - bytes.len() % 32) % 32;
    for i in 0..count
        invariant
            bytes@ == before + Seq::new(i as nat, |j: int| fill),
    {
        bytes.push(fill);
    }
    assert(bytes@.len() == before.len() + count);
}

/// Writes a number over four bytes, highest byte first.
fn write_number(bytes: &mut Vec<u8>, at: usize, n: u32)
    requires
        at + 4 <= old(bytes)@.len(),
    ensures
        final(bytes)@ == with_number(old(bytes)@, at as int, n),
        final(bytes)@.len() == old(bytes)@.len(),
{
    assert(at + 4 <= bytes.len());
    bytes.set(at, (n / 0x100_0000) as u8);
    bytes.set(at + 1, ((n / 0x1_0000) % 0x100) as u8);
    bytes.set(at + 2, ((n / 0x100) % 0x100) as u8);
    bytes.set(at + 3, (n % 0x100) as u8);
}

/// Makes the model and the character of the Phazon Suit from the unpacked ones of the Gravity
/// Suit.
pub fn create_phazon_cmdl_and_ancs(
    cmdl: Vec<u8>,
    ancs: Vec<u8>,
    fill: u8,
    ids: &AssetIds,
) -> (r: Option<(Vec<u8>, Vec<u8>)>)
    ensures
        r is Some <==> phazon_model(cmdl@, fill, *ids) is Some && phazon_character(
            ancs@,
            fill,
            *ids,
        ) is Some,
        r is Some ==> (r->0).0@ == phazon_model(cmdl@, fill, *ids)->0,
        r is Some ==> (r->0).1@ == phazon_character(ancs@, fill, *ids)->0,
        r is Some ==> (r->0).0@.len() % 32 == 0 && (r->0).1@.len() % 32 == 0,
{
    let mut model_bytes = cmdl;
    pad(&mut model_bytes, fill);
    if model_bytes.len() < 0x74 {
        return None;
    }
    write_number(&mut model_bytes, 0x64, ids.phazon_suit_txtr1);
    write_number(&mut model_bytes, 0x70, ids.phazon_suit_txtr2);
    let mut character_bytes = ancs;
    pad(&mut character_bytes, fill);
    if character_bytes.len() < 0x18 {
        return None;
    }
    write_number(&mut character_bytes, 0x14, ids.phazon_suit_cmdl);
    Some((model_bytes, character_bytes))
}

/// The key of the text that says without interruption which item was acquired.
pub open spec fn skip_key(ids: AssetIds, item: int) -> ResourceKey {
    ResourceKey { file_id: tables::skip_hudmemo_id(ids, item), fourcc: model::STRG }
}

/// The text that says without interruption which item was acquired.
pub open spec fn skip_resource(t: tables::TablesView, item: int) -> model::ResourceView {
    model::ResourceView {
        key: skip_key(t.ids, item),
        kind: model::ResourceKindView::Strg(
            seq![
                model::StringTableView {
                    lang: model::ENGL,
                    strings: seq!["&just=center;"@ + t.items[item].name + " acquired!\0"@],
                },
            ],
        ),
    }
}

/// The sources with those of the texts of the first `n` items.
pub open spec fn with_skip_texts(
    map: Map<u64, ResourceSource>,
    ids: AssetIds,
    n: int,
) -> Map<u64, ResourceSource>
    decreases n,
{
    if n <= 0 {
        map
    } else {
        with_skip_texts(map, ids, n - 1).insert(
            skip_key(ids, n - 1).code_spec(),
            ResourceSource::SkipHudmemo((n - 1) as usize),
        )
    }
}

/// None of the texts of the first `n` items is there yet.
pub open spec fn skip_texts_free(map: Map<u64, ResourceSource>, ids: AssetIds, n: int) -> bool {
    forall|i: int| 0 <= i < n ==> !map.contains_key((#[trigger] skip_key(ids, i)).code_spec())
}

/// The text of a later item is not among those of the first ones.
proof fn lemma_skip_text_new(map: Map<u64, ResourceSource>, t: tables::TablesView, n: int, i: int)
    requires
        t.has_message_ids(),
        0 <= n <= i < t.items.len(),
    ensures
        with_skip_texts(map, t.ids, n).contains_key(skip_key(t.ids, i).code_spec())
            == map.contains_key(skip_key(t.ids, i).code_spec()),
    decreases n,
{
    if n > 0 {
        lemma_skip_text_new(map, t, n - 1, i);
        if skip_key(t.ids, n - 1).code_spec() == skip_key(t.ids, i).code_spec() {
            model::lemma_code_injective(skip_key(t.ids, n - 1), skip_key(t.ids, i));
        }
    }
}

/// Adds the texts that say without interruption which item was acquired; `None` if one of them is
/// there already.
pub fn add_skip_hudmemos_strgs(map: HashMap<u64, ResourceSource>, t: &Tables) -> (r: Option<
    (HashMap<u64, ResourceSource>, Vec<Resource>),
>)
    requires
        t@.has_message_ids(),
    ensures
        r is Some <==> skip_texts_free(map@, t@.ids, t@.items.len() as int),
        r is Some ==> (r->0).0@ == with_skip_texts(map@, t@.ids, t@.items.len() as int),
        r is Some ==> model::views((r->0).1@) == Seq::new(
            t@.items.len(),
            |i: int| skip_resource(t@, i),
        ),
{
    let mut sources = map;
    let mut texts: Vec<Resource> = Vec::new();
    for i in 0..t.items.len()
        invariant
            t@.has_message_ids(),
            texts@.len() == i,
            sources@ == with_skip_texts(map@, t@.ids, i as int),
            skip_texts_free(map@, t@.ids, i as int),
            forall|j: int| 0 <= j < i ==> (#[trigger] texts@[j])@ == skip_resource(t@, j),
    {
        assert(t@.items[i as int] == t.items@[i as int]@);
        let key = ResourceKey {
            file_id: tables::skip_hudmemos_strg_id(&t.ids, i),
            fourcc: model::STRG,
        };
        assert(key == skip_key(t@.ids, i as int));
        proof {
            lemma_skip_text_new(map@, t@, i as int, i as int);
        }
        let code = key.code();
        if sources.contains_key(&code) {
            return None;
        }
        sources.insert(code, ResourceSource::SkipHudmemo(i));
        let mut text = "&just=center;".to_owned();
        text.append(t.items[i].name.as_str());
        text.append(" acquired!\0");
        let mut strings: Vec<String> = Vec::new();
        strings.push(text);
        let table = StrgStringTable { lang: model::ENGL, strings };
        let mut string_tables: Vec<StrgStringTable> = Vec::new();
        string_tables.push(table);
        let resource = Resource { key, kind: ResourceKind::Strg(string_tables) };
        proof {
            let expected = skip_resource(t@, i as int);
            assert(table@.strings =~= seq!["&just=center;"@ + t@.items[i as int].name
                + " acquired!\0"@]);
            assert(model::views(string_tables@) =~= expected.kind->Strg_0);
        }
        texts.push(resource);
    }
    assert(model::views(texts@) =~= Seq::new(t@.items.len(), |i: int| skip_resource(t@, i)));
    Some((sources, texts))
}

} // verus!
