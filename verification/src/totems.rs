//! What the totems of the Artifact Temple say about the places of the artifacts.

use rand::XorShiftRng;
use vstd::prelude::*;
use crate::model;
use crate::pak;
use crate::random;
use crate::tables;
use crate::tables::{RoomInfo, Tables};
use crate::text;

verus! {

/// The room id of the Artifact Temple.
pub const ARTIFACT_TEMPLE_ROOM: u32 = 0x2398E906;

/// The first item of a layout that is an artifact.
pub const FIRST_ARTIFACT: u8 = 23;

/// The last item of a layout that is an artifact.
pub const LAST_ARTIFACT: u8 = 34;

/// A text for any room.
pub const GENERIC_TEMPLATE_0: &'static str = "I mean, maybe it'll be in the &push;&main-color=#43CD80;{room}&pop;. I forgot, to be honest.\0";

/// A text for any room.
pub const GENERIC_TEMPLATE_1: &'static str = "I'm not sure where the artifact exactly is, but like, you can try the &push;&main-color=#43CD80;{room}&pop;.\0";

/// A text for any room.
pub const GENERIC_TEMPLATE_2: &'static str = "Hey man, so some of the Chozo dudes are telling me that they're might be a thing in the &push;&main-color=#43CD80;{room}&pop;. Just sayin'.\0";

/// A text for any room.
pub const GENERIC_TEMPLATE_3: &'static str = "Uhh umm... Where was it...? Uhhh, errr, it's definitely in the &push;&main-color=#43CD80;{room}&pop;! I am 100% not totally making it up...\0";

/// A text for any room.
pub const GENERIC_TEMPLATE_4: &'static str = "Some say it may be in the &push;&main-color=#43CD80;{room}&pop;. Others say that you have no business here. Please leave me alone.\0";

/// A text for any room.
pub const GENERIC_TEMPLATE_5: &'static str = "So a buddy of mine and I were drinking one night and we thought 'Hey, wouldn't be crazy if we put it at the &push;&main-color=#43CD80;{room}&pop;?' So we did and it took both of us just to get it there!\0";

/// A text for any room.
pub const GENERIC_TEMPLATE_6: &'static str = "So, uhhh, I kind of got a little lazy and I might have just dropped mine somewhere... Maybe it's in the &push;&main-color=#43CD80;{room}&pop;? Who knows.\0";

/// A text for any room.
pub const GENERIC_TEMPLATE_7: &'static str = "I uhhh... was a little late to the party and someone had to run out and hide both mine and hers. I owe her one. She told me it might be in the &push;&main-color=#43CD80;{room}&pop;, so you're going to have to trust her on this one.\0";

/// A text for any room.
pub const GENERIC_TEMPLATE_8: &'static str = "Okay, so this jerk forgets to hide his and I had to hide it for him too. So, I just tossed his somewhere and made up a name for the room. This is literally saving the planet - how can anyone forget that? Anyway, mine is in the &push;&main-color=#43CD80;{room}&pop;, so go check it out. I'm never doing this again...\0";

/// A text for any room.
pub const GENERIC_TEMPLATE_9: &'static str = "To be honest, I don't know if it was a Missile Expansion or not. Maybe it was... We'll just go with that: There's a Missile Expansion at the &push;&main-color=#43CD80;{room}&pop;.\0";

/// A text for any room.
pub const GENERIC_TEMPLATE_10: &'static str = "Hear the words of Oh Leer, last Chozo of the Artifact Temple. May they serve you well, that you may find a key lost to our cause... Alright, whatever. It's at the &push;&main-color=#43CD80;{room}&pop;.\0";

/// A text for any room.
pub const GENERIC_TEMPLATE_11: &'static str = "I kind of just played Frisbee with mine. It flew and landed too far so I didn't want to walk over and grab it because I was lazy. It's in the &push;&main-color=#43CD80;{room}&pop; if you want to find it.\0";

/// The texts for any room.
pub open spec fn generic_templates() -> Seq<Seq<char>> {
    seq![
        GENERIC_TEMPLATE_0@,
        GENERIC_TEMPLATE_1@,
        GENERIC_TEMPLATE_2@,
        GENERIC_TEMPLATE_3@,
        GENERIC_TEMPLATE_4@,
        GENERIC_TEMPLATE_5@,
        GENERIC_TEMPLATE_6@,
        GENERIC_TEMPLATE_7@,
        GENERIC_TEMPLATE_8@,
        GENERIC_TEMPLATE_9@,
        GENERIC_TEMPLATE_10@,
        GENERIC_TEMPLATE_11@,
    ]
}

/// The texts for the Artifact Temple itself.
pub open spec fn temple_templates() -> Seq<Seq<char>> {
    seq!["{pickup} awaits those who truly seek it.\0"@]
}

/// The text for an artifact that the layout does not place.
pub open spec fn absent_text() -> Seq<char> {
    "Artifact not present. This layout may not be completable.\0"@
}

/// A template that no replacement of a placeholder makes empty.
pub open spec fn is_lasting(template: Seq<char>) -> bool {
    template.len() > 0 && template.last() == '\0'
}

/// All templates are such.
pub open spec fn all_lasting(templates: Seq<Seq<char>>) -> bool {
    forall|i: int| 0 <= i < templates.len() ==> is_lasting(#[trigger] templates[i])
}

/// The templates for any room, ready to be shuffled.
fn make_generic_templates() -> (r: Vec<&'static str>)
    ensures
        model::views(r@) == generic_templates(),
{
    let mut r: Vec<&'static str> = Vec::new();
    r.push(GENERIC_TEMPLATE_0);
    r.push(GENERIC_TEMPLATE_1);
    r.push(GENERIC_TEMPLATE_2);
    r.push(GENERIC_TEMPLATE_3);
    r.push(GENERIC_TEMPLATE_4);
    r.push(GENERIC_TEMPLATE_5);
    r.push(GENERIC_TEMPLATE_6);
    r.push(GENERIC_TEMPLATE_7);
    r.push(GENERIC_TEMPLATE_8);
    r.push(GENERIC_TEMPLATE_9);
    r.push(GENERIC_TEMPLATE_10);
    r.push(GENERIC_TEMPLATE_11);
    assert(model::views(r@) =~= generic_templates());
    r
}

/// The written templates end in a NUL.
proof fn lemma_templates_last()
    ensures
        all_lasting(generic_templates()),
        all_lasting(temple_templates()),
{
    reveal_strlit("I mean, maybe it'll be in the &push;&main-color=#43CD80;{room}&pop;. I forgot, to be honest.\0");
    reveal_strlit("I'm not sure where the artifact exactly is, but like, you can try the &push;&main-color=#43CD80;{room}&pop;.\0");
    reveal_strlit("Hey man, so some of the Chozo dudes are telling me that they're might be a thing in the &push;&main-color=#43CD80;{room}&pop;. Just sayin'.\0");
    reveal_strlit("Uhh umm... Where was it...? Uhhh, errr, it's definitely in the &push;&main-color=#43CD80;{room}&pop;! I am 100% not totally making it up...\0");
    reveal_strlit("Some say it may be in the &push;&main-color=#43CD80;{room}&pop;. Others say that you have no business here. Please leave me alone.\0");
    reveal_strlit("So a buddy of mine and I were drinking one night and we thought 'Hey, wouldn't be crazy if we put it at the &push;&main-color=#43CD80;{room}&pop;?' So we did and it took both of us just to get it there!\0");
    reveal_strlit("So, uhhh, I kind of got a little lazy and I might have just dropped mine somewhere... Maybe it's in the &push;&main-color=#43CD80;{room}&pop;? Who knows.\0");
    reveal_strlit("I uhhh... was a little late to the party and someone had to run out and hide both mine and hers. I owe her one. She told me it might be in the &push;&main-color=#43CD80;{room}&pop;, so you're going to have to trust her on this one.\0");
    reveal_strlit("Okay, so this jerk forgets to hide his and I had to hide it for him too. So, I just tossed his somewhere and made up a name for the room. This is literally saving the planet - how can anyone forget that? Anyway, mine is in the &push;&main-color=#43CD80;{room}&pop;, so go check it out. I'm never doing this again...\0");
    reveal_strlit("To be honest, I don't know if it was a Missile Expansion or not. Maybe it was... We'll just go with that: There's a Missile Expansion at the &push;&main-color=#43CD80;{room}&pop;.\0");
    reveal_strlit("Hear the words of Oh Leer, last Chozo of the Artifact Temple. May they serve you well, that you may find a key lost to our cause... Alright, whatever. It's at the &push;&main-color=#43CD80;{room}&pop;.\0");
    reveal_strlit("I kind of just played Frisbee with mine. It flew and landed too far so I didn't want to walk over and grab it because I was lazy. It's in the &push;&main-color=#43CD80;{room}&pop; if you want to find it.\0");
    reveal_strlit("{pickup} awaits those who truly seek it.\0");
}

/// A room as the totems speak of it.
pub ghost struct NamedRoom {
    pub room_id: u32,
    pub name: Seq<char>,
}

/// The room of each of its locations.
pub open spec fn room_entries(room: tables::RoomInfoView) -> Seq<NamedRoom> {
    Seq::new(
        room.pickup_locations.len(),
        |i: int| NamedRoom { room_id: room.room_id, name: room.name },
    )
}

/// The room of each location of a world.
pub open spec fn world_entries(rooms: Seq<tables::RoomInfoView>) -> Seq<NamedRoom>
    decreases rooms.len(),
{
    if rooms.len() == 0 {
        Seq::empty()
    } else {
        world_entries(rooms.drop_last()) + room_entries(rooms.last())
    }
}

/// The room of each location, in the order of a layout.
pub open spec fn location_rooms(worlds: Seq<Seq<tables::RoomInfoView>>) -> Seq<NamedRoom>
    decreases worlds.len(),
{
    if worlds.len() == 0 {
        Seq::empty()
    } else {
        location_rooms(worlds.drop_last()) + world_entries(worlds.last())
    }
}

/// What was written so far: the texts, how many templates for any room they took, and the
/// templates that the Artifact Temple has left.
pub ghost struct TotemState {
    pub texts: Seq<Option<Seq<char>>>,
    pub used: int,
    pub temple: Seq<Seq<char>>,
}

/// A template with the names filled in.
pub open spec fn filled_in(template: Seq<char>, room: Seq<char>, pickup: Seq<char>) -> Seq<char> {
    text::replaced(text::replaced(template, "{room}"@, room), "{pickup}"@, pickup)
}

/// An item of a layout is an artifact.
pub open spec fn is_artifact(item: u8) -> bool {
    FIRST_ARTIFACT <= item <= LAST_ARTIFACT
}

/// The template that a text for a room is made of.
pub open spec fn template_for(
    state: TotemState,
    room: NamedRoom,
    templates: Seq<Seq<char>>,
) -> Seq<char> {
    if room.room_id == ARTIFACT_TEMPLE_ROOM && state.temple.len() > 0 {
        state.temple.last()
    } else {
        templates[state.used]
    }
}

/// The state after one location: the first place of an artifact gets a text.
pub open spec fn after_location(
    state: TotemState,
    item: u8,
    room: NamedRoom,
    templates: Seq<Seq<char>>,
    items: Seq<tables::PickupMetaView>,
) -> TotemState {
    let a = item - FIRST_ARTIFACT;
    if !is_artifact(item) || state.texts[a] is Some {
        state
    } else {
        let text = filled_in(
            template_for(state, room, templates),
            room.name,
            items[item as int].name,
        );
        let texts = state.texts.update(a, Some(text));
        if room.room_id == ARTIFACT_TEMPLE_ROOM && state.temple.len() > 0 {
            TotemState { texts, temple: state.temple.drop_last(), ..state }
        } else {
            TotemState { texts, used: state.used + 1, ..state }
        }
    }
}

/// The state after the first `k` locations.
pub open spec fn after_locations(
    k: int,
    layout: Seq<u8>,
    rooms: Seq<NamedRoom>,
    templates: Seq<Seq<char>>,
    temple: Seq<Seq<char>>,
    items: Seq<tables::PickupMetaView>,
) -> TotemState
    decreases k,
{
    if k <= 0 {
        TotemState {
            texts: Seq::new(pak::ARTIFACT_COUNT as nat, |i: int| None),
            used: 0,
            temple,
        }
    } else {
        after_location(
            after_locations(k - 1, layout, rooms, templates, temple, items),
            layout[k - 1],
            rooms[k - 1],
            templates,
            items,
        )
    }
}

/// How many locations a layout and the rooms have in common.
pub open spec fn common_len(layout: Seq<u8>, rooms: Seq<NamedRoom>) -> int {
    if layout.len() <= rooms.len() {
        layout.len() as int
    } else {
        rooms.len() as int
    }
}

/// The texts of the totems, from templates in a given order.
pub open spec fn totem_texts(
    layout: Seq<u8>,
    templates: Seq<Seq<char>>,
    temple: Seq<Seq<char>>,
    t: tables::TablesView,
) -> Seq<Seq<char>> {
    let rooms = location_rooms(t.rooms);
    let end = after_locations(
        common_len(layout, rooms),
        layout,
        rooms,
        templates,
        temple,
        t.items,
    );
    end.texts.map_values(
        |s: Option<Seq<char>>|
            match s {
                Some(text) => text,
                None => absent_text(),
            },
    )
}

/// How many texts are written.
pub open spec fn written(texts: Seq<Option<Seq<char>>>) -> int
    decreases texts.len(),
{
    if texts.len() == 0 {
        0
    } else if texts.last() is None {
        written(texts.drop_last())
    } else {
        written(texts.drop_last()) + 1
    }
}

/// Writing one more text counts, and there are no more than all.
proof fn lemma_written(texts: Seq<Option<Seq<char>>>, a: int, s: Seq<char>)
    requires
        0 <= a < texts.len(),
        texts[a] is None,
    ensures
        written(texts.update(a, Some(s))) == written(texts) + 1,
        written(texts) < texts.len(),
    decreases texts.len(),
{
    let rest = texts.drop_last();
    if a == texts.len() - 1 {
        assert(texts.update(a, Some(s)).drop_last() =~= rest);
        lemma_written_bound(rest);
    } else {
        lemma_written(rest, a, s);
        assert(texts.update(a, Some(s)).drop_last() =~= rest.update(a, Some(s)));
    }
}

proof fn lemma_written_bound(texts: Seq<Option<Seq<char>>>)
    ensures
        written(texts) <= texts.len(),
    decreases texts.len(),
{
    if texts.len() > 0 {
        lemma_written_bound(texts.drop_last());
    }
}

/// A filled-in template is not empty.
proof fn lemma_filled_in(template: Seq<char>, room: Seq<char>, pickup: Seq<char>)
    requires
        is_lasting(template),
    ensures
        filled_in(template, room, pickup).len() > 0,
{
    reveal_strlit("{room}");
    reveal_strlit("{pickup}");
    text::lemma_replaced_keeps_end(template, "{room}"@, room);
    text::lemma_replaced_keeps_end(
        text::replaced(template, "{room}"@, room),
        "{pickup}"@,
        pickup,
    );
}

/// The number of templates taken is at most that of the texts written, and there is a text for
/// exactly the artifacts among the items so far.
pub proof fn lemma_templates_suffice(
    k: int,
    layout: Seq<u8>,
    rooms: Seq<NamedRoom>,
    templates: Seq<Seq<char>>,
    temple: Seq<Seq<char>>,
    items: Seq<tables::PickupMetaView>,
)
    requires
        0 <= k <= layout.len(),
        k <= rooms.len(),
    ensures
        ({
            let state = after_locations(k, layout, rooms, templates, temple, items);
            &&& state.texts.len() == pak::ARTIFACT_COUNT
            &&& 0 <= state.used <= written(state.texts)
            &&& forall|a: int|
                0 <= a < pak::ARTIFACT_COUNT ==> ((#[trigger] state.texts[a]) is Some
                    <==> layout.take(k).contains((FIRST_ARTIFACT + a) as u8))
        }),
    decreases k,
{
    let now = after_locations(k, layout, rooms, templates, temple, items);
    if k <= 0 {
        lemma_nothing_written(now.texts);
    } else {
        lemma_templates_suffice(k - 1, layout, rooms, templates, temple, items);
        let state = after_locations(k - 1, layout, rooms, templates, temple, items);
        let item = layout[k - 1];
        let a = item - FIRST_ARTIFACT;
        if is_artifact(item) && state.texts[a] is None {
            lemma_written(state.texts, a, now.texts[a]->0);
        }
        let before = layout.take(k - 1);
        assert(layout.take(k) =~= before.push(item));
        assert forall|b: int| 0 <= b < pak::ARTIFACT_COUNT implies ((
        #[trigger] now.texts[b]) is Some <==> layout.take(k).contains(
            (FIRST_ARTIFACT + b) as u8,
        )) by {
            let other = (FIRST_ARTIFACT + b) as u8;
            assert(state.texts[b] is Some <==> before.contains(other));
            if before.contains(other) {
                let j = choose|j: int| 0 <= j < before.len() && before[j] == other;
                assert(before.push(item)[j] == other);
            }
            assert(before.push(item)[k - 1] == item);
        }
    }
}

/// Every text that is written is not empty, and so is every template that is left.
proof fn lemma_texts_last(
    k: int,
    layout: Seq<u8>,
    rooms: Seq<NamedRoom>,
    templates: Seq<Seq<char>>,
    temple: Seq<Seq<char>>,
    items: Seq<tables::PickupMetaView>,
)
    requires
        0 <= k <= layout.len(),
        k <= rooms.len(),
        templates.len() >= pak::ARTIFACT_COUNT,
        all_lasting(templates),
        all_lasting(temple),
    ensures
        ({
            let state = after_locations(k, layout, rooms, templates, temple, items);
            &&& all_lasting(state.temple)
            &&& forall|a: int|
                0 <= a < state.texts.len() && (#[trigger] state.texts[a]) is Some
                    ==> state.texts[a]->0.len() > 0
        }),
    decreases k,
{
    if k > 0 {
        lemma_texts_last(k - 1, layout, rooms, templates, temple, items);
        lemma_templates_suffice(k - 1, layout, rooms, templates, temple, items);
        let state = after_locations(k - 1, layout, rooms, templates, temple, items);
        let item = layout[k - 1];
        let room = rooms[k - 1];
        let a = item - FIRST_ARTIFACT;
        if is_artifact(item) && state.texts[a] is None {
            lemma_written(state.texts, a, Seq::empty());
            let from_temple = room.room_id == ARTIFACT_TEMPLE_ROOM && state.temple.len() > 0;
            let template = template_for(state, room, templates);
            if from_temple {
                assert(template == state.temple[state.temple.len() - 1]);
                let rest = state.temple.drop_last();
                assert forall|i: int| 0 <= i < rest.len() implies is_lasting(
                    #[trigger] rest[i],
                ) by {
                    assert(rest[i] == state.temple[i]);
                }
            }
            lemma_filled_in(template, room.name, items[item as int].name);
        }
    }
}

proof fn lemma_nothing_written(texts: Seq<Option<Seq<char>>>)
    requires
        forall|i: int| 0 <= i < texts.len() ==> (#[trigger] texts[i]) is None,
    ensures
        written(texts) == 0,
    decreases texts.len(),
{
    if texts.len() > 0 {
        lemma_nothing_written(texts.drop_last());
    }
}

/// The texts as they are kept while they are written: one that is not written yet is empty.
spec fn kept_texts(texts: Seq<Option<Seq<char>>>) -> Seq<Seq<char>> {
    texts.map_values(
        |s: Option<Seq<char>>|
            match s {
                Some(text) => text,
                None => Seq::empty(),
            },
    )
}

/// Lists the id and the name of the room of each location.
fn list_location_rooms(worlds: &Vec<Vec<RoomInfo>>) -> (r: Vec<(u32, &String)>)
    ensures
        r@.map_values(|e: (u32, &String)| NamedRoom { room_id: e.0, name: e.1@ })
            == location_rooms(
            worlds@.map_values(|rooms: Vec<RoomInfo>| model::views(rooms@)),
        ),
{
    let ghost named = |e: (u32, &String)| NamedRoom { room_id: e.0, name: e.1@ };
    let ghost views = worlds@.map_values(|rooms: Vec<RoomInfo>| model::views(rooms@));
    let mut r: Vec<(u32, &String)> = Vec::new();
    for w in 0..worlds.len()
        invariant
            named == (|e: (u32, &String)| NamedRoom { room_id: e.0, name: e.1@ }),
            views == worlds@.map_values(|rooms: Vec<RoomInfo>| model::views(rooms@)),
            r@.map_values(named) =~= location_rooms(views.take(w as int)),
    {
        let rooms = &worlds[w];
        let ghost before = r@.map_values(named);
        let ghost world = views[w as int];
        for i in 0..rooms.len()
            invariant
                named == (|e: (u32, &String)| NamedRoom { room_id: e.0, name: e.1@ }),
                world == model::views(rooms@),
                r@.map_values(named) =~= before + world_entries(world.take(i as int)),
        {
            let room = &rooms[i];
            let ghost earlier = r@.map_values(named);
            assert(world[i as int] == room@);
            for j in 0..room.pickup_locations.len()
                invariant
                    named == (|e: (u32, &String)| NamedRoom { room_id: e.0, name: e.1@ }),
                    r@.map_values(named) =~= earlier + room_entries(room@).take(j as int),
            {
                let ghost so_far = r@;
                r.push((room.room_id, &room.name));
                assert(r@.map_values(named) =~= so_far.map_values(named).push(
                    room_entries(room@)[j as int],
                ));
            }
            assert(room_entries(room@).take(room.pickup_locations@.len() as int)
                =~= room_entries(room@));
            assert(world.take(i + 1).drop_last() =~= world.take(i as int));
            assert(r@.map_values(named) =~= before + (world_entries(world.take(i as int))
                + room_entries(room@)));
        }
        assert(world.take(rooms@.len() as int) =~= world);
        assert(views.take(w + 1).drop_last() =~= views.take(w as int));
    }
    assert(views.take(worlds@.len() as int) =~= views);
    r
}

/// Writes the texts of the totems from templates in a given order.
pub fn fill_totem_texts(
    layout: &Vec<u8>,
    templates: &Vec<&'static str>,
    temple: Vec<&'static str>,
    t: &Tables,
) -> (r: Vec<String>)
    requires
        t@.wf(),
        templates@.len() >= pak::ARTIFACT_COUNT,
        all_lasting(model::views(templates@)),
        all_lasting(model::views(temple@)),
    ensures
        r@.len() == pak::ARTIFACT_COUNT,
        model::views(r@) == totem_texts(
            layout@,
            model::views(templates@),
            model::views(temple@),
            t@,
        ),
{
    let mut texts: Vec<String> = Vec::new();
    for i in 0..pak::ARTIFACT_COUNT
        invariant
            texts@.len() == i,
            forall|j: int| 0 <= j < i ==> (#[trigger] texts@[j])@ == Seq::<char>::empty(),
    {
        texts.push(String::new());
    }
    let ghost ts = model::views(templates@);
    let ghost first_temple = model::views(temple@);
    let mut temple = temple;
    let mut used: usize = 0;
    let rooms = list_location_rooms(&t.rooms);
    let ghost named = rooms@.map_values(
        |e: (u32, &String)| NamedRoom { room_id: e.0, name: e.1@ },
    );
    let count = if layout.len() <= rooms.len() {
        layout.len()
    } else {
        rooms.len()
    };
    assert(model::views(texts@) =~= kept_texts(
        Seq::new(pak::ARTIFACT_COUNT as nat, |i: int| None),
    ));
    for k in 0..count
        invariant
            t@.wf(),
            count <= layout.len(),
            count <= rooms.len(),
            named == rooms@.map_values(
                |e: (u32, &String)| NamedRoom { room_id: e.0, name: e.1@ },
            ),
            ts == model::views(templates@),
            ts.len() >= pak::ARTIFACT_COUNT,
            all_lasting(ts),
            all_lasting(first_temple),
            texts@.len() == pak::ARTIFACT_COUNT,
            ({
                let state = after_locations(k as int, layout@, named, ts, first_temple, t@.items);
                &&& kept_texts(state.texts) == model::views(texts@)
                &&& state.used == used
                &&& state.temple == model::views(temple@)
            }),
    {
        let ghost state = after_locations(k as int, layout@, named, ts, first_temple, t@.items);
        proof {
            lemma_templates_suffice(k as int, layout@, named, ts, first_temple, t@.items);
            lemma_texts_last(k as int, layout@, named, ts, first_temple, t@.items);
        }
        let item = layout[k];
        if item >= FIRST_ARTIFACT && item <= LAST_ARTIFACT {
            let a = (item - FIRST_ARTIFACT) as usize;
            assert(kept_texts(state.texts)[a as int] == texts@[a as int]@);
            if texts[a].as_str().is_empty() {
                proof {
                    lemma_written(state.texts, a as int, Seq::empty());
                }
                let room_id = rooms[k].0;
                let name = rooms[k].1;
                assert(named[k as int] == (NamedRoom { room_id, name: name@ }));
                let template: &'static str;
                if room_id == ARTIFACT_TEMPLE_ROOM && temple.len() > 0 {
                    let ghost before = temple@;
                    template = temple.pop().unwrap();
                    assert(model::views(temple@) =~= model::views(before).drop_last());
                    assert(model::views(before).last() == template@);
                } else {
                    template = templates[used];
                    assert(ts[used as int] == template@);
                    used = used + 1;
                }
                let meta = &t.items[item as usize];
                assert(t@.items[item as int] == meta@);
                proof {
                    reveal_strlit("{room}");
                    reveal_strlit("{pickup}");
                }
                let with_room = text::replace_all(template, "{room}", name.as_str());
                let with_pickup = text::replace_all(
                    with_room.as_str(),
                    "{pickup}",
                    meta.name.as_str(),
                );
                let ghost before = texts@;
                texts.set(a, with_pickup);
                assert(model::views(texts@) =~= model::views(before).update(
                    a as int,
                    with_pickup@,
                ));
                assert(kept_texts(state.texts.update(a as int, Some(with_pickup@)))
                    =~= kept_texts(state.texts).update(a as int, with_pickup@));
            }
        }
    }
    let ghost end = model::views(texts@);
    let ghost state = after_locations(count as int, layout@, named, ts, first_temple, t@.items);
    proof {
        lemma_templates_suffice(count as int, layout@, named, ts, first_temple, t@.items);
        lemma_texts_last(count as int, layout@, named, ts, first_temple, t@.items);
    }
    for i in 0..pak::ARTIFACT_COUNT
        invariant
            texts@.len() == pak::ARTIFACT_COUNT,
            end.len() == pak::ARTIFACT_COUNT,
            forall|j: int|
                0 <= j < i ==> (#[trigger] texts@[j])@ == (if end[j].len() == 0 {
                    absent_text()
                } else {
                    end[j]
                }),
            forall|j: int| i <= j < pak::ARTIFACT_COUNT ==> (#[trigger] texts@[j])@ == end[j],
    {
        if texts[i].as_str().is_empty() {
            texts.set(
                i,
                "Artifact not present. This layout may not be completable.\0".to_owned(),
            );
        }
    }
    assert forall|j: int| 0 <= j < pak::ARTIFACT_COUNT implies model::views(texts@)[j]
        == totem_texts(layout@, ts, first_temple, t@)[j] by {
        assert(texts@[j]@ == (if end[j].len() == 0 {
            absent_text()
        } else {
            end[j]
        }));
        assert(end[j] == kept_texts(state.texts)[j]);
        assert(state.texts[j] is Some ==> state.texts[j]->0.len() > 0);
    }
    assert(model::views(texts@) =~= totem_texts(layout@, ts, first_temple, t@));
    texts
}

/// The order of templates after a shuffle from given generator words.
pub open spec fn shuffled(templates: Seq<Seq<char>>, words: Seq<u32>) -> Seq<Seq<char>> {
    random::in_order(
        templates,
        random::shuffle_outcome(words, templates.len(), usize::BITS as nat).0,
    )
}

/// The generator words after a shuffle of so many values.
pub open spec fn words_after_shuffle(words: Seq<u32>, len: nat) -> Seq<u32> {
    random::shuffle_outcome(words, len, usize::BITS as nat).1
}

/// The texts of the totems, with templates in the order that a generator gives them.
pub open spec fn random_totem_texts(
    layout: Seq<u8>,
    words: Seq<u32>,
    t: tables::TablesView,
) -> Seq<Seq<char>> {
    let later = words_after_shuffle(words, generic_templates().len());
    totem_texts(
        layout,
        shuffled(generic_templates(), words),
        shuffled(temple_templates(), later),
        t,
    )
}

/// The generator words after the texts of the totems were written.
pub open spec fn words_after_totems(words: Seq<u32>) -> Seq<u32> {
    words_after_shuffle(
        words_after_shuffle(words, generic_templates().len()),
        temple_templates().len(),
    )
}

/// What is drawn from given generator words for the texts of the totems are orders of the
/// templates: each template stands in them once.
pub open spec fn draws_orders(words: Seq<u32>) -> bool {
    let count = generic_templates().len();
    &&& random::is_order(random::shuffle_outcome(words, count, usize::BITS as nat).0, count)
    &&& random::is_order(
        random::shuffle_outcome(
            words_after_shuffle(words, count),
            temple_templates().len(),
            usize::BITS as nat,
        ).0,
        temple_templates().len(),
    )
}

/// Shuffling keeps the ends.
proof fn lemma_shuffled_last(templates: Seq<Seq<char>>, order: Seq<int>)
    requires
        all_lasting(templates),
        random::is_order(order, templates.len()),
    ensures
        all_lasting(random::in_order(templates, order)),
{
    let s = random::in_order(templates, order);
    assert forall|i: int| 0 <= i < s.len() implies is_lasting(#[trigger] s[i]) by {
        assert(0 <= order[i] < templates.len());
        assert(is_lasting(templates[order[i]]));
    }
}

/// Writes the texts of the totems, with templates in random order.
pub fn build_artifact_temple_totem_scan_strings(
    layout: &Vec<u8>,
    rng: &mut XorShiftRng,
    t: &Tables,
) -> (r: Vec<String>)
    requires
        t@.wf(),
    ensures
        r@.len() == pak::ARTIFACT_COUNT,
        model::views(r@) == random_totem_texts(layout@, random::generator_words(*old(rng)), t@),
        random::generator_words(*final(rng)) == words_after_totems(
            random::generator_words(*old(rng)),
        ),
        draws_orders(random::generator_words(*old(rng))),
{
    let ghost words = random::generator_words(*rng);
    let ghost later = words_after_shuffle(words, generic_templates().len());
    proof {
        lemma_templates_last();
    }
    let mut templates = make_generic_templates();
    assert(templates@.len() == generic_templates().len()) by {
        assert(model::views(templates@).len() == templates@.len());
    }
    random::shuffle(rng, &mut templates);
    assert(model::views(templates@) =~= shuffled(generic_templates(), words));
    let mut temple: Vec<&'static str> = Vec::new();
    temple.push("{pickup} awaits those who truly seek it.\0");
    assert(model::views(temple@) =~= temple_templates());
    random::shuffle(rng, &mut temple);
    assert(model::views(temple@) =~= shuffled(temple_templates(), later));
    proof {
        lemma_shuffled_last(
            generic_templates(),
            random::shuffle_outcome(words, 12, usize::BITS as nat).0,
        );
        lemma_shuffled_last(
            temple_templates(),
            random::shuffle_outcome(later, 1, usize::BITS as nat).0,
        );
    }
    fill_totem_texts(layout, &templates, temple, t)
}

/// A template is one of those to choose from.
pub open spec fn is_choice(
    template: Seq<char>,
    templates: Seq<Seq<char>>,
    temple: Seq<Seq<char>>,
) -> bool {
    templates.contains(template) || temple.contains(template)
}

/// What the text of an artifact is after `n` locations, where it first stands at `k`.
pub proof fn lemma_first_place(
    n: int,
    layout: Seq<u8>,
    rooms: Seq<NamedRoom>,
    templates: Seq<Seq<char>>,
    temple: Seq<Seq<char>>,
    items: Seq<tables::PickupMetaView>,
    k: int,
)
    requires
        0 <= k < n <= layout.len(),
        n <= rooms.len(),
        is_first_instance(layout, k),
    ensures
        after_locations(n, layout, rooms, templates, temple, items).texts[layout[k]
            - FIRST_ARTIFACT] == Some(
            filled_in(
                template_for(
                    after_locations(k, layout, rooms, templates, temple, items),
                    rooms[k],
                    templates,
                ),
                rooms[k].name,
                items[layout[k] as int].name,
            ),
        ),
    decreases n,
{
    lemma_templates_suffice(n - 1, layout, rooms, templates, temple, items);
    let state = after_locations(n - 1, layout, rooms, templates, temple, items);
    let a = layout[k] - FIRST_ARTIFACT;
    if k < n - 1 {
        lemma_first_place(n - 1, layout, rooms, templates, temple, items, k);
    } else {
        assert(state.texts[a] is Some <==> layout.take(k).contains(layout[k]));
    }
}

/// The templates that are left for the Artifact Temple are among those that it had.
proof fn lemma_temple_left(
    k: int,
    layout: Seq<u8>,
    rooms: Seq<NamedRoom>,
    templates: Seq<Seq<char>>,
    temple: Seq<Seq<char>>,
    items: Seq<tables::PickupMetaView>,
)
    ensures
        ({
            let left = after_locations(k, layout, rooms, templates, temple, items).temple;
            forall|i: int| 0 <= i < left.len() ==> temple.contains(#[trigger] left[i])
        }),
    decreases k,
{
    if k > 0 {
        lemma_temple_left(k - 1, layout, rooms, templates, temple, items);
        let before = after_locations(k - 1, layout, rooms, templates, temple, items).temple;
        let left = after_locations(k, layout, rooms, templates, temple, items).temple;
        assert forall|i: int| 0 <= i < left.len() implies temple.contains(
            #[trigger] left[i],
        ) by {
            assert(left[i] == before[i]);
        }
    } else {
        assert forall|i: int| 0 <= i < temple.len() implies temple.contains(
            #[trigger] temple[i],
        ) by {}
    }
}

/// An artifact that stands at no earlier location.
pub open spec fn is_first_instance(layout: Seq<u8>, k: int) -> bool {
    is_artifact(layout[k]) && forall|j: int| 0 <= j < k ==> #[trigger] layout[j] != layout[k]
}

/// A totem speaks, in the words of the template whose turn it is, of the room where its artifact
/// stands first.
pub proof fn law_totem_names_first_place(
    layout: Seq<u8>,
    templates: Seq<Seq<char>>,
    temple: Seq<Seq<char>>,
    t: tables::TablesView,
    k: int,
)
    requires
        templates.len() >= pak::ARTIFACT_COUNT,
        0 <= k < common_len(layout, location_rooms(t.rooms)),
        is_first_instance(layout, k),
    ensures
        ({
            let rooms = location_rooms(t.rooms);
            let template = template_for(
                after_locations(k, layout, rooms, templates, temple, t.items),
                rooms[k],
                templates,
            );
            &&& is_choice(template, templates, temple)
            &&& totem_texts(layout, templates, temple, t)[layout[k] - FIRST_ARTIFACT]
                == filled_in(template, rooms[k].name, t.items[layout[k] as int].name)
        }),
{
    let rooms = location_rooms(t.rooms);
    let n = common_len(layout, rooms);
    lemma_first_place(n, layout, rooms, templates, temple, t.items, k);
    lemma_templates_suffice(n, layout, rooms, templates, temple, t.items);
    lemma_templates_suffice(k, layout, rooms, templates, temple, t.items);
    lemma_temple_left(k, layout, rooms, templates, temple, t.items);
    let state = after_locations(k, layout, rooms, templates, temple, t.items);
    let a = layout[k] - FIRST_ARTIFACT;
    assert(state.texts[a] is Some <==> layout.take(k).contains(layout[k]));
    lemma_written(state.texts, a, Seq::empty());
    if state.temple.len() > 0 {
        assert(state.temple.last() == state.temple[state.temple.len() - 1]);
    }
}

/// A totem whose artifact stands nowhere says so.
pub proof fn law_totem_of_absent_artifact(
    layout: Seq<u8>,
    templates: Seq<Seq<char>>,
    temple: Seq<Seq<char>>,
    t: tables::TablesView,
    a: int,
)
    requires
        0 <= a < pak::ARTIFACT_COUNT,
        forall|j: int|
            0 <= j < common_len(layout, location_rooms(t.rooms)) ==> #[trigger] layout[j]
                != FIRST_ARTIFACT + a,
    ensures
        totem_texts(layout, templates, temple, t)[a] == absent_text(),
{
    let rooms = location_rooms(t.rooms);
    let n = common_len(layout, rooms);
    lemma_templates_suffice(n, layout, rooms, templates, temple, t.items);
    let state = after_locations(n, layout, rooms, templates, temple, t.items);
    assert(state.texts[a] is Some <==> layout.take(n).contains((FIRST_ARTIFACT + a) as u8));
}

/// Two layouts differ only where neither has the first instance of an artifact.
pub open spec fn same_first_instances(layout: Seq<u8>, other: Seq<u8>) -> bool {
    &&& layout.len() == other.len()
    &&& forall|k: int|
        0 <= k < layout.len() && #[trigger] layout[k] != #[trigger] other[k]
            ==> !is_first_instance(layout, k) && !is_first_instance(other, k)
}

/// A location without the first instance of an artifact changes nothing.
proof fn lemma_no_first_instance(
    k: int,
    layout: Seq<u8>,
    rooms: Seq<NamedRoom>,
    templates: Seq<Seq<char>>,
    temple: Seq<Seq<char>>,
    items: Seq<tables::PickupMetaView>,
)
    requires
        0 <= k < layout.len(),
        k < rooms.len(),
        !is_first_instance(layout, k),
    ensures
        after_locations(k + 1, layout, rooms, templates, temple, items) == after_locations(
            k,
            layout,
            rooms,
            templates,
            temple,
            items,
        ),
{
    if is_artifact(layout[k]) {
        lemma_templates_suffice(k, layout, rooms, templates, temple, items);
        let state = after_locations(k, layout, rooms, templates, temple, items);
        let a = layout[k] - FIRST_ARTIFACT;
        let j = choose|j: int| 0 <= j < k && #[trigger] layout[j] == layout[k];
        assert(layout.take(k)[j] == layout[k]);
        assert(state.texts[a] is Some <==> layout.take(k).contains(layout[k]));
    }
}

/// Layouts with the same first instances are told of in the same way.
proof fn lemma_same_first_instances(
    k: int,
    layout: Seq<u8>,
    other: Seq<u8>,
    rooms: Seq<NamedRoom>,
    templates: Seq<Seq<char>>,
    temple: Seq<Seq<char>>,
    items: Seq<tables::PickupMetaView>,
)
    requires
        0 <= k <= layout.len(),
        k <= rooms.len(),
        same_first_instances(layout, other),
    ensures
        after_locations(k, layout, rooms, templates, temple, items) == after_locations(
            k,
            other,
            rooms,
            templates,
            temple,
            items,
        ),
    decreases k,
{
    if k > 0 {
        lemma_same_first_instances(k - 1, layout, other, rooms, templates, temple, items);
        if layout[k - 1] != other[k - 1] {
            lemma_no_first_instance(k - 1, layout, rooms, templates, temple, items);
            lemma_no_first_instance(k - 1, other, rooms, templates, temple, items);
        }
    }
}

/// Only the first instance of each artifact bears on what the totems say: repeated artifacts and
/// other items may be any, for every order of the templates.
pub proof fn law_only_first_instances_count(
    layout: Seq<u8>,
    other: Seq<u8>,
    templates: Seq<Seq<char>>,
    temple: Seq<Seq<char>>,
    t: tables::TablesView,
)
    requires
        same_first_instances(layout, other),
    ensures
        totem_texts(layout, templates, temple, t) == totem_texts(other, templates, temple, t),
{
    let rooms = location_rooms(t.rooms);
    lemma_same_first_instances(
        common_len(layout, rooms),
        layout,
        other,
        rooms,
        templates,
        temple,
        t.items,
    );
}

/// Only the first instance of each artifact bears on what the totems say from given generator
/// words; the words that are left depend on no layout at all.
pub proof fn law_only_first_instances_count_at_random(
    layout: Seq<u8>,
    other: Seq<u8>,
    words: Seq<u32>,
    t: tables::TablesView,
)
    requires
        same_first_instances(layout, other),
    ensures
        random_totem_texts(layout, words, t) == random_totem_texts(other, words, t),
{
    let later = words_after_shuffle(words, generic_templates().len());
    law_only_first_instances_count(
        layout,
        other,
        shuffled(generic_templates(), words),
        shuffled(temple_templates(), later),
        t,
    );
}

/// The number of templates taken never falls, and grows with a first instance outside the temple.
proof fn lemma_templates_taken(
    k: int,
    n: int,
    layout: Seq<u8>,
    rooms: Seq<NamedRoom>,
    templates: Seq<Seq<char>>,
    temple: Seq<Seq<char>>,
    items: Seq<tables::PickupMetaView>,
)
    requires
        0 <= k < n <= layout.len(),
        n <= rooms.len(),
    ensures
        ({
            let before = after_locations(k, layout, rooms, templates, temple, items).used;
            let after = after_locations(n, layout, rooms, templates, temple, items).used;
            &&& before <= after
            &&& is_first_instance(layout, k) && rooms[k].room_id != ARTIFACT_TEMPLE_ROOM
                ==> before < after
        }),
    decreases n,
{
    if k < n - 1 {
        lemma_templates_taken(k, n - 1, layout, rooms, templates, temple, items);
    } else if is_first_instance(layout, k) {
        lemma_templates_suffice(k, layout, rooms, templates, temple, items);
        let state = after_locations(k, layout, rooms, templates, temple, items);
        let a = layout[k] - FIRST_ARTIFACT;
        assert(state.texts[a] is Some <==> layout.take(k).contains(layout[k]));
    }
}

/// No two totems share a template for any room: the totems of two artifacts outside the Artifact
/// Temple speak in the words of two different ones of the templates.
pub proof fn law_totems_share_no_template(
    layout: Seq<u8>,
    words: Seq<u32>,
    t: tables::TablesView,
    k: int,
    n: int,
) -> (places: (int, int))
    requires
        draws_orders(words),
        0 <= k < n < common_len(layout, location_rooms(t.rooms)),
        is_first_instance(layout, k),
        is_first_instance(layout, n),
        location_rooms(t.rooms)[k].room_id != ARTIFACT_TEMPLE_ROOM,
        location_rooms(t.rooms)[n].room_id != ARTIFACT_TEMPLE_ROOM,
    ensures
        places.0 != places.1,
        0 <= places.0 < generic_templates().len(),
        0 <= places.1 < generic_templates().len(),
        random_totem_texts(layout, words, t)[layout[k] - FIRST_ARTIFACT] == filled_in(
            generic_templates()[places.0],
            location_rooms(t.rooms)[k].name,
            t.items[layout[k] as int].name,
        ),
        random_totem_texts(layout, words, t)[layout[n] - FIRST_ARTIFACT] == filled_in(
            generic_templates()[places.1],
            location_rooms(t.rooms)[n].name,
            t.items[layout[n] as int].name,
        ),
{
    let rooms = location_rooms(t.rooms);
    let later = words_after_shuffle(words, generic_templates().len());
    let templates = shuffled(generic_templates(), words);
    let temple = shuffled(temple_templates(), later);
    law_totem_names_first_place(layout, templates, temple, t, k);
    law_totem_names_first_place(layout, templates, temple, t, n);
    lemma_templates_taken(k, n, layout, rooms, templates, temple, t.items);
    lemma_templates_suffice(k, layout, rooms, templates, temple, t.items);
    lemma_templates_suffice(n, layout, rooms, templates, temple, t.items);
    let state = after_locations(n, layout, rooms, templates, temple, t.items);
    let a = layout[n] - FIRST_ARTIFACT;
    assert(state.texts[a] is Some <==> layout.take(n).contains(layout[n]));
    lemma_written(state.texts, a, Seq::empty());
    let order = random::shuffle_outcome(words, generic_templates().len(), usize::BITS as nat).0;
    let i = after_locations(k, layout, rooms, templates, temple, t.items).used;
    let j = state.used;
    (order[i], order[j])
}

} // verus!
