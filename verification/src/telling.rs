//! What the totems say, word for word, and how numbers and names are written.

use vstd::prelude::*;
use crate::random;
use crate::tables;
use crate::text;
use crate::totems;
use crate::totems::NamedRoom;
use crate::worlds;

verus! {

/// `part` stands in `text` at `k`.
pub open spec fn stands_at(text: Seq<char>, part: Seq<char>, k: int) -> bool {
    &&& 0 <= k
    &&& k + part.len() <= text.len()
    &&& forall|i: int| 0 <= i < part.len() ==> #[trigger] text[k + i] == part[i]
}

/// Text in which a part stands nowhere is not changed by replacing it.
pub proof fn law_nothing_is_replaced(text: Seq<char>, from: Seq<char>, to: Seq<char>)
    requires
        from.len() > 0,
        forall|k: int| !#[trigger] stands_at(text, from, k),
    ensures
        text::replaced(text, from, to) == text,
    decreases text.len(),
{
    if text.len() > 0 {
        let rest = text.drop_first();
        if from.is_prefix_of(text) {
            assert forall|i: int| 0 <= i < from.len() implies #[trigger] text[0 + i]
                == from[i] by {
                assert(text.take(from.len() as int)[i] == from[i]);
            }
            assert(stands_at(text, from, 0));
        }
        assert forall|k: int| !#[trigger] stands_at(rest, from, k) by {
            if stands_at(rest, from, k) {
                assert forall|i: int| 0 <= i < from.len() implies #[trigger] text[k + 1 + i]
                    == from[i] by {
                    assert(rest[k + i] == from[i]);
                }
                assert(stands_at(text, from, k + 1));
            }
        }
        law_nothing_is_replaced(rest, from, to);
        assert(seq![text[0]] + rest =~= text);
    }
}

/// Where a part first stands in a text it is replaced, and the text after it likewise.
pub proof fn law_first_is_replaced(text: Seq<char>, from: Seq<char>, to: Seq<char>, k: int)
    requires
        from.len() > 0,
        stands_at(text, from, k),
        forall|j: int| 0 <= j < k ==> !#[trigger] stands_at(text, from, j),
    ensures
        text::replaced(text, from, to) == text.take(k) + to + text::replaced(
            text.skip(k + from.len()),
            from,
            to,
        ),
    decreases k,
{
    if k == 0 {
        assert forall|i: int| 0 <= i < from.len() implies text.take(from.len() as int)[i]
            == from[i] by {
            assert(text[0 + i] == from[i]);
        }
        assert(from =~= text.take(from.len() as int));
        assert(from.is_prefix_of(text));
        assert(text.take(0) + to =~= to);
    } else {
        let rest = text.drop_first();
        if from.is_prefix_of(text) {
            assert forall|i: int| 0 <= i < from.len() implies #[trigger] text[0 + i]
                == from[i] by {
                assert(text.take(from.len() as int)[i] == from[i]);
            }
            assert(stands_at(text, from, 0));
        }
        assert forall|i: int| 0 <= i < from.len() implies #[trigger] rest[k - 1 + i]
            == from[i] by {
            assert(text[k + i] == from[i]);
        }
        assert forall|j: int| 0 <= j < k - 1 implies !#[trigger] stands_at(rest, from, j) by {
            if stands_at(rest, from, j) {
                assert forall|i: int| 0 <= i < from.len() implies #[trigger] text[j + 1 + i]
                    == from[i] by {
                    assert(rest[j + i] == from[i]);
                }
                assert(stands_at(text, from, j + 1));
            }
        }
        law_first_is_replaced(rest, from, to, k - 1);
        assert(rest.skip(k - 1 + from.len()) =~= text.skip(k + from.len()));
        let tail = text::replaced(text.skip(k + from.len()), from, to);
        assert(seq![text[0]] + (rest.take(k - 1) + to + tail) =~= text.take(k) + to + tail);
    }
}

/// A text holds no placeholder, not even the start of one.
pub open spec fn is_plain(text: Seq<char>) -> bool {
    forall|i: int| 0 <= i < text.len() ==> #[trigger] text[i] != '{'
}

/// Replacing one placeholder between plain texts.
proof fn lemma_one_placeholder(
    before: Seq<char>,
    part: Seq<char>,
    after: Seq<char>,
    to: Seq<char>,
)
    requires
        is_plain(before),
        is_plain(after),
        part.len() > 0,
        part[0] == '{',
    ensures
        text::replaced(before + part + after, part, to) == before + to + after,
{
    let all = before + part + after;
    let k = before.len() as int;
    assert(stands_at(all, part, k));
    assert forall|j: int| 0 <= j < k implies !#[trigger] stands_at(all, part, j) by {
        if stands_at(all, part, j) {
            assert(all[j + 0] == part[0]);
            assert(all[j] == before[j]);
        }
    }
    law_first_is_replaced(all, part, to, k);
    assert(all.take(k) =~= before);
    assert(all.skip(k + part.len()) =~= after);
    lemma_plain_stays(after, part, to);
}

/// A plain text has no placeholder to replace.
proof fn lemma_plain_stays(text: Seq<char>, part: Seq<char>, to: Seq<char>)
    requires
        is_plain(text),
        part.len() > 0,
        part[0] == '{',
    ensures
        text::replaced(text, part, to) == text,
{
    assert forall|k: int| !#[trigger] stands_at(text, part, k) by {
        if stands_at(text, part, k) {
            assert(text[k + 0] == part[0]);
        }
    }
    law_nothing_is_replaced(text, part, to);
}

/// A template for any room says the name of the room where its placeholder is, and the words around
/// it unchanged; one for the Artifact Temple says the name of the pickup.
pub proof fn law_template_is_filled(
    before: Seq<char>,
    after: Seq<char>,
    room: Seq<char>,
    pickup: Seq<char>,
)
    requires
        is_plain(before),
        is_plain(after),
    ensures
        is_plain(room) ==> totems::filled_in(before + "{room}"@ + after, room, pickup) == before
            + room + after,
        totems::filled_in(before + "{pickup}"@ + after, room, pickup) == before + pickup + after,
{
    reveal_strlit("{room}");
    reveal_strlit("{pickup}");
    lemma_one_placeholder(before, "{room}"@, after, room);
    if is_plain(room) {
        assert(is_plain(before + room + after));
        lemma_plain_stays(before + room + after, "{pickup}"@, pickup);
    }
    let all = before + "{pickup}"@ + after;
    let k = before.len() as int;
    assert forall|j: int| !#[trigger] stands_at(all, "{room}"@, j) by {
        if stands_at(all, "{room}"@, j) {
            assert(all[j + 0] == '{');
            assert(all[j + 1] == 'r');
            if j < k {
                assert(all[j] == before[j]);
            } else if j >= k + 8 {
                assert(all[j] == after[j - k - 8]);
            } else {
                assert(all[j] == "{pickup}"@[j - k]);
                assert(j == k);
                assert(all[j + 1] == "{pickup}"@[1]);
            }
        }
    }
    law_nothing_is_replaced(all, "{room}"@, room);
    lemma_one_placeholder(before, "{pickup}"@, after, pickup);
}

/// The words that any room can be told of in.
pub open spec fn ways_to_tell() -> Seq<Seq<char>> {
    seq![
        "I mean, maybe it'll be in the &push;&main-color=#43CD80;{room}&pop;. I forgot, to be honest.\0"@,
        "I'm not sure where the artifact exactly is, but like, you can try the &push;&main-color=#43CD80;{room}&pop;.\0"@,
        "Hey man, so some of the Chozo dudes are telling me that they're might be a thing in the &push;&main-color=#43CD80;{room}&pop;. Just sayin'.\0"@,
        "Uhh umm... Where was it...? Uhhh, errr, it's definitely in the &push;&main-color=#43CD80;{room}&pop;! I am 100% not totally making it up...\0"@,
        "Some say it may be in the &push;&main-color=#43CD80;{room}&pop;. Others say that you have no business here. Please leave me alone.\0"@,
        "So a buddy of mine and I were drinking one night and we thought 'Hey, wouldn't be crazy if we put it at the &push;&main-color=#43CD80;{room}&pop;?' So we did and it took both of us just to get it there!\0"@,
        "So, uhhh, I kind of got a little lazy and I might have just dropped mine somewhere... Maybe it's in the &push;&main-color=#43CD80;{room}&pop;? Who knows.\0"@,
        "I uhhh... was a little late to the party and someone had to run out and hide both mine and hers. I owe her one. She told me it might be in the &push;&main-color=#43CD80;{room}&pop;, so you're going to have to trust her on this one.\0"@,
        "Okay, so this jerk forgets to hide his and I had to hide it for him too. So, I just tossed his somewhere and made up a name for the room. This is literally saving the planet - how can anyone forget that? Anyway, mine is in the &push;&main-color=#43CD80;{room}&pop;, so go check it out. I'm never doing this again...\0"@,
        "To be honest, I don't know if it was a Missile Expansion or not. Maybe it was... We'll just go with that: There's a Missile Expansion at the &push;&main-color=#43CD80;{room}&pop;.\0"@,
        "Hear the words of Oh Leer, last Chozo of the Artifact Temple. May they serve you well, that you may find a key lost to our cause... Alright, whatever. It's at the &push;&main-color=#43CD80;{room}&pop;.\0"@,
        "I kind of just played Frisbee with mine. It flew and landed too far so I didn't want to walk over and grab it because I was lazy. It's in the &push;&main-color=#43CD80;{room}&pop; if you want to find it.\0"@,
    ]
}

/// Number of those below `n` that have a property.
pub open spec fn count_upto(n: int, p: spec_fn(int) -> bool) -> int
    decreases n,
{
    if n <= 0 {
        0
    } else {
        count_upto(n - 1, p) + if p(n - 1) {
            1int
        } else {
            0
        }
    }
}

/// A location has an artifact that no earlier one has.
pub open spec fn tells(layout: Seq<u8>, k: int) -> bool {
    23 <= layout[k] <= 34 && forall|j: int| 0 <= j < k ==> #[trigger] layout[j] != layout[k]
}

/// A location has an artifact that no earlier one has, and is in the Artifact Temple.
pub open spec fn tells_of_temple(layout: Seq<u8>, rooms: Seq<NamedRoom>, k: int) -> bool {
    tells(layout, k) && rooms[k].room_id == 0x2398E906
}

/// How many artifacts are told of before a location.
pub open spec fn told_before(layout: Seq<u8>, k: int) -> int {
    count_upto(k, |j: int| tells(layout, j))
}

/// How many artifacts in the Artifact Temple are told of before a location.
pub open spec fn temple_told_before(layout: Seq<u8>, rooms: Seq<NamedRoom>, k: int) -> int {
    count_upto(k, |j: int| tells_of_temple(layout, rooms, j))
}

/// No fewer than nothing, and no more than all.
proof fn lemma_count(n: int, p: spec_fn(int) -> bool, q: spec_fn(int) -> bool)
    requires
        forall|j: int| #[trigger] p(j) ==> q(j),
    ensures
        0 <= count_upto(n, p) <= count_upto(n, q),
    decreases n,
{
    if n > 0 {
        lemma_count(n - 1, p, q);
        assert(p(n - 1) ==> q(n - 1));
    }
}

/// The templates that were taken for the artifacts that are told of before a location.
proof fn lemma_taken(
    k: int,
    layout: Seq<u8>,
    rooms: Seq<NamedRoom>,
    templates: Seq<Seq<char>>,
    temple: Seq<Seq<char>>,
    items: Seq<tables::PickupMetaView>,
)
    requires
        0 <= k <= layout.len(),
        k <= rooms.len(),
    ensures
        ({
            let state = totems::after_locations(k, layout, rooms, templates, temple, items);
            let c = temple_told_before(layout, rooms, k);
            let taken = if c <= temple.len() {
                c
            } else {
                temple.len() as int
            };
            &&& 0 <= c
            &&& state.used == told_before(layout, k) - taken
            &&& state.temple == temple.take(temple.len() - taken)
        }),
    decreases k,
{
    let all = |j: int| tells(layout, j);
    let inside = |j: int| tells_of_temple(layout, rooms, j);
    lemma_count(k, inside, all);
    if k == 0 {
        assert(temple.take(temple.len() as int) =~= temple);
    } else {
        lemma_taken(k - 1, layout, rooms, templates, temple, items);
        lemma_count(k - 1, inside, all);
        totems::lemma_templates_suffice(k - 1, layout, rooms, templates, temple, items);
        let before = totems::after_locations(k - 1, layout, rooms, templates, temple, items);
        let item = layout[k - 1];
        let a = item - 23;
        if 23 <= item <= 34 {
            assert(before.texts[a] is Some <==> layout.take(k - 1).contains(item));
            assert(layout.take(k - 1).contains(item) <==> !tells(layout, k - 1)) by {
                if layout.take(k - 1).contains(item) {
                    let j = layout.take(k - 1).index_of(item);
                    assert(layout[j] == item);
                }
                if !tells(layout, k - 1) {
                    let j = choose|j: int| 0 <= j < k - 1 && #[trigger] layout[j] == item;
                    assert(layout.take(k - 1)[j] == item);
                }
            }
        }
        let c = temple_told_before(layout, rooms, k - 1);
        if c < temple.len() {
            assert(temple.take(temple.len() - c).drop_last() =~= temple.take(
                temple.len() - c - 1,
            ));
        }
    }
}

/// The template that is used for the artifact of a location: in the Artifact Temple the last of
/// those for it that is left, and elsewhere, or where none is left, the first for any room that
/// was not used yet.
pub open spec fn turn(
    layout: Seq<u8>,
    rooms: Seq<NamedRoom>,
    templates: Seq<Seq<char>>,
    temple: Seq<Seq<char>>,
    k: int,
) -> Seq<char> {
    let c = temple_told_before(layout, rooms, k);
    if rooms[k].room_id == 0x2398E906 && c < temple.len() {
        temple[temple.len() - 1 - c]
    } else if c < temple.len() {
        templates[told_before(layout, k) - c]
    } else {
        templates[told_before(layout, k) - temple.len()]
    }
}

/// What a totem says: where its artifact is at some location, it names the room of the first one,
/// in the words of the template whose turn it is; where it is at none, it says that it is missing.
/// The totem at place `a` speaks of the artifact with the number 23 + `a`.
pub proof fn law_totem_text(
    layout: Seq<u8>,
    templates: Seq<Seq<char>>,
    temple: Seq<Seq<char>>,
    t: tables::TablesView,
    a: int,
    k: int,
)
    requires
        0 <= a < 12,
        0 <= k,
    ensures
        ({
            let rooms = totems::location_rooms(t.rooms);
            let text = totems::totem_texts(layout, templates, temple, t)[a];
            &&& k < layout.len() && k < rooms.len() && layout[k] == 23 + a && (forall|j: int|
                0 <= j < k ==> #[trigger] layout[j] != 23 + a) ==> text == totems::filled_in(
                turn(layout, rooms, templates, temple, k),
                rooms[k].name,
                t.items[23 + a].name,
            )
            &&& (forall|j: int|
                0 <= j < layout.len() && j < rooms.len() ==> #[trigger] layout[j] != 23 + a)
                ==> text == "Artifact not present. This layout may not be completable.\0"@
        }),
{
    let rooms = totems::location_rooms(t.rooms);
    let n = totems::common_len(layout, rooms);
    totems::lemma_templates_suffice(n, layout, rooms, templates, temple, t.items);
    if k < layout.len() && k < rooms.len() && layout[k] == 23 + a && (forall|j: int|
        0 <= j < k ==> #[trigger] layout[j] != 23 + a) {
        assert(tells(layout, k));
        assert(totems::is_first_instance(layout, k));
        totems::lemma_first_place(n, layout, rooms, templates, temple, t.items, k);
        lemma_taken(k, layout, rooms, templates, temple, t.items);
    }
    if forall|j: int|
        0 <= j < layout.len() && j < rooms.len() ==> #[trigger] layout[j] != 23 + a {
        totems::law_totem_of_absent_artifact(layout, templates, temple, t, a);
    }
}

/// The orders of the templates come from the generator: first that of the words for any room, then
/// that of the one text for the Artifact Temple.
pub proof fn law_totem_texts_at_random(
    layout: Seq<u8>,
    words: Seq<u32>,
    t: tables::TablesView,
    generic: Seq<Seq<char>>,
)
    requires
        generic.len() == 12,
        forall|i: int|
            0 <= i < 12 ==> #[trigger] generic[i] == ways_to_tell()[random::shuffle_outcome(
                words,
                12,
                usize::BITS as nat,
            ).0[i]],
        totems::draws_orders(words),
    ensures
        totems::random_totem_texts(layout, words, t) == totems::totem_texts(
            layout,
            generic,
            seq!["{pickup} awaits those who truly seek it.\0"@],
            t,
        ),
        totems::words_after_totems(words) == random::shuffle_outcome(
            random::shuffle_outcome(words, 12, usize::BITS as nat).1,
            1,
            usize::BITS as nat,
        ).1,
{
    assert(totems::generic_templates() =~= ways_to_tell());
    let later = totems::words_after_shuffle(words, 12);
    assert(totems::shuffled(totems::generic_templates(), words) =~= generic);
    let order = random::shuffle_outcome(later, 1, usize::BITS as nat).0;
    assert(random::is_order(order, 1));
    assert(0 <= order[0] < 1);
    assert(totems::shuffled(totems::temple_templates(), later) =~= seq![
        "{pickup} awaits those who truly seek it.\0"@,
    ]);
}

/// The number of locations of the first `w` worlds.
pub open spec fn locations_before(all: Seq<Seq<tables::RoomInfoView>>, w: int) -> int
    decreases w,
{
    if w <= 0 {
        0
    } else {
        locations_before(all, w - 1) + worlds::locations_of(
            all[w - 1],
            all[w - 1].len() as int,
        )
    }
}

/// Only earlier rooms bear on how many locations come before.
proof fn lemma_locations_before(list: Seq<tables::RoomInfoView>, n: int, q: int)
    requires
        0 <= q <= n <= list.len(),
    ensures
        worlds::locations_of(list.take(n), q) == worlds::locations_of(list, q),
        0 <= worlds::locations_of(list, q) <= worlds::locations_of(list, n),
    decreases n, q,
{
    if q > 0 {
        lemma_locations_before(list, n, q - 1);
        assert(list.take(n)[q - 1] == list[q - 1]);
    }
    if q < n {
        lemma_locations_before(list, n - 1, q);
    } else if n > 0 {
        lemma_locations_before(list, n - 1, n - 1);
    }
}

/// The locations of a world in turn.
proof fn lemma_world_entries(list: Seq<tables::RoomInfoView>, q: int, i: int)
    ensures
        totems::world_entries(list).len() == worlds::locations_of(list, list.len() as int),
        0 <= q < list.len() && 0 <= i < list[q].pickup_locations.len() ==> {
            let n = worlds::locations_of(list, q) + i;
            &&& 0 <= n < totems::world_entries(list).len()
            &&& totems::world_entries(list)[n].room_id == list[q].room_id
            &&& totems::world_entries(list)[n].name == list[q].name
        },
    decreases list.len(),
{
    if list.len() > 0 {
        let front = list.drop_last();
        let last = list.len() - 1;
        lemma_world_entries(front, q, i);
        assert(front =~= list.take(last));
        lemma_locations_before(list, last, last);
        if 0 <= q < last {
            lemma_locations_before(list, last, q);
            assert(front[q] == list[q]);
        }
    }
}

/// Only earlier worlds bear on how many locations come before.
proof fn lemma_worlds_before(all: Seq<Seq<tables::RoomInfoView>>, n: int, w: int)
    requires
        0 <= w <= n <= all.len(),
    ensures
        locations_before(all.take(n), w) == locations_before(all, w),
        0 <= locations_before(all, w) <= locations_before(all, n),
    decreases n, w,
{
    if w > 0 {
        lemma_worlds_before(all, n, w - 1);
        assert(all.take(n)[w - 1] == all[w - 1]);
        lemma_locations_before(all[w - 1], all[w - 1].len() as int, 0);
    }
    if w < n {
        lemma_worlds_before(all, n - 1, w);
        lemma_locations_before(all[n - 1], all[n - 1].len() as int, 0);
    }
}

/// The locations of a layout are those of the worlds, in turn, and in each those of its rooms, in
/// turn: the `i`-th of the `q`-th room of the `w`-th world comes after those of the worlds and the
/// rooms before it.
pub proof fn law_locations_in_turn(
    all: Seq<Seq<tables::RoomInfoView>>,
    w: int,
    q: int,
    i: int,
)
    ensures
        totems::location_rooms(all).len() == locations_before(all, all.len() as int),
        0 <= w < all.len() && 0 <= q < all[w].len() && 0 <= i < all[w][q].pickup_locations.len()
            ==> {
            let n = locations_before(all, w) + worlds::locations_of(all[w], q) + i;
            &&& 0 <= n < totems::location_rooms(all).len()
            &&& totems::location_rooms(all)[n].room_id == all[w][q].room_id
            &&& totems::location_rooms(all)[n].name == all[w][q].name
        },
    decreases all.len(),
{
    if all.len() > 0 {
        let front = all.drop_last();
        let last = all.len() - 1;
        law_locations_in_turn(front, w, q, i);
        assert(front =~= all.take(last));
        lemma_worlds_before(all, last, last);
        lemma_world_entries(all[last], q, i);
        if 0 <= w < last {
            lemma_worlds_before(all, last, w);
            assert(front[w] == all[w]);
        }
    }
}

/// The number that digits denote.
pub open spec fn number_of(digits: Seq<char>) -> int
    decreases digits.len(),
{
    if digits.len() == 0 {
        0
    } else {
        10 * number_of(digits.drop_last()) + (digits.last() as int - '0' as int)
    }
}

/// A number is written in digits that denote it, with no zero in front but for zero itself.
pub proof fn law_decimal_denotes(n: nat)
    ensures
        text::decimal_text(n).len() > 0,
        forall|i: int|
            0 <= i < text::decimal_text(n).len() ==> '0' <= #[trigger] text::decimal_text(n)[i]
                <= '9',
        number_of(text::decimal_text(n)) == n,
        text::decimal_text(n)[0] == '0' ==> n == 0 && text::decimal_text(n).len() == 1,
    decreases n,
{
    let s = text::decimal_text(n);
    if n < 10 {
        assert(s.drop_last() =~= Seq::empty());
        assert(number_of(s.drop_last()) == 0);
    } else {
        law_decimal_denotes(n / 10);
        assert(s.drop_last() =~= text::decimal_text(n / 10));
    }
}

/// How one byte of a name is written: printable ASCII as it is, but for quotation marks and the
/// backslash, which have a backslash before them; tab and line ends as a backslash and a letter;
/// any other byte as its two hexadecimal digits after a backslash and an x.
pub proof fn law_byte_is_escaped(b: u8) -> (digits: (int, int))
    ensures
        32 <= b <= 126 && b != 34 && b != 39 && b != 92 ==> text::escaped(seq![b]) == seq![
            b as char,
        ],
        b == 34 || b == 39 || b == 92 ==> text::escaped(seq![b]) == seq!['\\', b as char],
        b == 9 ==> text::escaped(seq![b]) == seq!['\\', 't'],
        b == 10 ==> text::escaped(seq![b]) == seq!['\\', 'n'],
        b == 13 ==> text::escaped(seq![b]) == seq!['\\', 'r'],
        (b < 32 || b > 126) && b != 9 && b != 10 && b != 13 ==> {
            &&& 0 <= digits.0 < 16
            &&& 0 <= digits.1 < 16
            &&& b == 16 * digits.0 + digits.1
            &&& text::escaped(seq![b]) == seq![
                '\\',
                'x',
                "0123456789abcdef"@[digits.0],
                "0123456789abcdef"@[digits.1],
            ]
        },
{
    reveal_strlit("0123456789abcdef");
    assert(seq![b].drop_last() =~= Seq::empty());
    assert(text::escaped(seq![b].drop_last()) =~= Seq::empty());
    assert(text::escaped(seq![b]) =~= text::escaped_byte(b));
    lemma_hex(b / 16);
    lemma_hex(b % 16);
    ((b / 16) as int, (b % 16) as int)
}

/// The hexadecimal digits.
proof fn lemma_hex(d: u8)
    requires
        d < 16,
    ensures
        text::hex_char(d) == "0123456789abcdef"@[d as int],
{
    reveal_strlit("0123456789abcdef");
}

/// A name is written byte by byte.
pub proof fn law_bytes_are_escaped_in_turn(a: Seq<u8>, b: Seq<u8>)
    ensures
        text::escaped(a + b) == text::escaped(a) + text::escaped(b),
    decreases b.len(),
{
    if b.len() == 0 {
        assert(a + b =~= a);
        assert(text::escaped(a) + text::escaped(b) =~= text::escaped(a));
    } else {
        law_bytes_are_escaped_in_turn(a, b.drop_last());
        assert((a + b).drop_last() =~= a + b.drop_last());
        assert((a + b).last() == b.last());
        assert(text::escaped(a) + text::escaped(b) =~= text::escaped(a) + text::escaped(
            b.drop_last(),
        ) + text::escaped_byte(b.last()));
    }
}

} // verus!
