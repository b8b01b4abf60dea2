//! What a patched disc starts a game with.

use vstd::prelude::*;
use crate::model;
use crate::model::SpawnPoint;
use crate::starting_items;
use crate::text;

verus! {

/// A spawn point gives the items that a number asks for: read from the lowest binary digit on,
/// eight digits are missiles, four are energy tanks, three are power bombs, and one digit each
/// follows for the wave beam, the ice beam, the plasma beam, the charge beam, the Morph Ball, bombs,
/// the spider ball, the boost ball, the Gravity Suit, the Phazon Suit, the thermal visor, the X-ray
/// visor, the space jump, the grapple beam and super missiles. Higher digits say nothing.
pub open spec fn gives(s: SpawnPoint, items: u64) -> bool {
    &&& s.missiles < 256
    &&& s.energy_tanks < 16
    &&& s.power_bombs < 8
    &&& s.wave < 2
    &&& s.ice < 2
    &&& s.plasma < 2
    &&& s.charge < 2
    &&& s.morph_ball < 2
    &&& s.bombs < 2
    &&& s.spider_ball < 2
    &&& s.boost_ball < 2
    &&& s.gravity_suit < 2
    &&& s.phazon_suit < 2
    &&& s.thermal_visor < 2
    &&& s.xray < 2
    &&& s.space_jump < 2
    &&& s.grapple < 2
    &&& s.super_missile < 2
    &&& items as int % 0x4000_0000 == s.missiles + 0x100 * s.energy_tanks + 0x1000 * s.power_bombs
        + 0x8000 * s.wave + 0x1_0000 * s.ice + 0x2_0000 * s.plasma + 0x4_0000 * s.charge
        + 0x8_0000 * s.morph_ball + 0x10_0000 * s.bombs + 0x20_0000 * s.spider_ball + 0x40_0000
        * s.boost_ball + 0x80_0000 * s.gravity_suit + 0x100_0000 * s.phazon_suit + 0x200_0000
        * s.thermal_visor + 0x400_0000 * s.xray + 0x800_0000 * s.space_jump + 0x1000_0000
        * s.grapple + 0x2000_0000 * s.super_missile
}

/// A field is no larger than its digits can say.
proof fn lemma_field_bound(items: u64, offset: nat, width: nat, limit: nat)
    requires
        vstd::arithmetic::power2::pow2(width) == limit,
        0 < limit <= 256,
    ensures
        starting_items::bit_field(items, offset, width) < limit,
{
    let p = vstd::arithmetic::power2::pow2(offset);
    vstd::arithmetic::power2::lemma_pow2_pos(offset);
    vstd::arithmetic::div_mod::lemma_mod_bound(items as int / p as int, limit as int);
}

/// The decoded starting items are those that the number asks for.
pub proof fn law_items_are_decoded(items: u64, others: usize)
    ensures
        gives(starting_items::starting_point(items, others), items),
        starting_items::starting_point(items, others).others == others,
{
    vstd::arithmetic::power2::lemma2_to64();
    starting_items::law_starting_items_spell_number(items);
    lemma_field_bound(items, 0, 8, 256);
    lemma_field_bound(items, 8, 4, 16);
    lemma_field_bound(items, 12, 3, 8);
    lemma_field_bound(items, 15, 1, 2);
    lemma_field_bound(items, 16, 1, 2);
    lemma_field_bound(items, 17, 1, 2);
    lemma_field_bound(items, 18, 1, 2);
    lemma_field_bound(items, 19, 1, 2);
    lemma_field_bound(items, 20, 1, 2);
    lemma_field_bound(items, 21, 1, 2);
    lemma_field_bound(items, 22, 1, 2);
    lemma_field_bound(items, 23, 1, 2);
    lemma_field_bound(items, 24, 1, 2);
    lemma_field_bound(items, 25, 1, 2);
    lemma_field_bound(items, 26, 1, 2);
    lemma_field_bound(items, 27, 1, 2);
    lemma_field_bound(items, 28, 1, 2);
    lemma_field_bound(items, 29, 1, 2);
}

/// The `r`-th resource is the first room.
pub open spec fn is_first_room(resources: Seq<model::ResourceView>, r: int) -> bool {
    &&& 0 <= r < resources.len()
    &&& resources[r].key.fourcc == 0x4D524541
    &&& forall|j: int| 0 <= j < r ==> (#[trigger] resources[j]).key.fourcc != 0x4D524541
}

/// The `i`-th object is the first spawn point.
pub open spec fn is_first_spawn(objects: Seq<model::ObjectView>, i: int) -> bool {
    &&& 0 <= i < objects.len()
    &&& objects[i].property_data is SpawnPoint
    &&& forall|j: int| 0 <= j < i ==> !((#[trigger] objects[j]).property_data is SpawnPoint)
}

/// The first room is found.
proof fn lemma_room(resources: Seq<model::ResourceView>)
    ensures
        match starting_items::first_room(resources) {
            Some(r) => is_first_room(resources, r),
            None => forall|j: int|
                0 <= j < resources.len() ==> (#[trigger] resources[j]).key.fourcc != 0x4D524541,
        },
    decreases resources.len(),
{
    if resources.len() > 0 && resources[0].key.fourcc != 0x4D524541 {
        let rest = resources.drop_first();
        lemma_room(rest);
        let end = match starting_items::first_room(rest) {
            Some(i) => i,
            None => rest.len() as int,
        };
        assert forall|j: int| 0 <= j < end + 1 implies (#[trigger] resources[j]).key.fourcc
            != 0x4D524541 by {
            if j > 0 {
                assert(rest[j - 1] == resources[j]);
            }
        }
    }
}

/// The first spawn point is found.
proof fn lemma_spawn(objects: Seq<model::ObjectView>)
    ensures
        match starting_items::first_spawn_point(objects) {
            Some(i) => is_first_spawn(objects, i),
            None => forall|j: int|
                0 <= j < objects.len() ==> !((#[trigger] objects[j]).property_data is SpawnPoint),
        },
    decreases objects.len(),
{
    if objects.len() > 0 && !(objects[0].property_data is SpawnPoint) {
        let rest = objects.drop_first();
        lemma_spawn(rest);
        let end = match starting_items::first_spawn_point(rest) {
            Some(i) => i,
            None => rest.len() as int,
        };
        assert forall|j: int| 0 <= j < end + 1 implies !((
        #[trigger] objects[j]).property_data is SpawnPoint) by {
            if j > 0 {
                assert(rest[j - 1] == objects[j]);
            }
        }
    }
}

/// The first room of a world, and the first spawn point in its first layer.
pub open spec fn is_start(
    resources: Seq<model::ResourceView>,
    r: int,
    a: model::AreaView,
    i: int,
    s: SpawnPoint,
) -> bool {
    &&& is_first_room(resources, r)
    &&& resources[r].kind == model::ResourceKindView::Mrea(a)
    &&& a.layers.len() > 0
    &&& is_first_spawn(a.layers[0], i)
    &&& a.layers[0][i].property_data == model::PropertyView::SpawnPoint(s)
}

/// Setting the starting items changes the first spawn point in the first layer of the first room,
/// so that it gives what the number asks for in every field, and changes nothing else.
pub proof fn law_start_is_set(
    resources: Seq<model::ResourceView>,
    items: u64,
    r: int,
    a: model::AreaView,
    i: int,
    s: SpawnPoint,
)
    requires
        is_start(resources, r, a, i, s),
    ensures
        match starting_items::with_starting_items(resources, items) {
            Some(out) => {
                &&& out.len() == resources.len()
                &&& forall|j: int|
                    0 <= j < out.len() && j != r ==> #[trigger] out[j] == resources[j]
                &&& out[r].key == resources[r].key
                &&& match out[r].kind {
                    model::ResourceKindView::Mrea(b) => {
                        &&& b == (model::AreaView { layers: b.layers, ..a })
                        &&& b.layers.len() == a.layers.len()
                        &&& forall|l: int|
                            0 < l < a.layers.len() ==> #[trigger] b.layers[l] == a.layers[l]
                        &&& b.layers[0].len() == a.layers[0].len()
                        &&& forall|x: int|
                            0 <= x < a.layers[0].len() && x != i ==> #[trigger] b.layers[0][x]
                                == a.layers[0][x]
                        &&& b.layers[0][i].instance_id == a.layers[0][i].instance_id
                        &&& b.layers[0][i].connections == a.layers[0][i].connections
                        &&& match b.layers[0][i].property_data {
                            model::PropertyView::SpawnPoint(p) => gives(p, items) && p.others
                                == s.others,
                            _ => false,
                        }
                    },
                    _ => false,
                }
            },
            None => false,
        },
{
    lemma_room(resources);
    let q = starting_items::first_room(resources)->0;
    if q < r {
        assert(resources[q].key.fourcc != 0x4D524541);
    } else if r < q {
        assert(resources[r].key.fourcc != 0x4D524541);
    }
    let objects = a.layers[0];
    lemma_spawn(objects);
    let x = starting_items::first_spawn_point(objects)->0;
    if x < i {
        assert(!(objects[x].property_data is SpawnPoint));
    } else if i < x {
        assert(!(objects[i].property_data is SpawnPoint));
    }
    law_items_are_decoded(items, s.others);
}

/// The starting items can be set only where there is a first room with a spawn point in its first
/// layer.
pub proof fn law_start_is_needed(resources: Seq<model::ResourceView>, items: u64)
    requires
        starting_items::with_starting_items(resources, items) is Some,
    ensures
        exists|r: int, a: model::AreaView, i: int, s: SpawnPoint| #[trigger]
            is_start(resources, r, a, i, s),
{
    lemma_room(resources);
    let r = starting_items::first_room(resources)->0;
    match resources[r].kind {
        model::ResourceKindView::Mrea(a) => {
            lemma_spawn(a.layers[0]);
            let i = starting_items::first_spawn_point(a.layers[0])->0;
            match a.layers[0][i].property_data {
                model::PropertyView::SpawnPoint(s) => {
                    assert(is_start(resources, r, a, i, s));
                },
                _ => {},
            }
        },
        _ => {},
    }
}

/// The lines that are shown about starting items: one for each, in order, with its count; that of
/// the charge beam shows the count of the plasma beam.
pub proof fn law_report_shows_items(s: SpawnPoint)
    ensures
        ({
            let lines = starting_items::starting_report(s);
            &&& lines.len() == 19
            &&& lines[0] == "Starting pickups set:"@
            &&& lines[1] == "    missiles: "@ + text::decimal_text(s.missiles as nat)
            &&& lines[2] == "    energy_tanks: "@ + text::decimal_text(s.energy_tanks as nat)
            &&& lines[3] == "    power_bombs: "@ + text::decimal_text(s.power_bombs as nat)
            &&& lines[4] == "    wave: "@ + text::decimal_text(s.wave as nat)
            &&& lines[5] == "    ice: "@ + text::decimal_text(s.ice as nat)
            &&& lines[6] == "    plasma: "@ + text::decimal_text(s.plasma as nat)
            &&& lines[7] == "    charge: "@ + text::decimal_text(s.plasma as nat)
            &&& lines[8] == "    morph_ball: "@ + text::decimal_text(s.morph_ball as nat)
            &&& lines[9] == "    bombs: "@ + text::decimal_text(s.bombs as nat)
            &&& lines[10] == "    spider_ball: "@ + text::decimal_text(s.spider_ball as nat)
            &&& lines[11] == "    boost_ball: "@ + text::decimal_text(s.boost_ball as nat)
            &&& lines[12] == "    gravity_suit: "@ + text::decimal_text(s.gravity_suit as nat)
            &&& lines[13] == "    phazon_suit: "@ + text::decimal_text(s.phazon_suit as nat)
            &&& lines[14] == "    thermal_visor: "@ + text::decimal_text(s.thermal_visor as nat)
            &&& lines[15] == "    xray: "@ + text::decimal_text(s.xray as nat)
            &&& lines[16] == "    space_jump: "@ + text::decimal_text(s.space_jump as nat)
            &&& lines[17] == "    grapple: "@ + text::decimal_text(s.grapple as nat)
            &&& lines[18] == "    super_missile: "@ + text::decimal_text(s.super_missile as nat)
        }),
{
    reveal_strlit("    ");
    reveal_strlit(": ");
    reveal_strlit("missiles");
    reveal_strlit("    missiles: ");
    assert("    "@ + "missiles"@ + ": "@ =~= "    missiles: "@);
    reveal_strlit("energy_tanks");
    reveal_strlit("    energy_tanks: ");
    assert("    "@ + "energy_tanks"@ + ": "@ =~= "    energy_tanks: "@);
    reveal_strlit("power_bombs");
    reveal_strlit("    power_bombs: ");
    assert("    "@ + "power_bombs"@ + ": "@ =~= "    power_bombs: "@);
    reveal_strlit("wave");
    reveal_strlit("    wave: ");
    assert("    "@ + "wave"@ + ": "@ =~= "    wave: "@);
    reveal_strlit("ice");
    reveal_strlit("    ice: ");
    assert("    "@ + "ice"@ + ": "@ =~= "    ice: "@);
    reveal_strlit("plasma");
    reveal_strlit("    plasma: ");
    assert("    "@ + "plasma"@ + ": "@ =~= "    plasma: "@);
    reveal_strlit("charge");
    reveal_strlit("    charge: ");
    assert("    "@ + "charge"@ + ": "@ =~= "    charge: "@);
    reveal_strlit("morph_ball");
    reveal_strlit("    morph_ball: ");
    assert("    "@ + "morph_ball"@ + ": "@ =~= "    morph_ball: "@);
    reveal_strlit("bombs");
    reveal_strlit("    bombs: ");
    assert("    "@ + "bombs"@ + ": "@ =~= "    bombs: "@);
    reveal_strlit("spider_ball");
    reveal_strlit("    spider_ball: ");
    assert("    "@ + "spider_ball"@ + ": "@ =~= "    spider_ball: "@);
    reveal_strlit("boost_ball");
    reveal_strlit("    boost_ball: ");
    assert("    "@ + "boost_ball"@ + ": "@ =~= "    boost_ball: "@);
    reveal_strlit("gravity_suit");
    reveal_strlit("    gravity_suit: ");
    assert("    "@ + "gravity_suit"@ + ": "@ =~= "    gravity_suit: "@);
    reveal_strlit("phazon_suit");
    reveal_strlit("    phazon_suit: ");
    assert("    "@ + "phazon_suit"@ + ": "@ =~= "    phazon_suit: "@);
    reveal_strlit("thermal_visor");
    reveal_strlit("    thermal_visor: ");
    assert("    "@ + "thermal_visor"@ + ": "@ =~= "    thermal_visor: "@);
    reveal_strlit("xray");
    reveal_strlit("    xray: ");
    assert("    "@ + "xray"@ + ": "@ =~= "    xray: "@);
    reveal_strlit("space_jump");
    reveal_strlit("    space_jump: ");
    assert("    "@ + "space_jump"@ + ": "@ =~= "    space_jump: "@);
    reveal_strlit("grapple");
    reveal_strlit("    grapple: ");
    assert("    "@ + "grapple"@ + ": "@ =~= "    grapple: "@);
    reveal_strlit("super_missile");
    reveal_strlit("    super_missile: ");
    assert("    "@ + "super_missile"@ + ": "@ =~= "    super_missile: "@);
}

} // verus!
