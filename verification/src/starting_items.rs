//! What a new game starts with.

use vstd::prelude::*;
use vstd::arithmetic::div_mod::*;
use vstd::arithmetic::power2::*;
use vstd::bits::*;
use crate::model;
use crate::model::{Pak, Resource, ResourceKind, SclyLayer, SclyProperty, SpawnPoint};
use crate::text;

verus! {

/// `width` bits of a number, from the bit `offset` on.
pub open spec fn bit_field(items: u64, offset: nat, width: nat) -> u32 {
    ((items as nat / pow2(offset)) % pow2(width)) as u32
}

/// The starting items that a number encodes, lowest bits first: eight bits of missiles, four of
/// energy tanks, three of power bombs, and one bit for each of the others.
pub open spec fn starting_point(items: u64, others: usize) -> SpawnPoint {
    SpawnPoint {
        missiles: bit_field(items, 0, 8),
        energy_tanks: bit_field(items, 8, 4),
        power_bombs: bit_field(items, 12, 3),
        wave: bit_field(items, 15, 1),
        ice: bit_field(items, 16, 1),
        plasma: bit_field(items, 17, 1),
        charge: bit_field(items, 18, 1),
        morph_ball: bit_field(items, 19, 1),
        bombs: bit_field(items, 20, 1),
        spider_ball: bit_field(items, 21, 1),
        boost_ball: bit_field(items, 22, 1),
        gravity_suit: bit_field(items, 23, 1),
        phazon_suit: bit_field(items, 24, 1),
        thermal_visor: bit_field(items, 25, 1),
        xray: bit_field(items, 26, 1),
        space_jump: bit_field(items, 27, 1),
        grapple: bit_field(items, 28, 1),
        super_missile: bit_field(items, 29, 1),
        others,
    }
}

/// Bits that are taken off a number one field after the other.
pub struct BitFields {
    rest: u64,
    items: Ghost<u64>,
    taken: Ghost<nat>,
}

impl BitFields {
    /// What is left is the number without the bits taken.
    closed spec fn wf(self) -> bool {
        self.rest == self.items@ as nat / pow2(self.taken@)
    }

    /// The number that the fields come from.
    pub closed spec fn items(self) -> u64 {
        self.items@
    }

    /// How many bits were taken.
    pub closed spec fn taken(self) -> nat {
        self.taken@
    }

    #[verifier::type_invariant]
    spec fn inv(self) -> bool {
        self.wf()
    }

    /// All the bits of a number.
    pub fn new(items: u64) -> (r: BitFields)
        ensures
            r.items() == items,
            r.taken() == 0,
    {
        proof {
            lemma2_to64();
            lemma_div_basics(items as int);
        }
        BitFields { rest: items, items: Ghost(items), taken: Ghost(0) }
    }

    /// Takes the next bits, at most 32 of them.
    pub fn fetch_bits(self, bits: u8) -> (r: (u32, BitFields))
        requires
            bits <= 32,
        ensures
            r.0 == bit_field(self.items(), self.taken(), bits as nat),
            r.1.items() == self.items(),
            r.1.taken() == self.taken() + bits,
    {
        proof {
            use_type_invariant(&self);
            lemma2_to64();
            lemma_pow2_pos(bits as nat);
            if bits < 32 {
                lemma_pow2_strictly_increases(bits as nat, 32);
            }
            lemma_u64_shl_is_mul(1, bits as u64);
        }
        let rest = self.rest;
        let mask = (1u64 << (bits as u64)) - 1;
        let value = rest & mask;
        let shifted = rest >> (bits as u64);
        proof {
            lemma_u64_shr_is_div(rest, bits as u64);
            lemma_u64_low_bits_mask_is_mod(rest, bits as nat);
            assert(low_bits_mask(bits as nat) == mask);
            lemma_mod_bound(rest as int, pow2(bits as nat) as int);
            lemma_pow2_pos(self.taken@);
            lemma_pow2_adds(self.taken@, bits as nat);
            lemma_div_denominator(
                self.items@ as int,
                pow2(self.taken@) as int,
                pow2(bits as nat) as int,
            );
        }
        let items = self.items;
        let taken: Ghost<nat> = Ghost((self.taken@ + bits) as nat);
        (value as u32, BitFields { rest: shifted, items, taken })
    }
}

/// Decodes starting items.
pub fn decode_starting_items(items: u64, others: usize) -> (r: SpawnPoint)
    ensures
        r == starting_point(items, others),
{
    let fields = BitFields::new(items);
    let (missiles, fields) = fields.fetch_bits(8);
    let (energy_tanks, fields) = fields.fetch_bits(4);
    let (power_bombs, fields) = fields.fetch_bits(3);
    let (wave, fields) = fields.fetch_bits(1);
    let (ice, fields) = fields.fetch_bits(1);
    let (plasma, fields) = fields.fetch_bits(1);
    let (charge, fields) = fields.fetch_bits(1);
    let (morph_ball, fields) = fields.fetch_bits(1);
    let (bombs, fields) = fields.fetch_bits(1);
    let (spider_ball, fields) = fields.fetch_bits(1);
    let (boost_ball, fields) = fields.fetch_bits(1);
    let (gravity_suit, fields) = fields.fetch_bits(1);
    let (phazon_suit, fields) = fields.fetch_bits(1);
    let (thermal_visor, fields) = fields.fetch_bits(1);
    let (xray, fields) = fields.fetch_bits(1);
    let (space_jump, fields) = fields.fetch_bits(1);
    let (grapple, fields) = fields.fetch_bits(1);
    let (super_missile, _fields) = fields.fetch_bits(1);
    SpawnPoint {
        missiles,
        energy_tanks,
        power_bombs,
        wave,
        ice,
        plasma,
        charge,
        morph_ball,
        bombs,
        spider_ball,
        boost_ball,
        gravity_suit,
        phazon_suit,
        thermal_visor,
        xray,
        space_jump,
        grapple,
        super_missile,
        others,
    }
}

/// The position of the first room among resources.
pub open spec fn first_room(resources: Seq<model::ResourceView>) -> Option<int>
    decreases resources.len(),
{
    if resources.len() == 0 {
        None
    } else if resources[0].key.fourcc == model::MREA {
        Some(0)
    } else {
        match first_room(resources.drop_first()) {
            Some(i) => Some(i + 1),
            None => None,
        }
    }
}

/// The position of the first spawn point among objects.
pub open spec fn first_spawn_point(objects: Seq<model::ObjectView>) -> Option<int>
    decreases objects.len(),
{
    if objects.len() == 0 {
        None
    } else if objects[0].property_data is SpawnPoint {
        Some(0)
    } else {
        match first_spawn_point(objects.drop_first()) {
            Some(i) => Some(i + 1),
            None => None,
        }
    }
}

/// The objects of a layer with other starting items at its first spawn point; `None` if it has
/// none.
pub open spec fn with_spawn_items(objects: Seq<model::ObjectView>, items: u64) -> Option<
    Seq<model::ObjectView>,
> {
    match first_spawn_point(objects) {
        None => None,
        Some(i) => match objects[i].property_data {
            model::PropertyView::SpawnPoint(s) => Some(
                objects.update(
                    i,
                    model::ObjectView {
                        property_data: model::PropertyView::SpawnPoint(
                            starting_point(items, s.others),
                        ),
                        ..objects[i]
                    },
                ),
            ),
            _ => None,
        },
    }
}

/// The resources of a pak with other starting items at the first spawn point of the first layer of
/// the first room; `None` if there is no such place.
pub open spec fn with_starting_items(resources: Seq<model::ResourceView>, items: u64) -> Option<
    Seq<model::ResourceView>,
> {
    match first_room(resources) {
        None => None,
        Some(i) => match resources[i].kind {
            model::ResourceKindView::Mrea(a) => if a.layers.len() == 0 {
                None
            } else {
                match with_spawn_items(a.layers[0], items) {
                    None => None,
                    Some(objects) => Some(
                        resources.update(
                            i,
                            model::ResourceView {
                                kind: model::ResourceKindView::Mrea(
                                    model::AreaView { layers: a.layers.update(0, objects), ..a },
                                ),
                                ..resources[i]
                            },
                        ),
                    ),
                }
            },
            _ => None,
        },
    }
}

/// No earlier resource is a room.
proof fn lemma_first_room(resources: Seq<model::ResourceView>, i: int)
    requires
        0 <= i <= resources.len(),
        forall|j: int| 0 <= j < i ==> (#[trigger] resources[j]).key.fourcc != model::MREA,
        i < resources.len() ==> resources[i].key.fourcc == model::MREA,
    ensures
        first_room(resources) == if i < resources.len() {
            Some(i)
        } else {
            None
        },
    decreases resources.len(),
{
    if i > 0 {
        let rest = resources.drop_first();
        assert forall|j: int| 0 <= j < i - 1 implies (#[trigger] rest[j]).key.fourcc
            != model::MREA by {
            assert(rest[j] == resources[j + 1]);
        }
        assert(resources[0].key.fourcc != model::MREA);
        lemma_first_room(rest, i - 1);
    }
}

/// No earlier object is a spawn point.
proof fn lemma_first_spawn_point(objects: Seq<model::ObjectView>, i: int)
    requires
        0 <= i <= objects.len(),
        forall|j: int| 0 <= j < i ==> !((#[trigger] objects[j]).property_data is SpawnPoint),
        i < objects.len() ==> objects[i].property_data is SpawnPoint,
    ensures
        first_spawn_point(objects) == if i < objects.len() {
            Some(i)
        } else {
            None
        },
    decreases objects.len(),
{
    if i > 0 {
        let rest = objects.drop_first();
        assert forall|j: int| 0 <= j < i - 1 implies !((#[trigger] rest[j]).property_data
            is SpawnPoint) by {
            assert(rest[j] == objects[j + 1]);
        }
        assert(!(objects[0].property_data is SpawnPoint));
        lemma_first_spawn_point(rest, i - 1);
    }
}

/// Sets the starting items of a layer's first spawn point, and answers with them.
fn set_spawn_items(layer: &mut SclyLayer, items: u64) -> (r: Option<SpawnPoint>)
    ensures
        r is Some <==> with_spawn_items(old(layer)@, items) is Some,
        r is Some ==> final(layer)@ == with_spawn_items(old(layer)@, items)->0,
        r is Some ==> r->0 == starting_point(items, (r->0).others),
{
    let ghost before = layer@;
    let count = layer.objects.len();
    for i in 0..count
        invariant
            before == layer@,
            before == old(layer)@,
            count == layer.objects.len(),
            forall|j: int| 0 <= j < i ==> !((#[trigger] before[j]).property_data is SpawnPoint),
    {
        assert(before[i as int] == layer.objects@[i as int]@);
        let found = match &layer.objects[i].property_data {
            SclyProperty::SpawnPoint(s) => Some(s.others),
            _ => None,
        };
        if let Some(others) = found {
            proof {
                lemma_first_spawn_point(before, i as int);
            }
            let point = decode_starting_items(items, others);
            layer.objects[i].property_data = SclyProperty::SpawnPoint(point);
            assert(layer@ =~= before.update(i as int, layer.objects@[i as int]@));
            return Some(point);
        }
    }
    proof {
        lemma_first_spawn_point(before, count as int);
    }
    None
}

/// One line of the report.
pub open spec fn report_line(label: Seq<char>, count: u32) -> Seq<char> {
    "    "@ + label + ": "@ + text::decimal_text(count as nat)
}

/// The report on starting items. The line of the charge beam shows the count of the plasma beam.
pub open spec fn starting_report(s: SpawnPoint) -> Seq<Seq<char>> {
    seq![
        "Starting pickups set:"@,
        report_line("missiles"@, s.missiles),
        report_line("energy_tanks"@, s.energy_tanks),
        report_line("power_bombs"@, s.power_bombs),
        report_line("wave"@, s.wave),
        report_line("ice"@, s.ice),
        report_line("plasma"@, s.plasma),
        report_line("charge"@, s.plasma),
        report_line("morph_ball"@, s.morph_ball),
        report_line("bombs"@, s.bombs),
        report_line("spider_ball"@, s.spider_ball),
        report_line("boost_ball"@, s.boost_ball),
        report_line("gravity_suit"@, s.gravity_suit),
        report_line("phazon_suit"@, s.phazon_suit),
        report_line("thermal_visor"@, s.thermal_visor),
        report_line("xray"@, s.xray),
        report_line("space_jump"@, s.space_jump),
        report_line("grapple"@, s.grapple),
        report_line("super_missile"@, s.super_missile),
    ]
}

/// Writes one line of the report.
fn write_report_line(label: &str, count: u32) -> (r: String)
    ensures
        r@ == report_line(label@, count),
{
    let mut line = "    ".to_owned();
    line.append(label);
    line.append(": ");
    let number = text::decimal(count as u64);
    line.append(number.as_str());
    line
}

/// Writes the report on starting items.
pub fn write_starting_report(s: &SpawnPoint) -> (r: Vec<String>)
    ensures
        model::views(r@) == starting_report(*s),
{
    let mut lines: Vec<String> = Vec::new();
    lines.push("Starting pickups set:".to_owned());
    lines.push(write_report_line("missiles", s.missiles));
    lines.push(write_report_line("energy_tanks", s.energy_tanks));
    lines.push(write_report_line("power_bombs", s.power_bombs));
    lines.push(write_report_line("wave", s.wave));
    lines.push(write_report_line("ice", s.ice));
    lines.push(write_report_line("plasma", s.plasma));
    lines.push(write_report_line("charge", s.plasma));
    lines.push(write_report_line("morph_ball", s.morph_ball));
    lines.push(write_report_line("bombs", s.bombs));
    lines.push(write_report_line("spider_ball", s.spider_ball));
    lines.push(write_report_line("boost_ball", s.boost_ball));
    lines.push(write_report_line("gravity_suit", s.gravity_suit));
    lines.push(write_report_line("phazon_suit", s.phazon_suit));
    lines.push(write_report_line("thermal_visor", s.thermal_visor));
    lines.push(write_report_line("xray", s.xray));
    lines.push(write_report_line("space_jump", s.space_jump));
    lines.push(write_report_line("grapple", s.grapple));
    lines.push(write_report_line("super_missile", s.super_missile));
    assert(model::views(lines@) =~= starting_report(*s));
    lines
}

/// Sets the starting items in a pak, and writes a report.
pub fn patch_starting_pickups(pak: Pak, items: u64) -> (r: Option<(Pak, Vec<String>)>)
    ensures
        r is Some <==> with_starting_items(pak@, items) is Some,
        r is Some ==> (r->0).0@ == with_starting_items(pak@, items)->0,
        r is Some ==> model::views((r->0).1@) == starting_report(starting_point(items, 0)),
{
    let mut resources = pak.resources;
    let ghost before = model::views(resources@);
    let count = resources.len();
    let mut i: usize = 0;
    while i < count && resources[i].key.fourcc != model::MREA
        invariant
            count == resources.len(),
            before == model::views(resources@),
            i <= count,
            forall|j: int| 0 <= j < i ==> (#[trigger] before[j]).key.fourcc != model::MREA,
        decreases count - i,
    {
        assert(before[i as int] == resources@[i as int]@);
        i = i + 1;
    }
    proof {
        if i < count {
            assert(before[i as int] == resources@[i as int]@);
        }
        lemma_first_room(before, i as int);
    }
    if i == count {
        return None;
    }
    let key = resources[i].key;
    let mut taken = Resource { key, kind: ResourceKind::Other(0) };
    core::mem::swap(&mut taken, &mut resources[i]);
    assert(taken@ == before[i as int]);
    match taken.kind {
        ResourceKind::Mrea(mut area) => {
            if area.layers.len() == 0 {
                return None;
            }
            let ghost old_layers = area@.layers;
            match set_spawn_items(&mut area.layers[0], items) {
                Some(point) => {
                    assert(area@.layers =~= old_layers.update(0, area.layers@[0]@));
                    let patched = Resource { key, kind: ResourceKind::Mrea(area) };
                    resources.set(i, patched);
                    assert(model::views(resources@) =~= before.update(i as int, patched@));
                    Some((Pak { resources }, write_starting_report(&point)))
                },
                None => None,
            }
        },
        _ => None,
    }
}

/// A field adds its bits to those below it.
proof fn lemma_field_adds(items: u64, offset: nat, width: nat)
    requires
        width <= 8,
    ensures
        items as nat % pow2(offset + width) == items as nat % pow2(offset) + pow2(offset)
            * bit_field(items, offset, width),
{
    lemma_pow2_pos(offset);
    lemma_pow2_pos(width);
    lemma_pow2_adds(offset, width);
    lemma_mod_breakdown(items as int, pow2(offset) as int, pow2(width) as int);
    lemma2_to64();
    if width < 8 {
        lemma_pow2_strictly_increases(width, 8);
    }
    lemma_mod_bound((items as nat / pow2(offset)) as int, pow2(width) as int);
}

/// The starting items spell the lowest thirty bits of the number that encodes them.
pub proof fn law_starting_items_spell_number(items: u64)
    ensures
        ({
            let s = starting_point(items, 0);
            items as int % 0x4000_0000 == s.missiles + 0x100 * s.energy_tanks + 0x1000
                * s.power_bombs + 0x8000 * s.wave + 0x1_0000 * s.ice + 0x2_0000 * s.plasma
                + 0x4_0000 * s.charge + 0x8_0000 * s.morph_ball + 0x10_0000 * s.bombs + 0x20_0000
                * s.spider_ball + 0x40_0000 * s.boost_ball + 0x80_0000 * s.gravity_suit
                + 0x100_0000 * s.phazon_suit + 0x200_0000 * s.thermal_visor + 0x400_0000 * s.xray
                + 0x800_0000 * s.space_jump + 0x1000_0000 * s.grapple + 0x2000_0000
                * s.super_missile
        }),
{
    lemma2_to64();
    lemma_field_adds(items, 0, 8);
    lemma_field_adds(items, 8, 4);
    lemma_field_adds(items, 12, 3);
    lemma_field_adds(items, 15, 1);
    lemma_field_adds(items, 16, 1);
    lemma_field_adds(items, 17, 1);
    lemma_field_adds(items, 18, 1);
    lemma_field_adds(items, 19, 1);
    lemma_field_adds(items, 20, 1);
    lemma_field_adds(items, 21, 1);
    lemma_field_adds(items, 22, 1);
    lemma_field_adds(items, 23, 1);
    lemma_field_adds(items, 24, 1);
    lemma_field_adds(items, 25, 1);
    lemma_field_adds(items, 26, 1);
    lemma_field_adds(items, 27, 1);
    lemma_field_adds(items, 28, 1);
    lemma_field_adds(items, 29, 1);
}

} // verus!
