//! What a layout string says, stated by its characters, bits and sums.

use vstd::prelude::*;
use vstd::arithmetic::div_mod::*;
use vstd::arithmetic::mul::*;
use vstd::arithmetic::power::*;
use vstd::arithmetic::power2::*;
use crate::bignum;
use crate::digits;
use crate::layout;
use crate::text;

verus! {

/// The sum of the first `k` values of a function.
pub open spec fn sum_upto(f: spec_fn(int) -> int, k: int) -> int
    decreases k,
{
    if k <= 0 {
        0
    } else {
        sum_upto(f, k - 1) + f(k - 1)
    }
}

/// The characters of layout strings, each at the place of its value.
pub open spec fn alphabet() -> Seq<char> {
    "ABCDEFGHIJKLMNOPQRSTUWVXYZabcdefghijklmnopqrstuwvxyz0123456789-_"@
}

/// The characters with a value are those of the alphabet, and their values are their places.
proof fn lemma_alphabet(v: int)
    ensures
        alphabet().len() == 64,
        0 <= v < 64 ==> layout::layout_digit(alphabet()[v]) == Some(v as u8),
{
    reveal_strlit("ABCDEFGHIJKLMNOPQRSTUWVXYZabcdefghijklmnopqrstuwvxyz0123456789-_");
    if v == 0 {
        assert(alphabet()[0] == 'A');
    } else if v == 1 {
        assert(alphabet()[1] == 'B');
    } else if v == 2 {
        assert(alphabet()[2] == 'C');
    } else if v == 3 {
        assert(alphabet()[3] == 'D');
    } else if v == 4 {
        assert(alphabet()[4] == 'E');
    } else if v == 5 {
        assert(alphabet()[5] == 'F');
    } else if v == 6 {
        assert(alphabet()[6] == 'G');
    } else if v == 7 {
        assert(alphabet()[7] == 'H');
    } else if v == 8 {
        assert(alphabet()[8] == 'I');
    } else if v == 9 {
        assert(alphabet()[9] == 'J');
    } else if v == 10 {
        assert(alphabet()[10] == 'K');
    } else if v == 11 {
        assert(alphabet()[11] == 'L');
    } else if v == 12 {
        assert(alphabet()[12] == 'M');
    } else if v == 13 {
        assert(alphabet()[13] == 'N');
    } else if v == 14 {
        assert(alphabet()[14] == 'O');
    } else if v == 15 {
        assert(alphabet()[15] == 'P');
    } else if v == 16 {
        assert(alphabet()[16] == 'Q');
    } else if v == 17 {
        assert(alphabet()[17] == 'R');
    } else if v == 18 {
        assert(alphabet()[18] == 'S');
    } else if v == 19 {
        assert(alphabet()[19] == 'T');
    } else if v == 20 {
        assert(alphabet()[20] == 'U');
    } else if v == 21 {
        assert(alphabet()[21] == 'W');
    } else if v == 22 {
        assert(alphabet()[22] == 'V');
    } else if v == 23 {
        assert(alphabet()[23] == 'X');
    } else if v == 24 {
        assert(alphabet()[24] == 'Y');
    } else if v == 25 {
        assert(alphabet()[25] == 'Z');
    } else if v == 26 {
        assert(alphabet()[26] == 'a');
    } else if v == 27 {
        assert(alphabet()[27] == 'b');
    } else if v == 28 {
        assert(alphabet()[28] == 'c');
    } else if v == 29 {
        assert(alphabet()[29] == 'd');
    } else if v == 30 {
        assert(alphabet()[30] == 'e');
    } else if v == 31 {
        assert(alphabet()[31] == 'f');
    } else if v == 32 {
        assert(alphabet()[32] == 'g');
    } else if v == 33 {
        assert(alphabet()[33] == 'h');
    } else if v == 34 {
        assert(alphabet()[34] == 'i');
    } else if v == 35 {
        assert(alphabet()[35] == 'j');
    } else if v == 36 {
        assert(alphabet()[36] == 'k');
    } else if v == 37 {
        assert(alphabet()[37] == 'l');
    } else if v == 38 {
        assert(alphabet()[38] == 'm');
    } else if v == 39 {
        assert(alphabet()[39] == 'n');
    } else if v == 40 {
        assert(alphabet()[40] == 'o');
    } else if v == 41 {
        assert(alphabet()[41] == 'p');
    } else if v == 42 {
        assert(alphabet()[42] == 'q');
    } else if v == 43 {
        assert(alphabet()[43] == 'r');
    } else if v == 44 {
        assert(alphabet()[44] == 's');
    } else if v == 45 {
        assert(alphabet()[45] == 't');
    } else if v == 46 {
        assert(alphabet()[46] == 'u');
    } else if v == 47 {
        assert(alphabet()[47] == 'w');
    } else if v == 48 {
        assert(alphabet()[48] == 'v');
    } else if v == 49 {
        assert(alphabet()[49] == 'x');
    } else if v == 50 {
        assert(alphabet()[50] == 'y');
    } else if v == 51 {
        assert(alphabet()[51] == 'z');
    } else if v == 52 {
        assert(alphabet()[52] == '0');
    } else if v == 53 {
        assert(alphabet()[53] == '1');
    } else if v == 54 {
        assert(alphabet()[54] == '2');
    } else if v == 55 {
        assert(alphabet()[55] == '3');
    } else if v == 56 {
        assert(alphabet()[56] == '4');
    } else if v == 57 {
        assert(alphabet()[57] == '5');
    } else if v == 58 {
        assert(alphabet()[58] == '6');
    } else if v == 59 {
        assert(alphabet()[59] == '7');
    } else if v == 60 {
        assert(alphabet()[60] == '8');
    } else if v == 61 {
        assert(alphabet()[61] == '9');
    } else if v == 62 {
        assert(alphabet()[62] == '-');
    } else if v == 63 {
        assert(alphabet()[63] == '_');
    }
}

/// A character with a value stands in the alphabet at that place.
proof fn lemma_in_alphabet(c: char)
    requires
        layout::layout_digit(c) is Some,
    ensures
        layout::layout_digit(c)->0 < 64,
        alphabet()[layout::layout_digit(c)->0 as int] == c,
{
    let v = layout::layout_digit(c)->0;
    lemma_alphabet(v as int);
    let d = alphabet()[v as int];
    assert(layout::layout_digit(d) == Some(v));
}

/// Sums of equal values are equal.
proof fn lemma_sum_same(f: spec_fn(int) -> int, g: spec_fn(int) -> int, k: int)
    requires
        forall|i: int| 0 <= i < k ==> #[trigger] f(i) == g(i),
    ensures
        sum_upto(f, k) == sum_upto(g, k),
    decreases k,
{
    if k > 0 {
        lemma_sum_same(f, g, k - 1);
    }
}

/// A sum, with its first value apart.
proof fn lemma_sum_first(f: spec_fn(int) -> int, k: int)
    requires
        k > 0,
    ensures
        sum_upto(f, k) == f(0) + sum_upto(|i: int| f(i + 1), k - 1),
    decreases k,
{
    let g = |i: int| f(i + 1);
    if k > 1 {
        lemma_sum_first(f, k - 1);
        assert(g(k - 2) == f(k - 1));
    } else {
        assert(sum_upto(f, 0) == 0);
        assert(sum_upto(g, 0) == 0);
    }
}

/// The value of a numeral is the sum of its digits, each times the power of its place.
proof fn lemma_value_is_sum(d: Seq<u8>, base: nat)
    ensures
        digits::le_value(d, base) == sum_upto(
            |i: int| d[i] * pow(base as int, i as nat),
            d.len() as int,
        ),
    decreases d.len(),
{
    let f = |i: int| d[i] * pow(base as int, i as nat);
    if d.len() > 0 {
        let low = d.drop_last();
        assert(d =~= low.push(d.last()));
        digits::lemma_value_push(low, d.last(), base);
        lemma_value_is_sum(low, base);
        let g = |i: int| low[i] * pow(base as int, i as nat);
        lemma_sum_same(f, g, low.len() as int);
        assert(f(low.len() as int) == d.last() * pow(base as int, low.len()));
    }
}

/// The digits of a number, as far as they are taken, denote its remainder.
proof fn lemma_low_digits(p: int, k: nat, base: nat)
    requires
        p >= 0,
        2 <= base <= 256,
    ensures
        digits::le_value(
            Seq::new(k, |j: int| ((p / pow(base as int, j as nat)) % (base as int)) as u8),
            base,
        ) == p % pow(base as int, k),
        digits::digits_below(
            Seq::new(k, |j: int| ((p / pow(base as int, j as nat)) % (base as int)) as u8),
            base,
        ),
    decreases k,
{
    let b = base as int;
    let d = Seq::new(k, |j: int| ((p / pow(b, j as nat)) % b) as u8);
    assert forall|i: int| 0 <= i < d.len() implies (#[trigger] d[i]) < base by {
        lemma_mod_bound(p / pow(b, i as nat), b);
    }
    if k == 0 {
        lemma_pow0(b);
    } else {
        let m = (k - 1) as nat;
        let low = Seq::new(m, |j: int| ((p / pow(b, j as nat)) % b) as u8);
        let top = ((p / pow(b, m)) % b) as u8;
        lemma_mod_bound(p / pow(b, m), b);
        assert(d =~= low.push(top));
        lemma_low_digits(p, m, base);
        digits::lemma_value_push(low, top, base);
        lemma_pow_positive(b, m);
        lemma_mod_breakdown(p, pow(b, m), b);
        lemma_pow_adds(b, m, 1);
        lemma_pow1(b);
        lemma_mul_is_commutative(top as int, pow(b, m));
    }
}

/// The sum of the groups of five binary digits, stated by division.
pub open spec fn sum_of_groups(p: int) -> int {
    sum_upto(|i: int| (p / pow(32, i as nat)) % 32, 104) % 32
}

/// The sum of groups, for a number of at most `k` of them.
proof fn lemma_groups(p: nat, k: nat)
    requires
        p < pow(32, k),
    ensures
        layout::group_sum(p) == sum_upto(|i: int| (p as int / pow(32, i as nat)) % 32, k as int)
            % 32,
    decreases k,
{
    let f = |i: int| (p as int / pow(32, i as nat)) % 32;
    if k == 0 {
        lemma_pow0(32);
        assert(sum_upto(f, 0) == 0);
    } else {
        layout::lemma_group_sum_unfold(p);
        let q = p / 32;
        lemma_pow_positive(32, (k - 1) as nat);
        lemma_pow_adds(32, 1, (k - 1) as nat);
        lemma_pow1(32);
        assert(q < pow(32, (k - 1) as nat)) by {
            let w = pow(32, (k - 1) as nat);
            assert(pow(32, k) == 32 * w);
        }
        lemma_groups(q, (k - 1) as nat);
        let g = |i: int| (q as int / pow(32, i as nat)) % 32;
        lemma_sum_first(f, k as int);
        let h = |i: int| f(i + 1);
        assert forall|i: int| 0 <= i < k - 1 implies #[trigger] h(i) == g(i) by {
            lemma_pow_positive(32, i as nat);
            lemma_pow_adds(32, 1, i as nat);
            lemma_div_denominator(p as int, 32, pow(32, i as nat));
        }
        lemma_sum_same(h, g, k - 1);
        lemma_pow0(32);
        lemma_div_basics(p as int);
        assert(f(0) == p % 32);
        let rest = sum_upto(g, k - 1);
        assert((p % 32 + rest % 32) % 32 == (p % 32 + rest) % 32) by {
            lemma_add_mod_noop_right((p % 32) as int, rest, 32);
        }
    }
}

/// The sum of bytes is the sum of their values.
proof fn lemma_byte_sum(bytes: Seq<u8>)
    ensures
        layout::byte_sum(bytes) == sum_upto(|i: int| bytes[i] as int, bytes.len() as int),
    decreases bytes.len(),
{
    let f = |i: int| bytes[i] as int;
    if bytes.len() > 0 {
        let low = bytes.drop_last();
        lemma_byte_sum(low);
        let g = |i: int| low[i] as int;
        lemma_sum_same(f, g, low.len() as int);
        assert(f(low.len() as int) == bytes.last());
    }
}

/// The sum of the bytes of a number from one place up to another.
pub open spec fn sum_of_bytes(n: int, from: int, to: int) -> int {
    sum_upto(|i: int| (n / pow(256, (from + i) as nat)) % 256, to - from)
}

/// A stretch of the bytes of a number, which may reach beyond its highest byte.
proof fn lemma_bytes(n: nat, from: int, to: int, end: int)
    requires
        0 <= from <= to <= digits::le_digits(n, 256).len(),
        to <= end,
        to < end ==> to == digits::le_digits(n, 256).len(),
    ensures
        layout::byte_sum(digits::le_digits(n, 256).subrange(from, to)) == sum_of_bytes(
            n as int,
            from,
            end,
        ),
    decreases end,
{
    let bytes = digits::le_digits(n, 256);
    digits::lemma_digits_denote(n, 256);
    let part = bytes.subrange(from, to);
    lemma_byte_sum(part);
    let f = |i: int| part[i] as int;
    let g = |i: int| (n as int / pow(256, (from + i) as nat)) % 256;
    assert forall|i: int| 0 <= i < to - from implies #[trigger] f(i) == g(i) by {
        digits::lemma_value_digit(bytes, from + i, 256);
    }
    lemma_sum_same(f, g, to - from);
    if to < end {
        lemma_bytes(n, from, to, end - 1);
        digits::lemma_digit_count(n, 256, (end - 1) as nat);
        lemma_basic_div(n as int, pow(256, (end - 1) as nat));
        assert(g(end - 1 - from) == 0);
    }
}

/// A binary digit of a number.
pub open spec fn binary_digit(n: int, j: int) -> int {
    (n / pow(2, j as nat)) % 2
}

/// Where a binary digit of a number of `len` of them comes from: counted from the highest, which is
/// the zeroth, the ones at odd places stand in reverse order.
pub open spec fn place_before(len: int, j: int) -> int {
    let from_top = len - 1 - j;
    if from_top % 2 == 1 {
        let last_odd = if len % 2 == 0 {
            len - 1
        } else {
            len - 2
        };
        len - 1 - (last_odd + 1 - from_top)
    } else {
        j
    }
}

/// A number with the binary digits at odd places put back in order.
pub open spec fn is_put_in_order(n: int, m: int, len: int) -> bool {
    &&& len > 0
    &&& pow(2, (len - 1) as nat) <= n < pow(2, len as nat)
    &&& 0 <= m < pow(2, len as nat)
    &&& forall|j: int|
        0 <= j < len ==> #[trigger] binary_digit(m, j) == binary_digit(n, place_before(len, j))
}

/// Putting in order is what unscrambling does.
proof fn lemma_in_order(n: nat, m: nat, len: int)
    requires
        is_put_in_order(n as int, m as int, len),
    ensures
        layout::unscrambled(n) == m,
        digits::le_digits(n, 2).len() == len,
{
    let d = digits::le_digits(n, 2);
    digits::lemma_digits_denote(n, 2);
    digits::lemma_digit_count(n, 2, len as nat);
    digits::lemma_digit_count(n, 2, (len - 1) as nat);
    assert(d.len() == len);
    let y = Seq::new(len as nat, |j: int| ((m as int / pow(2, j as nat)) % 2) as u8);
    lemma_low_digits(m as int, len as nat, 2);
    lemma_small_mod(m, pow(2, len as nat) as nat);
    let x = bignum::binary_text_digits(
        layout::odd_reversed(bignum::binary_text(d)),
    );
    assert forall|j: int| 0 <= j < len implies #[trigger] x[j] == y[j] by {
        let from = place_before(len, j);
        assert(0 <= from < len);
        digits::lemma_value_digit(d, from, 2);
        assert(binary_digit(m as int, j) == binary_digit(n as int, from));
        assert(d[from] < 2);
        lemma_mod_bound(m as int / pow(2, j as nat), 2);
    }
    assert(x =~= y);
}

/// The values of the characters of a text.
pub open spec fn has_values(text: Seq<char>, values: Seq<int>) -> bool {
    &&& text.len() == 87
    &&& values.len() == 87
    &&& forall|i: int|
        0 <= i < 87 ==> 0 <= #[trigger] values[i] < 64 && text[i] == alphabet()[values[i]]
}

/// The number that values spell in base 64, the first of them lowest.
pub open spec fn spelled(values: Seq<int>) -> int {
    sum_upto(|i: int| values[i] * pow(64, i as nat), 87)
}

/// A text with values is a layout text, and spells their number.
proof fn lemma_spelled(text: Seq<char>, values: Seq<int>)
    requires
        has_values(text, values),
    ensures
        layout::is_layout_text(text),
        layout::layout_number(text) == spelled(values),
{
    assert forall|i: int| 0 <= i < 87 implies layout::layout_digit(#[trigger] text[i]) == Some(
        values[i] as u8,
    ) by {
        lemma_alphabet(values[i]);
    }
    assert forall|i: int| 0 <= i < text.len() implies (#[trigger] text[i]) as nat <= 127 by {
        assert(layout::layout_digit(text[i]) is Some);
    }
    let d = layout::layout_digits(text);
    lemma_value_is_sum(d, 64);
    let f = |i: int| d[i] * pow(64, i as nat);
    let g = |i: int| values[i] * pow(64, i as nat);
    assert forall|i: int| 0 <= i < 87 implies #[trigger] f(i) == g(i) by {
        assert(layout::layout_digit(text[i]) == Some(values[i] as u8));
    }
    lemma_sum_same(f, g, 87);
}

/// The pickups, read as digits in base 36 with the last of them lowest, spell a number.
pub open spec fn spell_pickups(entries: Seq<u8>) -> int {
    sum_upto(|i: int| entries[99 - i] * pow(36, i as nat), 100)
}

/// What a layout string of 87 characters of the alphabet says. Its characters spell a number of
/// which some binary digits stand in reverse order; of that number with the digits in order, the
/// part above the 517th digit is the checksum. The string is accepted exactly if the checksum is
/// the sum of the groups of five digits below it, modulo 32. An accepted string places the 100
/// pickups that spell the part below, and its seed is the sums of bytes of the number as it is
/// written. The number must have more than 40 bytes, and the part below at most 100 pickups.
pub proof fn law_layout_is_read(
    text: Seq<char>,
    values: Seq<int>,
    m: int,
    len: int,
)
    requires
        has_values(text, values),
        is_put_in_order(spelled(values), m, len),
        spelled(values) >= pow(256, 40),
    ensures
        ({
            let n = spelled(values);
            let checksum = m / pow(2, 517);
            let payload = m % pow(2, 517);
            if checksum != sum_of_groups(payload) {
                &&& layout::layout_in_range(text)
                &&& layout::parsed_layout(text) == Err::<(Seq<u8>, Seq<u32>), Seq<char>>(
                    "Pickup layout checksum failed."@,
                )
            } else if payload < pow(36, 100) {
                &&& layout::layout_in_range(text)
                &&& match layout::parsed_layout(text) {
                    Ok((entries, seed)) => {
                        &&& entries.len() == 100
                        &&& forall|i: int| 0 <= i < 100 ==> (#[trigger] entries[i]) < 36
                        &&& spell_pickups(entries) == payload
                        &&& seed.len() == 4
                        &&& seed[0] == sum_of_bytes(n, 0, 17)
                        &&& seed[1] == sum_of_bytes(n, 17, 34)
                        &&& seed[2] == sum_of_bytes(n, 34, 41)
                        &&& seed[3] == sum_of_bytes(n, 41, 66)
                    },
                    Err(_) => false,
                }
            } else {
                !layout::layout_in_range(text)
            }
        }),
{
    lemma_spelled(text, values);
    let n = layout::layout_number(text);
    assert(n == spelled(values));
    lemma_in_order(n, m as nat, len);
    lemma_payload(m as nat);
    let p = layout::layout_payload(n);
    if m / pow(2, 517) == sum_of_groups(m % pow(2, 517)) && m % pow(2, 517) < pow(36, 100) {
        lemma_entries(p);
        lemma_seed(text);
    }
}

/// The parts of a number at the 517th binary digit.
proof fn lemma_payload(m: nat)
    ensures
        pow2(517) == pow(2, 517),
        pow(2, 517) > 0,
        layout::group_sum((m % pow2(517)) as nat) == sum_of_groups(m as int % pow(2, 517)),
{
    lemma_pow2(517);
    lemma_pow_positive(2, 517);
    let p = (m as int % pow(2, 517)) as nat;
    lemma_mod_bound(m as int, pow(2, 517));
    lemma2_to64();
    lemma_pow2(5);
    lemma_pow_multiplies(2, 5, 104);
    lemma_pow_increases(2, 517, 520);
    lemma_groups(p, 104);
}

/// The pickups of a payload spell it.
proof fn lemma_entries(p: nat)
    requires
        p < pow(36, 100),
    ensures
        spell_pickups(layout::layout_entries(p)) == p,
        forall|i: int| 0 <= i < 100 ==> (#[trigger] layout::layout_entries(p)[i]) < 36,
{
    let e = layout::layout_entries(p);
    layout::law_entries_denote_payload(p);
    let r = e.reverse();
    lemma_value_is_sum(r, 36);
    let f = |i: int| r[i] * pow(36, i as nat);
    let g = |i: int| e[99 - i] * pow(36, i as nat);
    assert forall|i: int| 0 <= i < 100 implies #[trigger] f(i) == g(i) by {}
    lemma_sum_same(f, g, 100);
    assert forall|i: int| 0 <= i < 100 implies (#[trigger] e[i]) < 36 by {
        lemma_mod_bound(p as int / pow(36, (99 - i) as nat), 36);
    }
}

/// The seed of a text is the sums of bytes of its number.
proof fn lemma_seed(text: Seq<char>)
    requires
        layout::is_layout_text(text),
        layout::layout_number(text) >= pow(256, 40),
    ensures
        ({
            let n = layout::layout_number(text);
            let seed = layout::layout_seed(n);
            &&& seed.len() == 4
            &&& seed[0] == sum_of_bytes(n as int, 0, 17)
            &&& seed[1] == sum_of_bytes(n as int, 17, 34)
            &&& seed[2] == sum_of_bytes(n as int, 34, 41)
            &&& seed[3] == sum_of_bytes(n as int, 41, 66)
        }),
{
    let n = layout::layout_number(text);
    let bytes = digits::le_digits(n, 256);
    layout::lemma_layout_number_size(text);
    digits::lemma_digit_count(n, 256, 40);
    lemma_bytes(n, 0, 17, 17);
    lemma_bytes(n, 17, 34, 34);
    lemma_bytes(n, 34, 41, 41);
    lemma_bytes(n, 41, bytes.len() as int, 66);
    layout::lemma_byte_sum_bound(bytes.subrange(0, 17));
    layout::lemma_byte_sum_bound(bytes.subrange(17, 34));
    layout::lemma_byte_sum_bound(bytes.subrange(34, 41));
    layout::lemma_byte_sum_bound(bytes.subrange(41, bytes.len() as int));
}

/// Three to the 200th power is less than two to the 317th.
proof fn lemma_powers_of_three_and_two()
    ensures
        pow(3, 200) < pow(2, 317),
{
    lemma_pow1(3);
    lemma_pow_adds(3, 1, 1);
    assert(pow(3, 2) == 9int) by {
        assert(3int * 3int == 9int);
    }
    lemma_pow_adds(3, 2, 2);
    assert(pow(3, 4) == 81int) by {
        assert(9int * 9int == 81int);
    }
    lemma_pow_adds(3, 4, 4);
    assert(pow(3, 8) == 6561int) by {
        assert(81int * 81int == 6561int);
    }
    lemma_pow_adds(3, 8, 8);
    assert(pow(3, 16) == 43046721int) by {
        assert(6561int * 6561int == 43046721int);
    }
    lemma_pow_adds(3, 16, 8);
    assert(pow(3, 24) == 282429536481int) by {
        assert(43046721int * 6561int == 282429536481int);
    }
    lemma_pow_adds(3, 24, 1);
    assert(pow(3, 25) == 847288609443int) by {
        assert(282429536481int * 3int == 847288609443int);
    }
    lemma_pow_adds(3, 25, 25);
    assert(pow(3, 50) == 717897987691852588770249int) by {
        assert(847288609443int * 847288609443int == 717897987691852588770249int);
    }
    lemma_pow_adds(3, 50, 50);
    assert(pow(3, 100) == 515377520732011331036461129765621272702107522001int) by {
        assert(717897987691852588770249int * 717897987691852588770249int == 515377520732011331036461129765621272702107522001int);
    }
    lemma_pow_adds(3, 100, 100);
    assert(pow(3, 200) == 265613988875874769338781322035779626829233452653394495974574961739092490901302182994384699044001int) by {
        assert(515377520732011331036461129765621272702107522001int * 515377520732011331036461129765621272702107522001int == 265613988875874769338781322035779626829233452653394495974574961739092490901302182994384699044001int);
    }
    lemma_pow1(2);
    lemma_pow_adds(2, 1, 1);
    assert(pow(2, 2) == 4int) by {
        assert(2int * 2int == 4int);
    }
    lemma_pow_adds(2, 2, 2);
    assert(pow(2, 4) == 16int) by {
        assert(4int * 4int == 16int);
    }
    lemma_pow_adds(2, 4, 4);
    assert(pow(2, 8) == 256int) by {
        assert(16int * 16int == 256int);
    }
    lemma_pow_adds(2, 8, 8);
    assert(pow(2, 16) == 65536int) by {
        assert(256int * 256int == 65536int);
    }
    lemma_pow_adds(2, 16, 16);
    assert(pow(2, 32) == 4294967296int) by {
        assert(65536int * 65536int == 4294967296int);
    }
    lemma_pow_adds(2, 32, 32);
    assert(pow(2, 64) == 18446744073709551616int) by {
        assert(4294967296int * 4294967296int == 18446744073709551616int);
    }
    lemma_pow_adds(2, 64, 64);
    assert(pow(2, 128) == 340282366920938463463374607431768211456int) by {
        assert(18446744073709551616int * 18446744073709551616int == 340282366920938463463374607431768211456int);
    }
    lemma_pow_adds(2, 128, 128);
    assert(pow(2, 256) == 115792089237316195423570985008687907853269984665640564039457584007913129639936int) by {
        assert(340282366920938463463374607431768211456int * 340282366920938463463374607431768211456int == 115792089237316195423570985008687907853269984665640564039457584007913129639936int);
    }
    lemma_pow_adds(2, 256, 32);
    assert(pow(2, 288) == 497323236409786642155382248146820840100456150797347717440463976893159497012533375533056int) by {
        assert(115792089237316195423570985008687907853269984665640564039457584007913129639936int * 4294967296int == 497323236409786642155382248146820840100456150797347717440463976893159497012533375533056int);
    }
    lemma_pow_adds(2, 288, 16);
    assert(pow(2, 304) == 32592575621351777380295131014550050576823494298654980010178247189670100796213387298934358016int) by {
        assert(497323236409786642155382248146820840100456150797347717440463976893159497012533375533056int * 65536int == 32592575621351777380295131014550050576823494298654980010178247189670100796213387298934358016int);
    }
    lemma_pow_adds(2, 304, 8);
    assert(pow(2, 312) == 8343699359066055009355553539724812947666814540455674882605631280555545803830627148527195652096int) by {
        assert(32592575621351777380295131014550050576823494298654980010178247189670100796213387298934358016int * 256int == 8343699359066055009355553539724812947666814540455674882605631280555545803830627148527195652096int);
    }
    lemma_pow_adds(2, 312, 4);
    assert(pow(2, 316) == 133499189745056880149688856635597007162669032647290798121690100488888732861290034376435130433536int) by {
        assert(8343699359066055009355553539724812947666814540455674882605631280555545803830627148527195652096int * 16int == 133499189745056880149688856635597007162669032647290798121690100488888732861290034376435130433536int);
    }
    lemma_pow_adds(2, 316, 1);
    assert(pow(2, 317) == 266998379490113760299377713271194014325338065294581596243380200977777465722580068752870260867072int) by {
        assert(133499189745056880149688856635597007162669032647290798121690100488888732861290034376435130433536int * 2int == 266998379490113760299377713271194014325338065294581596243380200977777465722580068752870260867072int);
    }
}

/// What 100 pickups can spell lies below the checksum.
proof fn lemma_pickups_fit()
    ensures
        pow(36, 100) < pow(2, 517),
{
    lemma_powers_of_three_and_two();
    lemma_pow_distributes(4, 9, 100);
    lemma_pow_multiplies(2, 2, 100);
    lemma_pow_multiplies(3, 2, 100);
    assert(pow(2, 2) == 4 && pow(3, 2) == 9) by {
        lemma_pow1(2);
        lemma_pow1(3);
        lemma_pow_adds(2, 1, 1);
        lemma_pow_adds(3, 1, 1);
    }
    lemma_pow_adds(2, 200, 317);
    lemma_pow_positive(2, 200);
    lemma_mul_strict_inequality(pow(3, 200), pow(2, 317), pow(2, 200));
    lemma_mul_is_commutative(pow(2, 200), pow(2, 317));
    lemma_mul_is_commutative(pow(2, 200), pow(3, 200));
}

/// The number that pickups spell is that of their numeral.
proof fn lemma_spell(entries: Seq<u8>)
    requires
        entries.len() == 100,
        digits::digits_below(entries, 36),
    ensures
        0 <= spell_pickups(entries) < pow(36, 100),
        layout::layout_entries(spell_pickups(entries) as nat) == entries,
{
    let r = entries.reverse();
    lemma_value_is_sum(r, 36);
    let f = |i: int| r[i] * pow(36, i as nat);
    let g = |i: int| entries[99 - i] * pow(36, i as nat);
    assert forall|i: int| 0 <= i < 100 implies #[trigger] f(i) == g(i) by {}
    lemma_sum_same(f, g, 100);
    assert forall|i: int| 0 <= i < r.len() implies (#[trigger] r[i]) < 36 by {
        assert(entries[99 - i] < 36);
    }
    digits::lemma_value_bound(r, 36);
    let p = spell_pickups(entries) as nat;
    layout::law_entries_denote_payload(p);
    lemma_entries(p);
    let e = layout::layout_entries(p);
    assert forall|i: int| 0 <= i < e.reverse().len() implies (#[trigger] e.reverse()[i]) < 36 by {
        assert(e[99 - i] < 36);
    }
    digits::lemma_value_injective(e.reverse(), r, 36);
    assert(e =~= entries) by {
        assert forall|i: int| 0 <= i < 100 implies e[i] == entries[i] by {
            assert(e.reverse()[99 - i] == r[99 - i]);
        }
    }
}

/// Every list of 100 pickups has a layout string that is accepted and that places just them, where
/// their number with its checksum has more than 320 binary digits.
pub proof fn law_every_list_has_a_string(entries: Seq<u8>) -> (text: Seq<char>)
    requires
        entries.len() == 100,
        forall|i: int| 0 <= i < 100 ==> (#[trigger] entries[i]) < 36,
        sum_of_groups(spell_pickups(entries)) * pow(2, 517) + spell_pickups(entries) >= pow(
            2,
            320,
        ),
    ensures
        text.len() == 87,
        forall|i: int| 0 <= i < 87 ==> alphabet().contains(#[trigger] text[i]),
        layout::layout_in_range(text),
        layout::parsed_layout(text) is Ok,
        (layout::parsed_layout(text)->Ok_0).0 == entries,
{
    let p = spell_pickups(entries);
    lemma_spell(entries);
    lemma_pickups_fit();
    lemma_payload(p as nat);
    lemma_small_mod(p as nat, pow(2, 517) as nat);
    let c = sum_of_groups(p);
    layout::lemma_group_sum_bound(p as nat);
    let m = (c * pow(2, 517) + p) as nat;
    lemma_fundamental_div_mod_converse(m as int, pow(2, 517), c, p);
    lemma_pow_positive(2, 320);
    let n = layout::unscrambled(m);
    layout::law_unscrambled_is_involution(m);
    assert(m < pow(2, 522)) by {
        lemma2_to64();
        lemma_pow2(5);
        lemma_pow_adds(2, 517, 5);
        let w = pow(2, 517);
        assert(c * w + p < 32 * w) by (nonlinear_arith)
            requires
                c <= 31,
                0 <= p < w,
        ;
        lemma_mul_is_commutative(w, 32);
    }
    digits::lemma_digit_count(m, 2, 522);
    digits::lemma_digit_count(m, 2, 320);
    digits::lemma_digit_count(n, 2, 522);
    digits::lemma_digit_count(n, 2, 320);
    lemma2_to64();
    lemma_pow2(6);
    lemma_pow2(8);
    lemma_pow_multiplies(2, 6, 87);
    lemma_pow_multiplies(2, 8, 40);
    let d = Seq::new(87, |j: int| ((n as int / pow(64, j as nat)) % 64) as u8);
    lemma_low_digits(n as int, 87, 64);
    lemma_small_mod(n, pow(64, 87) as nat);
    let text = Seq::new(87, |i: int| alphabet()[d[i] as int]);
    assert forall|i: int| 0 <= i < 87 implies layout::layout_digit(#[trigger] text[i]) == Some(
        d[i],
    ) && alphabet().contains(text[i]) by {
        assert(d[i] < 64);
        lemma_alphabet(d[i] as int);
    }
    assert forall|i: int| 0 <= i < text.len() implies (#[trigger] text[i]) as nat <= 127 by {
        assert(layout::layout_digit(text[i]) is Some);
    }
    assert(layout::layout_digits(text) =~= d);
    assert(layout::layout_number(text) == n);
    assert(layout::layout_payload(n) == p && layout::layout_checksum(n) == c);
    text
}

/// Why a string is rejected before its checksum is looked at: a character that is not ASCII; else
/// another length than 87; else a character outside the alphabet, of which the last is named by
/// its code. A string of 87 characters of the alphabet is rejected for its checksum alone.
pub proof fn law_layout_is_rejected(text: Seq<char>)
    ensures
        (exists|i: int| 0 <= i < text.len() && (#[trigger] text[i]) as int >= 128)
            ==> layout::parsed_layout(text) == Err::<(Seq<u8>, Seq<u32>), Seq<char>>(
            "Pickup layout string contains non-ascii characters."@,
        ),
        (forall|i: int| 0 <= i < text.len() ==> ((#[trigger] text[i]) as int) < 128)
            && text.len() != 87 ==> layout::parsed_layout(text) == Err::<
            (Seq<u8>, Seq<u32>),
            Seq<char>,
        >("Pickup layout should be exactly 87 characters"@),
        forall|i: int|
            #![trigger text[i]]
            (forall|j: int| 0 <= j < text.len() ==> ((#[trigger] text[j]) as int) < 128)
                && text.len() == 87 && 0 <= i < 87 && !alphabet().contains(text[i]) && (forall|
                j: int,
            |
                i < j < 87 ==> alphabet().contains(#[trigger] text[j]))
                ==> layout::parsed_layout(text) == Err::<(Seq<u8>, Seq<u32>), Seq<char>>(
                "Pickup layout contains invalid character '"@ + text::decimal_text(
                    text[i] as nat,
                ) + "'."@,
            ),
        text.len() == 87 && (forall|i: int|
            0 <= i < 87 ==> alphabet().contains(#[trigger] text[i])) ==> match layout::parsed_layout(
            text,
        ) {
            Ok(_) => true,
            Err(message) => message == "Pickup layout checksum failed."@,
        },
{
    assert forall|i: int| 0 <= i < text.len() implies alphabet().contains(#[trigger] text[i]) == (
    layout::layout_digit(text[i]) is Some) by {
        lemma_member(text[i]);
    }
    if exists|i: int| 0 <= i < text.len() && (#[trigger] text[i]) as int >= 128 {
        let i = choose|i: int| 0 <= i < text.len() && (#[trigger] text[i]) as int >= 128;
        assert(text[i] as nat > 127);
        assert(!vstd::utf8::is_ascii_chars(text));
    } else {
        assert forall|i: int| 0 <= i < text.len() implies '\0' <= #[trigger] text[i]
            <= '\u{7f}' by {
            let c = text[i];
            lemma_char_is_natural(c);
            assert(!(text[i] as int >= 128));
        }
        assert(vstd::utf8::is_ascii_chars(text));
    }
    assert forall|i: int|
        #![trigger text[i]]
        text.len() == 87 && 0 <= i < 87 && !alphabet().contains(text[i]) && (forall|j: int|
            i < j < 87 ==> alphabet().contains(#[trigger] text[j])) implies
        !layout::all_layout_chars(text) && layout::last_invalid_char(text) == text[i] by {
        assert forall|j: int| i < j < text.len() implies layout::layout_digit(
            #[trigger] text[j],
        ) is Some by {
            assert(alphabet().contains(text[j]));
        }
        layout::lemma_last_invalid(text, i);
    }
    if text.len() == 87 && (forall|i: int|
        0 <= i < 87 ==> alphabet().contains(#[trigger] text[i])) {
        assert forall|i: int| 0 <= i < text.len() implies layout::layout_digit(
            #[trigger] text[i],
        ) is Some && (text[i] as int) < 128 by {
            assert(alphabet().contains(text[i]));
        }
    }
}

/// No character has a negative code.
proof fn lemma_char_is_natural(c: char)
    ensures
        '\0' <= c,
{
}

/// The alphabet holds exactly the characters with a value.
proof fn lemma_member(c: char)
    ensures
        alphabet().contains(c) == (layout::layout_digit(c) is Some),
{
    lemma_alphabet(0);
    if alphabet().contains(c) {
        let v = choose|v: int| 0 <= v < alphabet().len() && alphabet()[v] == c;
        lemma_alphabet(v);
    }
    if layout::layout_digit(c) is Some {
        lemma_in_alphabet(c);
    }
}

/// The characters with a value are those of the alphabet, and the value of each is its place.
pub proof fn law_characters_have_values(c: char, v: int)
    ensures
        alphabet().len() == 64,
        0 <= v < 64 && alphabet()[v] == c ==> layout::layout_digit(c) == Some(v as u8),
        !alphabet().contains(c) ==> layout::layout_digit(c) is None,
{
    lemma_alphabet(v);
    lemma_member(c);
}

/// The characters of a text of any length spell the sum of their values, each times the power of
/// 64 for its place.
pub proof fn law_number_is_spelled(text: Seq<char>, values: Seq<int>)
    requires
        values.len() == text.len(),
        forall|i: int|
            0 <= i < text.len() ==> 0 <= #[trigger] values[i] < 64 && text[i]
                == alphabet()[values[i]],
    ensures
        layout::all_layout_chars(text),
        layout::layout_number(text) == sum_upto(
            |i: int| values[i] * pow(64, i as nat),
            text.len() as int,
        ),
{
    assert forall|i: int| 0 <= i < text.len() implies layout::layout_digit(#[trigger] text[i])
        == Some(values[i] as u8) by {
        lemma_alphabet(values[i]);
    }
    let d = layout::layout_digits(text);
    lemma_value_is_sum(d, 64);
    let f = |i: int| d[i] * pow(64, i as nat);
    let g = |i: int| values[i] * pow(64, i as nat);
    assert forall|i: int| 0 <= i < text.len() implies #[trigger] f(i) == g(i) by {
        assert(layout::layout_digit(text[i]) == Some(values[i] as u8));
    }
    lemma_sum_same(f, g, text.len() as int);
}

/// The last character of a text that has no value is found.
pub proof fn law_last_invalid_is_found(text: Seq<char>, k: int)
    requires
        0 <= k < text.len(),
        !alphabet().contains(text[k]),
        forall|j: int| k < j < text.len() ==> alphabet().contains(#[trigger] text[j]),
    ensures
        !layout::all_layout_chars(text),
        layout::last_invalid_char(text) == text[k],
{
    lemma_member(text[k]);
    assert forall|j: int| k < j < text.len() implies layout::layout_digit(
        #[trigger] text[j],
    ) is Some by {
        assert(alphabet().contains(text[j]));
        lemma_member(text[j]);
    }
    layout::lemma_last_invalid(text, k);
}

/// The sum of some bytes is that of their values.
pub proof fn law_bytes_are_summed(bytes: Seq<u8>, from: int, to: int)
    requires
        0 <= from <= to <= bytes.len(),
    ensures
        layout::byte_sum(bytes.subrange(from, to)) == sum_upto(
            |i: int| bytes[from + i] as int,
            to - from,
        ),
{
    let part = bytes.subrange(from, to);
    lemma_byte_sum(part);
    lemma_sum_same(|i: int| part[i] as int, |i: int| bytes[from + i] as int, to - from);
}

/// A number of more than 40 and at most 66 bytes has a seed of four words: the sums of its lowest
/// 17 bytes, the next 17, the next seven, and the rest.
pub proof fn law_seed_is_summed(n: nat)
    requires
        pow(256, 40) <= n < pow(256, 66),
    ensures
        layout::layout_seed(n).len() == 4,
        layout::layout_seed(n)[0] == sum_of_bytes(n as int, 0, 17),
        layout::layout_seed(n)[1] == sum_of_bytes(n as int, 17, 34),
        layout::layout_seed(n)[2] == sum_of_bytes(n as int, 34, 41),
        layout::layout_seed(n)[3] == sum_of_bytes(n as int, 41, 66),
{
    let bytes = digits::le_digits(n, 256);
    digits::lemma_digit_count(n, 256, 40);
    digits::lemma_digit_count(n, 256, 66);
    layout::lemma_byte_sum_bound(bytes.subrange(0, 17));
    layout::lemma_byte_sum_bound(bytes.subrange(17, 34));
    layout::lemma_byte_sum_bound(bytes.subrange(34, 41));
    layout::lemma_byte_sum_bound(bytes.subrange(41, bytes.len() as int));
    lemma_bytes(n, 0, 17, 17);
    lemma_bytes(n, 17, 34, 34);
    lemma_bytes(n, 34, 41, 41);
    lemma_bytes(n, 41, bytes.len() as int, 66);
}

/// Of a list of values those at even places stay; those at odd places, of which there are half as
/// many as values, come in reverse order.
pub proof fn law_odd_places_are_reversed(bits: Seq<u8>, i: int)
    ensures
        layout::odd_reversed(bits).len() == bits.len(),
        0 <= 2 * i < bits.len() ==> layout::odd_reversed(bits)[2 * i] == bits[2 * i],
        0 <= i < bits.len() / 2 ==> layout::odd_reversed(bits)[2 * i + 1] == bits[2 * (bits.len()
            / 2 - 1 - i) + 1],
{
}

/// A number is unscrambled by putting its binary digits at odd places, counted from the highest, in
/// reverse order.
pub proof fn law_digits_are_put_in_order(n: nat, m: nat, len: int)
    requires
        is_put_in_order(n as int, m as int, len),
    ensures
        layout::unscrambled(n) == m,
{
    lemma_in_order(n, m, len);
}

/// Every positive number can be put in order.
pub proof fn law_every_number_has_an_order(n: nat) -> (r: (nat, int))
    requires
        n > 0,
    ensures
        is_put_in_order(n as int, r.0 as int, r.1),
        layout::unscrambled(n) == r.0,
{
    let d = digits::le_digits(n, 2);
    let len = d.len() as int;
    digits::lemma_digits_denote(n, 2);
    digits::lemma_digit_count(n, 2, len as nat);
    digits::lemma_digit_count(n, 2, (len - 1) as nat);
    let x = bignum::binary_text_digits(
        layout::odd_reversed(bignum::binary_text(d)),
    );
    assert forall|j: int| 0 <= j < len implies #[trigger] x[j] == d[place_before(len, j)] && x[j]
        < 2 by {
        assert(0 <= place_before(len, j) < len);
        assert(d[place_before(len, j)] < 2);
    }
    assert(digits::digits_below(x, 2));
    digits::lemma_value_bound(x, 2);
    let m = layout::unscrambled(n);
    assert forall|j: int| 0 <= j < len implies #[trigger] binary_digit(m as int, j)
        == binary_digit(n as int, place_before(len, j)) by {
        assert(0 <= place_before(len, j) < len);
        digits::lemma_value_digit(x, j, 2);
        digits::lemma_value_digit(d, place_before(len, j), 2);
    }
    (m, len)
}

/// The checksum of a number is the sum of its groups of five binary digits, modulo 32.
pub proof fn law_groups_are_summed(p: nat, k: nat)
    requires
        p < pow(32, k),
    ensures
        layout::group_sum(p) == sum_upto(|i: int| (p as int / pow(32, i as nat)) % 32, k as int)
            % 32,
{
    lemma_groups(p, k);
}

/// The pickups of a payload that is not too large are 100, each below 36, and spell it.
pub proof fn law_pickups_spell_payload(p: nat)
    requires
        p < pow(36, 100),
    ensures
        layout::layout_entries(p).len() == 100,
        forall|i: int| 0 <= i < 100 ==> (#[trigger] layout::layout_entries(p)[i]) < 36,
        spell_pickups(layout::layout_entries(p)) == p,
{
    lemma_entries(p);
}

/// The strings that are not read: those of the alphabet that spell no more than 40 bytes, and those
/// of too many pickups. Every string that is rejected before its checksum is looked at is read.
pub proof fn law_range_of_layouts(text: Seq<char>, values: Seq<int>)
    ensures
        has_values(text, values) && spelled(values) < pow(256, 40) ==> !layout::layout_in_range(
            text,
        ),
        text.len() != 87 || (exists|i: int|
            0 <= i < text.len() && !alphabet().contains(#[trigger] text[i]))
            ==> layout::layout_in_range(text),
{
    if has_values(text, values) {
        lemma_spelled(text, values);
    }
    if exists|i: int| 0 <= i < text.len() && !alphabet().contains(#[trigger] text[i]) {
        let i = choose|i: int| 0 <= i < text.len() && !alphabet().contains(#[trigger] text[i]);
        lemma_member(text[i]);
    }
}

} // verus!
