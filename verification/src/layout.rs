//! Pickup layout strings: 87 characters that hold the pickup of each location, a checksum, and
//! the seed of the randomness that dresses them up.

use num::BigUint;
use vstd::prelude::*;
use vstd::arithmetic::div_mod::*;
use vstd::arithmetic::mul::*;
use vstd::arithmetic::power::*;
use vstd::arithmetic::power2::*;
use crate::bignum;
use crate::digits;
use crate::text;

verus! {

/// The length of a layout string.
pub const LAYOUT_TEXT_LEN: usize = 87;

/// The number of pickup locations that a layout covers.
pub const LAYOUT_LEN: usize = 100;

/// The number of different pickups that a layout can place.
pub const PICKUP_KINDS: usize = 36;

/// Where the checksum starts in a decoded layout.
pub const CHECKSUM_SHIFT: usize = 517;

/// A letter's place among the digits: alphabetical, but W comes before V.
pub open spec fn letter_rank(k: int) -> int {
    if k == 21 {
        22
    } else if k == 22 {
        21
    } else {
        k
    }
}

/// The value of a layout character: upper-case letters, lower-case letters, decimal digits, `-`
/// and `_`, in that order.
pub open spec fn layout_digit(c: char) -> Option<u8> {
    if 'A' <= c <= 'Z' {
        Some(letter_rank(c as int - 'A' as int) as u8)
    } else if 'a' <= c <= 'z' {
        Some((26 + letter_rank(c as int - 'a' as int)) as u8)
    } else if '0' <= c <= '9' {
        Some((52 + (c as int - '0' as int)) as u8)
    } else if c == '-' {
        Some(62)
    } else if c == '_' {
        Some(63)
    } else {
        None
    }
}

/// Every character has a value.
pub open spec fn all_layout_chars(text: Seq<char>) -> bool {
    forall|i: int| 0 <= i < text.len() ==> layout_digit(#[trigger] text[i]) is Some
}

/// The last character without a value.
pub open spec fn last_invalid_char(text: Seq<char>) -> char
    decreases text.len(),
{
    if text.len() == 0 || layout_digit(text.last()) is None {
        text.last()
    } else {
        last_invalid_char(text.drop_last())
    }
}

/// The values of the characters.
pub open spec fn layout_digits(text: Seq<char>) -> Seq<u8> {
    text.map_values(|c: char| layout_digit(c)->0)
}

/// The number that the text spells in base 64, its first character least significant.
pub open spec fn layout_number(text: Seq<char>) -> nat {
    digits::le_value(layout_digits(text), 64)
}

/// The sum of bytes.
pub open spec fn byte_sum(bytes: Seq<u8>) -> nat
    decreases bytes.len(),
{
    if bytes.len() == 0 {
        0
    } else {
        byte_sum(bytes.drop_last()) + bytes.last() as nat
    }
}

/// The seed in a layout number: the sums of its bytes 0 to 16, 17 to 33, 34 to 40, and from 41.
pub open spec fn layout_seed(n: nat) -> Seq<u32> {
    let bytes = digits::le_digits(n, 256);
    seq![
        byte_sum(bytes.subrange(0, 17)) as u32,
        byte_sum(bytes.subrange(17, 34)) as u32,
        byte_sum(bytes.subrange(34, 41)) as u32,
        byte_sum(bytes.subrange(41, bytes.len() as int)) as u32,
    ]
}

/// The digits with those at odd positions in reverse order.
pub open spec fn odd_reversed(bits: Seq<u8>) -> Seq<u8> {
    Seq::new(
        bits.len(),
        |j: int|
            if j % 2 == 1 {
                bits[bits.len() - bits.len() % 2 - j]
            } else {
                bits[j]
            },
    )
}

/// A number with every second binary digit, counted from the top, in reverse order.
pub open spec fn unscrambled(n: nat) -> nat {
    digits::le_value(
        bignum::binary_text_digits(odd_reversed(bignum::binary_text(digits::le_digits(n, 2)))),
        2,
    )
}

/// The part of a layout number that holds the pickups.
pub open spec fn layout_payload(n: nat) -> nat {
    unscrambled(n) % pow2(CHECKSUM_SHIFT as nat)
}

/// The checksum that a layout number carries.
pub open spec fn layout_checksum(n: nat) -> nat {
    unscrambled(n) / pow2(CHECKSUM_SHIFT as nat)
}

/// The sum of the groups of five binary digits, modulo 32.
pub open spec fn group_sum(n: nat) -> nat
    decreases n,
{
    if n == 0 {
        0
    } else {
        (n % 32 + group_sum(n / 32)) % 32
    }
}

/// The pickups of a payload: its digits in base 36, most significant first.
pub open spec fn layout_entries(payload: nat) -> Seq<u8> {
    Seq::new(
        LAYOUT_LEN as nat,
        |i: int|
            ((payload as int / pow(PICKUP_KINDS as int, (LAYOUT_LEN - 1 - i) as nat))
                % PICKUP_KINDS as int) as u8,
    )
}

/// ASCII text of the right length, made of layout characters.
pub open spec fn is_layout_text(text: Seq<char>) -> bool {
    &&& vstd::utf8::is_ascii_chars(text)
    &&& text.len() == LAYOUT_TEXT_LEN
    &&& all_layout_chars(text)
}

/// The checksum of a layout number agrees with its payload.
pub open spec fn checksum_agrees(n: nat) -> bool {
    layout_checksum(n) == group_sum(layout_payload(n))
}

/// The numbers that parsing covers: a layout text has to spell more than forty bytes, and a
/// payload whose checksum agrees has to fit the entries of a layout.
pub open spec fn layout_in_range(text: Seq<char>) -> bool {
    is_layout_text(text) ==> {
        &&& layout_number(text) >= pow(256, 40)
        &&& checksum_agrees(layout_number(text)) ==> layout_payload(layout_number(text)) < pow(
            PICKUP_KINDS as int,
            LAYOUT_LEN as nat,
        )
    }
}

/// What parsing a layout gives: the pickups and the seed, or a message.
pub open spec fn parsed_layout(text: Seq<char>) -> Result<(Seq<u8>, Seq<u32>), Seq<char>> {
    if !vstd::utf8::is_ascii_chars(text) {
        Err("Pickup layout string contains non-ascii characters."@)
    } else if text.len() != LAYOUT_TEXT_LEN {
        Err("Pickup layout should be exactly 87 characters"@)
    } else if !all_layout_chars(text) {
        Err(
            "Pickup layout contains invalid character '"@ + text::decimal_text(
                last_invalid_char(text) as nat,
            ) + "'."@,
        )
    } else if !checksum_agrees(layout_number(text)) {
        Err("Pickup layout checksum failed."@)
    } else {
        Ok((layout_entries(layout_payload(layout_number(text))), layout_seed(layout_number(text))))
    }
}

/// A result of parsing holds what [`parsed_layout`] says.
pub open spec fn is_parsed(r: Result<(Vec<u8>, [u32; 4]), String>, text: Seq<char>) -> bool {
    match r {
        Ok(parsed) => parsed_layout(text) == Ok::<(Seq<u8>, Seq<u32>), Seq<char>>(
            (parsed.0@, parsed.1@),
        ),
        Err(message) => parsed_layout(text) == Err::<(Seq<u8>, Seq<u32>), Seq<char>>(message@),
    }
}

/// The value of a character, if it is a layout character.
pub fn layout_char_value(c: char) -> (r: Option<u8>)
    ensures
        r == layout_digit(c),
{
    let code = c as u32;
    if 65 <= code && code <= 90 {
        let k = (code - 65) as u8;
        Some(if k == 21 { 22 } else if k == 22 { 21 } else { k })
    } else if 97 <= code && code <= 122 {
        let k = (code - 97) as u8;
        Some(if k == 21 { 48 } else if k == 22 { 47 } else { 26 + k })
    } else if 48 <= code && code <= 57 {
        Some((52 + (code - 48)) as u8)
    } else if c == '-' {
        Some(62)
    } else if c == '_' {
        Some(63)
    } else {
        None
    }
}

/// The last invalid character of a text that ends in valid ones.
pub proof fn lemma_last_invalid(text: Seq<char>, at: int)
    requires
        0 <= at < text.len(),
        layout_digit(text[at]) is None,
        forall|j: int| at < j < text.len() ==> layout_digit(#[trigger] text[j]) is Some,
    ensures
        last_invalid_char(text) == text[at],
    decreases text.len(),
{
    if at < text.len() - 1 {
        lemma_last_invalid(text.drop_last(), at);
    }
}

/// Reads a text as a number in base 64, from its last character to its first.
pub fn read_layout_number(text: &Vec<char>) -> (r: Result<BigUint, char>)
    ensures
        r is Ok <==> all_layout_chars(text@),
        r is Ok ==> bignum::number(r->Ok_0) == layout_number(text@),
        r is Err ==> r->Err_0 == last_invalid_char(text@),
{
    let mut sum = bignum::big_from(0);
    let mut i = text.len();
    let ghost values = layout_digits(text@);
    assert(values.skip(i as int) =~= Seq::empty());
    while i > 0
        invariant
            i <= text.len(),
            values == layout_digits(text@),
            forall|j: int| i <= j < text.len() ==> layout_digit(#[trigger] text@[j]) is Some,
            bignum::number(sum) == digits::le_value(values.skip(i as int), 64),
        decreases i,
    {
        i = i - 1;
        let c = text[i];
        match layout_char_value(c) {
            Some(value) => {
                assert(values.skip(i as int).drop_first() =~= values.skip(i + 1));
                sum = bignum::big_sum(
                    bignum::big_product(sum, bignum::big_from(64)),
                    bignum::big_from(value as usize),
                );
            },
            None => {
                proof {
                    lemma_last_invalid(text@, i as int);
                }
                return Err(c);
            },
        }
    }
    assert(values.skip(0) =~= values);
    Ok(sum)
}

/// The bytes of a range sum to at most 255 each.
pub proof fn lemma_byte_sum_bound(bytes: Seq<u8>)
    ensures
        byte_sum(bytes) <= 255 * bytes.len(),
    decreases bytes.len(),
{
    if bytes.len() > 0 {
        lemma_byte_sum_bound(bytes.drop_last());
    }
}

/// Adds up the bytes of a range, modulo the size of the seed's words.
pub fn sum_bytes(bytes: &Vec<u8>, from: usize, to: usize) -> (r: u32)
    requires
        from <= to <= bytes.len(),
    ensures
        r == byte_sum(bytes@.subrange(from as int, to as int)) % 0x1_0000_0000,
{
    let mut sum: u32 = 0;
    let mut i = from;
    assert(bytes@.subrange(from as int, from as int) =~= Seq::empty());
    while i < to
        invariant
            from <= i <= to <= bytes.len(),
            sum == byte_sum(bytes@.subrange(from as int, i as int)) % 0x1_0000_0000,
        decreases to - i,
    {
        assert(bytes@.subrange(from as int, i + 1).drop_last() =~= bytes@.subrange(
            from as int,
            i as int,
        ));
        sum = sum.wrapping_add(bytes[i] as u32);
        i = i + 1;
    }
    sum
}

/// A layout number has at most 66 bytes and 522 binary digits.
pub proof fn lemma_layout_number_size(text: Seq<char>)
    requires
        is_layout_text(text),
    ensures
        layout_number(text) < pow(2, 522),
        digits::le_digits(layout_number(text), 2).len() <= 522,
        digits::le_digits(layout_number(text), 256).len() <= 66,
{
    let values = layout_digits(text);
    assert forall|i: int| 0 <= i < values.len() implies (#[trigger] values[i]) < 64 by {
        assert(layout_digit(text[i]) is Some);
    }
    digits::lemma_value_bound(values, 64);
    lemma_pow_multiplies(2, 6, 87);
    assert(pow(2, 6) == 64) by {
        lemma2_to64();
        lemma_pow2(6);
    }
    digits::lemma_digit_count(layout_number(text), 2, 522);
    lemma_pow_multiplies(2, 8, 66);
    assert(pow(2, 8) == 256) by {
        lemma2_to64();
        lemma_pow2(8);
    }
    lemma_pow_increases(2, 522, 528);
    digits::lemma_digit_count(layout_number(text), 256, 66);
}

/// The seed of a layout number, if the number has more than forty bytes.
pub fn read_layout_seed(n: &BigUint) -> (r: Option<[u32; 4]>)
    requires
        digits::le_digits(bignum::number(*n), 256).len() <= 66,
    ensures
        r is Some <==> bignum::number(*n) >= pow(256, 40),
        r is Some ==> (r->0)@ == layout_seed(bignum::number(*n)),
{
    let bytes = bignum::big_to_bytes_le(n);
    proof {
        digits::lemma_digit_count(bignum::number(*n), 256, 40);
        lemma_pow_positive(256, 40);
        assert(digits::le_digits(0, 256).len() == 0);
    }
    if bytes.len() <= 40 {
        return None;
    }
    proof {
        lemma_byte_sum_bound(bytes@.subrange(0, 17));
        lemma_byte_sum_bound(bytes@.subrange(17, 34));
        lemma_byte_sum_bound(bytes@.subrange(34, 41));
        lemma_byte_sum_bound(bytes@.subrange(41, bytes@.len() as int));
    }
    let seed = [
        sum_bytes(&bytes, 0, 17),
        sum_bytes(&bytes, 17, 34),
        sum_bytes(&bytes, 34, 41),
        sum_bytes(&bytes, 41, bytes.len()),
    ];
    assert(seed@ =~= layout_seed(bignum::number(*n)));
    Some(seed)
}

/// The digits after the outermost `i` pairs of odd positions have changed places.
spec fn odd_partly_reversed(bits: Seq<u8>, i: int) -> Seq<u8> {
    let len = bits.len() - bits.len() % 2;
    Seq::new(
        bits.len(),
        |j: int|
            if j % 2 == 1 && (j < 2 * i + 1 || j > len - 2 * i - 1) {
                bits[len - j]
            } else {
                bits[j]
            },
    )
}

/// One more pair changes places.
proof fn lemma_odd_reverse_step(bits: Seq<u8>, i: int)
    requires
        0 <= i < bits.len() as int / 4,
    ensures
        ({
            let len = bits.len() - bits.len() % 2;
            let now = odd_partly_reversed(bits, i);
            odd_partly_reversed(bits, i + 1) == now.update(2 * i + 1, now[len - 2 * i - 1]).update(
                len - 2 * i - 1,
                now[2 * i + 1],
            )
        }),
{
    let len = bits.len() - bits.len() % 2;
    let now = odd_partly_reversed(bits, i);
    let next = now.update(2 * i + 1, now[len - 2 * i - 1]).update(len - 2 * i - 1, now[2 * i + 1]);
    assert(now[2 * i + 1] == bits[2 * i + 1]);
    assert(now[len - 2 * i - 1] == bits[len - 2 * i - 1]);
    assert forall|j: int| 0 <= j < bits.len() implies odd_partly_reversed(bits, i + 1)[j]
        == next[j] by {
        if j != 2 * i + 1 && j != len - 2 * i - 1 {
            assert(next[j] == now[j]);
        }
    }
    assert(odd_partly_reversed(bits, i + 1) =~= next);
}

/// A quarter of the length is enough.
proof fn lemma_odd_reverse_done(bits: Seq<u8>)
    ensures
        odd_partly_reversed(bits, bits.len() as int / 4) == odd_reversed(bits),
{
    let i = bits.len() as int / 4;
    let len = bits.len() - bits.len() % 2;
    assert forall|j: int| 0 <= j < bits.len() implies odd_partly_reversed(bits, i)[j]
        == odd_reversed(bits)[j] by {
        if j % 2 == 1 && 2 * i + 1 <= j <= len - 2 * i - 1 {
            assert(len - j == j);
        }
    }
    assert(odd_partly_reversed(bits, i) =~= odd_reversed(bits));
}

/// Puts the digits at odd positions in reverse order.
pub fn reverse_odd(bits: &mut Vec<u8>)
    ensures
        final(bits)@ == odd_reversed(old(bits)@),
{
    let ghost original = bits@;
    let total = bits.len();
    let len = total - total % 2;
    let mut i: usize = 0;
    assert(bits@ =~= odd_partly_reversed(original, 0));
    while i < total / 4
        invariant
            total == bits.len(),
            total == original.len(),
            len == total - total % 2,
            i <= total / 4,
            bits@ == odd_partly_reversed(original, i as int),
        decreases total / 4 - i,
    {
        proof {
            lemma_odd_reverse_step(original, i as int);
        }
        let a = i * 2 + 1;
        let b = len - i * 2 - 1;
        let low = bits[a];
        let high = bits[b];
        bits.set(a, high);
        bits.set(b, low);
        i = i + 1;
    }
    proof {
        lemma_odd_reverse_done(original);
    }
}

/// Puts every second binary digit of a positive number, counted from the top, in reverse order.
pub fn unscramble(n: &BigUint) -> (r: BigUint)
    requires
        bignum::number(*n) > 0,
    ensures
        bignum::number(r) == unscrambled(bignum::number(*n)),
{
    let mut bits = bignum::big_to_binary(n);
    proof {
        lemma_binary_text(bignum::number(*n));
        lemma_odd_reversed_binary(bits@);
    }
    reverse_odd(&mut bits);
    bignum::big_parse_binary(&bits).unwrap()
}

/// The binary text of a positive number is binary text.
pub proof fn lemma_binary_text(n: nat)
    requires
        n > 0,
    ensures
        bignum::is_binary_text(bignum::binary_text(digits::le_digits(n, 2))),
{
    digits::lemma_digits_denote(n, 2);
    let d = digits::le_digits(n, 2);
    let t = bignum::binary_text(d);
    assert forall|i: int| 0 <= i < t.len() implies (#[trigger] t[i] == 48 || t[i] == 49) by {
        assert(d[d.len() - 1 - i] < 2);
    }
}

/// Binary text stays binary text.
proof fn lemma_odd_reversed_binary(bits: Seq<u8>)
    requires
        bignum::is_binary_text(bits),
    ensures
        bignum::is_binary_text(odd_reversed(bits)),
{
    let r = odd_reversed(bits);
    assert forall|i: int| 0 <= i < r.len() implies (#[trigger] r[i] == 48 || r[i] == 49) by {
        let j = if i % 2 == 1 {
            bits.len() - bits.len() % 2 - i
        } else {
            i
        };
        assert(r[i] == bits[j]);
        assert(bits[j] == 48 || bits[j] == 49);
    }
}

/// Reversing digits keeps a number below the same power of two.
proof fn lemma_unscrambled_bound(n: nat, k: nat)
    requires
        n > 0,
        digits::le_digits(n, 2).len() <= k,
    ensures
        unscrambled(n) < pow(2, k),
{
    let bits = bignum::binary_text(digits::le_digits(n, 2));
    lemma_binary_text(n);
    lemma_odd_reversed_binary(bits);
    let text = odd_reversed(bits);
    let d = bignum::binary_text_digits(text);
    assert forall|i: int| 0 <= i < d.len() implies (#[trigger] d[i]) < 2 by {
        assert(text[text.len() - 1 - i] == 48 || text[text.len() - 1 - i] == 49);
    }
    digits::lemma_value_bound(d, 2);
    lemma_pow_increases(2, d.len(), k);
}

/// Parts a decoded number of at most 522 binary digits into payload and checksum.
pub fn split_checksum(sum: BigUint) -> (r: (BigUint, u8))
    requires
        bignum::number(sum) < pow(2, 522),
    ensures
        bignum::number(r.0) == bignum::number(sum) % pow2(CHECKSUM_SHIFT as nat),
        r.1 == bignum::number(sum) / pow2(CHECKSUM_SHIFT as nat),
{
    let ghost u = bignum::number(sum);
    let ghost p = pow2(CHECKSUM_SHIFT as nat);
    proof {
        lemma_pow2_pos(517);
        lemma_pow2_adds(5, 517);
        lemma_pow2(522);
        lemma2_to64();
        assert(u < 32 * p);
        assert(u / p < 32) by {
            lemma_multiply_divide_lt(u as int, p as int, 32);
        }
        lemma_and_low_five(u / p);
        bignum::lemma_and_shifted(u, 31, 517);
        lemma_fundamental_div_mod(u as int, p as int);
        lemma_mul_is_commutative(p as int, (u / p) as int);
        lemma_mod_bound(u as int, p as int);
    }
    let mask = bignum::big_shift_left(bignum::big_from(0b11111), CHECKSUM_SHIFT);
    let checksum = bignum::big_and(bignum::big_clone(&sum), mask);
    assert(bignum::number(checksum) == (u / p) * p);
    let payload = bignum::big_difference(sum, bignum::big_clone(&checksum));
    proof {
        lemma_div_by_multiple((u / p) as int, p as int);
    }
    let checksum = bignum::big_to_u8(&bignum::big_shift_right(checksum, CHECKSUM_SHIFT)).unwrap();
    (payload, checksum)
}

/// Masking with five ones takes the last five binary digits.
proof fn lemma_and_low_five(n: nat)
    ensures
        bignum::bit_and(n, 31) == n % 32,
{
    lemma2_to64();
    bignum::lemma_and_low_ones(n, 5);
}

/// The checksum of a payload.
pub fn compute_checksum(payload: &BigUint) -> (r: u8)
    ensures
        r == group_sum(bignum::number(*payload)),
{
    let mut computed: u8 = 0;
    let mut sum = bignum::big_clone(payload);
    let zero = bignum::big_from(0);
    while bignum::big_greater(&sum, &zero)
        invariant
            bignum::number(zero) == 0,
            computed < 32,
            (computed + group_sum(bignum::number(sum))) % 32 == group_sum(
                bignum::number(*payload),
            ),
        decreases bignum::number(sum),
    {
        let ghost n = bignum::number(sum);
        proof {
            lemma_and_low_five(n);
            lemma2_to64();
            lemma_add_mod_noop_right(computed as int, (n % 32 + group_sum(n / 32)) as int, 32);
            lemma_add_mod_noop(
                (computed + n % 32) as int,
                group_sum(n / 32) as int,
                32,
            );
            lemma_add_mod_noop_right(
                ((computed + n % 32) % 32) as int,
                group_sum(n / 32) as int,
                32,
            );
        }
        let group = bignum::big_and(bignum::big_clone(&sum), bignum::big_from(0b11111));
        let remainder = bignum::big_to_u8(&group).unwrap();
        computed = (computed + remainder) % 32;
        sum = bignum::big_shift_right(sum, 5);
    }
    proof {
        lemma_group_sum_bound(bignum::number(*payload));
    }
    computed
}

pub proof fn lemma_group_sum_bound(n: nat)
    ensures
        group_sum(n) < 32,
{
}

/// The pickups of a payload, if it has no more digits than a layout has entries.
pub fn read_layout_entries(payload: BigUint) -> (r: Option<Vec<u8>>)
    ensures
        r is Some <==> bignum::number(payload) < pow(PICKUP_KINDS as int, LAYOUT_LEN as nat),
        r is Some ==> (r->0)@ == layout_entries(bignum::number(payload)),
{
    let ghost p = bignum::number(payload) as int;
    let base = bignum::big_from(PICKUP_KINDS);
    let mut res: Vec<u8> = Vec::new();
    let mut sum = payload;
    proof {
        lemma_pow0(36);
        lemma_div_basics(p);
    }
    for i in 0..LAYOUT_LEN
        invariant
            res.len() == i,
            p >= 0,
            bignum::number(base) == 36,
            bignum::number(sum) == p / pow(36, i as nat),
            forall|j: int|
                0 <= j < i ==> #[trigger] res@[j] == (p / pow(36, j as nat)) % 36,
    {
        let (quotient, remainder) = bignum::big_div_rem(&sum, &base);
        res.push(bignum::big_to_u8(&remainder).unwrap());
        proof {
            lemma_pow_positive(36, i as nat);
            lemma_div_denominator(p, pow(36, i as nat), 36);
            lemma_pow_adds(36, i as nat, 1);
            lemma_pow1(36);
        }
        sum = quotient;
    }
    let rest_is_zero = bignum::big_equal(&sum, &bignum::big_from(0));
    proof {
        let q = pow(36, 100);
        lemma_pow_positive(36, 100);
        lemma_fundamental_div_mod(p, q);
        lemma_mod_bound(p, q);
        if p < q {
            lemma_basic_div(p, q);
        } else {
            lemma_div_non_zero(p, q);
        }
    }
    if !rest_is_zero {
        return None;
    }
    reverse_entries(&mut res);
    assert(res@ =~= layout_entries(p as nat));
    Some(res)
}

/// Puts the entries in reverse order.
fn reverse_entries(entries: &mut Vec<u8>)
    ensures
        final(entries)@ == old(entries)@.reverse(),
{
    let ghost original = entries@;
    let total = entries.len();
    for i in 0..total / 2
        invariant
            total == entries.len(),
            total == original.len(),
            forall|j: int|
                0 <= j < total ==> #[trigger] entries@[j] == (if j < i || j >= total - i {
                    original[total - 1 - j]
                } else {
                    original[j]
                }),
    {
        let low = entries[i];
        let high = entries[total - 1 - i];
        entries.set(i, high);
        entries.set(total - 1 - i, low);
    }
    assert(entries@ =~= original.reverse());
}

/// Parses a layout string; `None` for the texts that parsing does not cover.
pub fn checked_parse_pickup_layout(text: &str) -> (r: Option<Result<(Vec<u8>, [u32; 4]), String>>)
    ensures
        r is Some <==> layout_in_range(text@),
        r is Some ==> is_parsed(r->0, text@),
{
    if !text.is_ascii() {
        return Some(Err("Pickup layout string contains non-ascii characters.".to_owned()));
    }
    let chars = text::chars_of(text);
    if chars.len() != LAYOUT_TEXT_LEN {
        return Some(Err("Pickup layout should be exactly 87 characters".to_owned()));
    }
    let sum = match read_layout_number(&chars) {
        Ok(sum) => sum,
        Err(c) => {
            let mut message = "Pickup layout contains invalid character '".to_owned();
            let shown = text::decimal(c as u32 as u64);
            message.append(shown.as_str());
            message.append("'.");
            return Some(Err(message));
        },
    };
    proof {
        lemma_layout_number_size(text@);
    }
    let seed = match read_layout_seed(&sum) {
        Some(seed) => seed,
        None => {
            return None;
        },
    };
    proof {
        lemma_pow_positive(256, 40);
        lemma_unscrambled_bound(bignum::number(sum), 522);
    }
    let (payload, checksum) = split_checksum(unscramble(&sum));
    if checksum != compute_checksum(&payload) {
        return Some(Err("Pickup layout checksum failed.".to_owned()));
    }
    match read_layout_entries(payload) {
        Some(entries) => Some(Ok((entries, seed))),
        None => None,
    }
}

/// Parses a layout string into the pickup of each location and a seed.
pub fn parse_pickup_layout(text: &str) -> (r: Result<(Vec<u8>, [u32; 4]), String>)
    requires
        layout_in_range(text@),
    ensures
        is_parsed(r, text@),
        r is Ok ==> (r->Ok_0).0@.len() == LAYOUT_LEN,
        r is Ok ==> digits::digits_below((r->Ok_0).0@, PICKUP_KINDS as nat),
        r is Ok ==> (r->Ok_0).1@ != seq![0u32, 0, 0, 0],
{
    proof {
        if parsed_layout(text@) is Ok {
            law_accepted_layout(text@);
        }
    }
    checked_parse_pickup_layout(text).unwrap()
}

/// An accepted layout places one of 36 pickups at each of 100 locations, and its seed is not all
/// zero.
pub proof fn law_accepted_layout(text: Seq<char>)
    requires
        layout_in_range(text),
        parsed_layout(text) is Ok,
    ensures
        (parsed_layout(text)->Ok_0).0.len() == LAYOUT_LEN,
        digits::digits_below((parsed_layout(text)->Ok_0).0, PICKUP_KINDS as nat),
        (parsed_layout(text)->Ok_0).1 != seq![0u32, 0, 0, 0],
{
    let n = layout_number(text);
    let bytes = digits::le_digits(n, 256);
    lemma_layout_number_size(text);
    lemma_pow_positive(256, 40);
    digits::lemma_digits_denote(n, 256);
    digits::lemma_digit_count(n, 256, 40);
    let middle = bytes.subrange(34, 41);
    let high = bytes.subrange(41, bytes.len() as int);
    lemma_byte_sum_bound(middle);
    lemma_byte_sum_bound(high);
    let seed = layout_seed(n);
    let zero = seq![0u32, 0, 0, 0];
    assert(seed[2] == byte_sum(middle) && seed[3] == byte_sum(high));
    if bytes.len() == 41 {
        assert(middle.last() == bytes.last());
        assert(seed[2] != zero[2]);
    } else {
        assert(high.last() == bytes.last());
        assert(seed[3] != zero[3]);
    }
}

/// Reversing the odd positions twice gives the digits back.
pub proof fn law_odd_reversed_is_involution(bits: Seq<u8>)
    ensures
        odd_reversed(odd_reversed(bits)) == bits,
{
    assert(odd_reversed(odd_reversed(bits)) =~= bits);
}

/// Unscrambling keeps a positive number's count of binary digits, and twice gives it back.
pub proof fn law_unscrambled_is_involution(n: nat)
    requires
        n > 0,
    ensures
        digits::le_digits(unscrambled(n), 2).len() == digits::le_digits(n, 2).len(),
        unscrambled(unscrambled(n)) == n,
{
    let d = digits::le_digits(n, 2);
    digits::lemma_digits_denote(n, 2);
    let t = bignum::binary_text(d);
    lemma_binary_text(n);
    let r = odd_reversed(t);
    lemma_odd_reversed_binary(t);
    let e = bignum::binary_text_digits(r);
    assert forall|i: int| 0 <= i < e.len() implies (#[trigger] e[i]) < 2 by {
        assert(r[r.len() - 1 - i] == 48 || r[r.len() - 1 - i] == 49);
    }
    assert(e.last() == d.last()) by {
        assert(r[0] == t[0]);
        assert(d[d.len() - 1] < 2);
    }
    digits::lemma_digits_of_value(e, 2);
    assert(digits::le_digits(unscrambled(n), 2) == e);
    assert(bignum::binary_text(e) =~= r) by {
        assert forall|i: int| 0 <= i < r.len() implies bignum::binary_text(e)[i] == r[i] by {
            assert(r[i] == 48 || r[i] == 49);
        }
    }
    law_odd_reversed_is_involution(t);
    assert(bignum::binary_text_digits(t) =~= d) by {
        assert forall|i: int| 0 <= i < d.len() implies bignum::binary_text_digits(t)[i] == d[i] by {
            assert(d[i] < 2);
        }
    }
}

/// The first digits of a number, least significant first, denote its remainder.
proof fn lemma_low_digits(p: int, k: nat)
    requires
        p >= 0,
    ensures
        digits::le_value(
            Seq::new(k, |j: int| ((p / pow(36, j as nat)) % 36) as u8),
            36,
        ) == p % pow(36, k),
    decreases k,
{
    let d = Seq::new(k, |j: int| ((p / pow(36, j as nat)) % 36) as u8);
    if k == 0 {
        lemma_pow0(36);
    } else {
        let m = (k - 1) as nat;
        let low = Seq::new(m, |j: int| ((p / pow(36, j as nat)) % 36) as u8);
        let top = ((p / pow(36, m)) % 36) as u8;
        assert(d =~= low.push(top));
        lemma_low_digits(p, m);
        digits::lemma_value_push(low, top, 36);
        lemma_pow_positive(36, m);
        lemma_mod_breakdown(p, pow(36, m), 36);
        lemma_pow_adds(36, m, 1);
        lemma_pow1(36);
        lemma_mul_is_commutative(top as int, pow(36, m));
    }
}

/// The entries of a layout, read as a numeral in base 36, denote its payload.
pub proof fn law_entries_denote_payload(payload: nat)
    requires
        payload < pow(PICKUP_KINDS as int, LAYOUT_LEN as nat),
    ensures
        digits::le_value(layout_entries(payload).reverse(), PICKUP_KINDS as nat) == payload,
{
    let p = payload as int;
    lemma_low_digits(p, 100);
    assert(layout_entries(payload).reverse() =~= Seq::new(
        100,
        |j: int| ((p / pow(36, j as nat)) % 36) as u8,
    ));
    lemma_small_mod(payload, pow(36, 100) as nat);
}

/// No two accepted layout strings place the same pickups.
pub proof fn law_layout_determines_text(a: Seq<char>, b: Seq<char>)
    requires
        layout_in_range(a),
        layout_in_range(b),
        parsed_layout(a) is Ok,
        parsed_layout(b) is Ok,
        (parsed_layout(a)->Ok_0).0 == (parsed_layout(b)->Ok_0).0,
    ensures
        a == b,
{
    let m = layout_number(a);
    let n = layout_number(b);
    law_entries_denote_payload(layout_payload(m));
    law_entries_denote_payload(layout_payload(n));
    assert(layout_payload(m) == layout_payload(n));
    lemma_pow2_pos(517);
    lemma_fundamental_div_mod(unscrambled(m) as int, pow2(517) as int);
    lemma_fundamental_div_mod(unscrambled(n) as int, pow2(517) as int);
    assert(unscrambled(m) == unscrambled(n));
    lemma_pow_positive(256, 40);
    law_unscrambled_is_involution(m);
    law_unscrambled_is_involution(n);
    let da = layout_digits(a);
    let db = layout_digits(b);
    assert forall|i: int| 0 <= i < da.len() implies (#[trigger] da[i]) < 64 by {
        assert(layout_digit(a[i]) is Some);
    }
    assert forall|i: int| 0 <= i < db.len() implies (#[trigger] db[i]) < 64 by {
        assert(layout_digit(b[i]) is Some);
    }
    digits::lemma_value_injective(da, db, 64);
    assert forall|i: int| 0 <= i < a.len() implies a[i] == b[i] by {
        assert(da[i] == db[i]);
        assert(layout_digit(a[i]) is Some);
        assert(layout_digit(b[i]) is Some);
        assert(layout_digit(a[i])->0 == layout_digit(b[i])->0);
    }
    assert(a =~= b);
}

/// A binary digit below a larger power of two is that of the remainder by it.
proof fn lemma_bit_of_remainder(sum: int, bit: int, e: int)
    requires
        sum >= 0,
        bit > 0,
        e > 0,
    ensures
        (sum / bit) % 2 == ((sum % (2 * e * bit)) / bit) % 2,
{
    let p = 2 * e * bit;
    assert(p > 0) by (nonlinear_arith)
        requires
            p == 2 * e * bit,
            bit > 0,
            e > 0,
    ;
    let q = sum / p;
    let r = sum % p;
    lemma_fundamental_div_mod(sum, p);
    lemma_mod_bound(sum, p);
    let w = r / bit;
    lemma_fundamental_div_mod(r, bit);
    lemma_mod_bound(r, bit);
    let wide = 2 * (e * q) + w;
    assert(sum == wide * bit + r % bit) by (nonlinear_arith)
        requires
            sum == p * q + r,
            p == 2 * e * bit,
            r == bit * w + r % bit,
            wide == 2 * (e * q) + w,
    ;
    lemma_fundamental_div_mod_converse(sum, bit, wide, r % bit);
}

/// Setting a binary digit below a larger power of two carries nothing over it.
proof fn lemma_bit_fits(sum: int, bit: int, e: int)
    requires
        sum >= 0,
        bit > 0,
        e > 0,
        (sum / bit) % 2 == 0,
    ensures
        (sum + bit) / (2 * e * bit) == sum / (2 * e * bit),
        (sum + bit) % (2 * e * bit) == sum % (2 * e * bit) + bit,
{
    let p = 2 * e * bit;
    assert(p > 0) by (nonlinear_arith)
        requires
            p == 2 * e * bit,
            bit > 0,
            e > 0,
    ;
    lemma_bit_of_remainder(sum, bit, e);
    let q = sum / p;
    let r = sum % p;
    lemma_fundamental_div_mod(sum, p);
    lemma_mod_bound(sum, p);
    let w = r / bit;
    lemma_fundamental_div_mod(r, bit);
    lemma_mod_bound(r, bit);
    assert(w < 2 * e) by (nonlinear_arith)
        requires
            r == bit * w + r % bit,
            0 <= r % bit,
            r < 2 * e * bit,
            bit > 0,
    ;
    assert(w + 2 <= 2 * e);
    assert(r + bit < 2 * e * bit) by (nonlinear_arith)
        requires
            r == bit * w + r % bit,
            r % bit < bit,
            w + 2 <= 2 * e,
            bit > 0,
    ;
    assert(sum + bit == q * p + (r + bit)) by (nonlinear_arith)
        requires
            sum == p * q + r,
    ;
    lemma_fundamental_div_mod_converse(sum + bit, p, q, r + bit);
}

/// Adding to a part of a sum modulo 32 adds to the sum.
proof fn lemma_part_of_sum(a: int, b: int, p: int)
    ensures
        (a + p + b) % 32 == ((a + b) % 32 + p) % 32,
        (a + (b + p) % 32) % 32 == ((a + b) % 32 + p) % 32,
{
}

/// The sum of the groups, group by group; zero has a group of zero.
pub proof fn lemma_group_sum_unfold(n: nat)
    ensures
        group_sum(n) == (n % 32 + group_sum(n / 32)) % 32,
{
}

/// One more binary digit set in the lowest group.
proof fn lemma_group_sum_of_low_bit(n: nat, c: nat)
    requires
        c < 5,
        (n / pow2(c)) % 2 == 0,
    ensures
        group_sum(n + pow2(c)) == (group_sum(n) + pow2(c)) % 32,
{
    let p = pow2(c);
    let e = pow2((4 - c) as nat) as int;
    lemma_pow2_pos(c);
    lemma_pow2_pos((4 - c) as nat);
    lemma_pow2_adds(c, (4 - c) as nat);
    assert(pow2(4) == 16) by {
        lemma2_to64();
    }
    assert(2 * e * p as int == 32) by (nonlinear_arith)
        requires
            p as int * e == 16,
    ;
    lemma_bit_fits(n as int, p as int, e);
    lemma_group_sum_unfold(n);
    lemma_group_sum_unfold(n + p);
    lemma_part_of_sum((n % 32) as int, group_sum(n / 32) as int, p as int);
}

/// One more binary digit set changes the sum of the groups.
proof fn lemma_group_sum_of_bit(n: nat, c: nat)
    requires
        (n / pow2(c)) % 2 == 0,
    ensures
        group_sum(n + pow2(c)) == (group_sum(n) + pow2(c % 5)) % 32,
    decreases c,
{
    if c < 5 {
        assert(c % 5 == c);
        lemma_group_sum_of_low_bit(n, c);
    } else {
        let e = (c - 5) as nat;
        let p = pow2(e);
        lemma_pow2_adds(e, 5);
        lemma_pow2_pos(e);
        assert(pow2(5) == 32) by {
            lemma2_to64();
        }
        let m = n + 32 * p;
        assert(pow2(c) == 32 * p);
        assert(m % 32 == n % 32 && m / 32 == n / 32 + p);
        lemma_div_denominator(n as int, 32, p as int);
        lemma_group_sum_of_bit(n / 32, e);
        assert(e % 5 == c % 5);
        lemma_group_sum_unfold(n);
        lemma_group_sum_unfold(m);
        lemma_part_of_sum(
            (n % 32) as int,
            group_sum(n / 32) as int,
            pow2(c % 5) as int,
        );
    }
}

/// A binary digit of a group is less than the group can hold.
proof fn lemma_group_bit(c: nat)
    ensures
        0 < pow2(c % 5) < 32,
{
    lemma2_to64();
    let r = c % 5;
    assert(r == 0 || r == 1 || r == 2 || r == 3 || r == 4);
}

/// A checksum and the payload below it agree.
spec fn agrees(sum: nat) -> bool {
    sum / pow2(CHECKSUM_SHIFT as nat) == group_sum(sum % pow2(CHECKSUM_SHIFT as nat))
}

/// Of two numbers that differ in one binary digit, at most one carries its own checksum.
proof fn lemma_one_agrees(sum: nat, c: nat)
    requires
        (sum / pow2(c)) % 2 == 0,
    ensures
        !(agrees(sum) && agrees(sum + pow2(c))),
{
    let shift = CHECKSUM_SHIFT as nat;
    let p = pow2(shift) as int;
    let bit = pow2(c) as int;
    let other = sum + bit;
    lemma_pow2_pos(shift);
    lemma_pow2_pos(c);
    let q = sum as int / p;
    let r = sum as int % p;
    lemma_fundamental_div_mod(sum as int, p);
    lemma_mod_bound(sum as int, p);
    if c >= shift {
        let high = (c - shift) as nat;
        lemma_pow2_adds(shift, high);
        lemma_pow2_pos(high);
        let x = pow2(high) as int;
        assert(other == (q + x) * p + r) by (nonlinear_arith)
            requires
                other == p * q + r + p * x,
        ;
        lemma_fundamental_div_mod_converse(other as int, p, q + x, r);
    } else {
        let rest = (shift - c - 1) as nat;
        lemma_pow2_adds(c, (shift - c) as nat);
        lemma_pow2_unfold((shift - c) as nat);
        let e = pow2(rest) as int;
        assert(p == 2 * e * bit) by (nonlinear_arith)
            requires
                p == bit * (2 * e),
        ;
        lemma_pow2_pos(rest);
        lemma_bit_of_remainder(sum as int, bit, e);
        lemma_bit_fits(sum as int, bit, e);
        lemma_group_sum_of_bit(r as nat, c);
        lemma_group_bit(c);
        lemma_group_sum_bound(r as nat);
    }
}

/// Where a binary digit goes, counted from the lowest, when those of `len` are unscrambled.
spec fn unscrambled_place(len: int, at: int) -> int {
    let from_top = len - 1 - at;
    if from_top % 2 == 1 {
        len - 1 - (len - len % 2 - from_top)
    } else {
        at
    }
}

/// The digits of a positive number, unscrambled.
spec fn unscrambled_digits(d: Seq<u8>) -> Seq<u8> {
    bignum::binary_text_digits(odd_reversed(bignum::binary_text(d)))
}

/// Unscrambling moves every binary digit to a place of its own.
proof fn lemma_unscrambled_digits(d: Seq<u8>, j: int)
    requires
        digits::digits_below(d, 2),
        0 <= j < d.len(),
    ensures
        unscrambled_digits(d).len() == d.len(),
        0 <= unscrambled_place(d.len() as int, j) < d.len(),
        unscrambled_digits(d)[j] == d[unscrambled_place(d.len() as int, j)],
        unscrambled_place(d.len() as int, unscrambled_place(d.len() as int, j)) == j,
{
    let len = d.len() as int;
    assert(d[unscrambled_place(len, j)] < 2);
}

/// Another binary digit at one place is another digit at one place of the unscrambled number.
proof fn lemma_unscrambled_update(d: Seq<u8>, at: int, digit: u8)
    requires
        digits::digits_below(d, 2),
        0 <= at < d.len(),
        digit < 2,
    ensures
        unscrambled_digits(d.update(at, digit)) == unscrambled_digits(d).update(
            unscrambled_place(d.len() as int, at),
            digit,
        ),
{
    let changed = d.update(at, digit);
    let len = d.len() as int;
    assert forall|i: int| 0 <= i < changed.len() implies (#[trigger] changed[i]) < 2 by {
        if i != at {
            assert(changed[i] == d[i]);
        }
    }
    let place = unscrambled_place(len, at);
    lemma_unscrambled_digits(d, at);
    assert forall|j: int| 0 <= j < len implies unscrambled_digits(changed)[j]
        == unscrambled_digits(d).update(place, digit)[j] by {
        lemma_unscrambled_digits(d, j);
        lemma_unscrambled_digits(changed, j);
    }
    assert(unscrambled_digits(changed) =~= unscrambled_digits(d).update(place, digit));
}

/// Of two numbers with as many binary digits that differ in one of them, at most one carries its
/// own checksum.
proof fn lemma_one_checksum_agrees(n: nat, at: nat)
    requires
        (n / pow2(at)) % 2 == 0,
        at + 1 < digits::le_digits(n, 2).len(),
    ensures
        !(checksum_agrees(n) && checksum_agrees(n + pow2(at))),
{
    let d = digits::le_digits(n, 2);
    digits::lemma_digits_denote(n, 2);
    lemma_pow2(at);
    digits::lemma_value_digit(d, at as int, 2);
    assert(d[at as int] == 0);
    let e = d.update(at as int, 1);
    digits::lemma_value_update(d, at as int, 1, 2);
    assert(1 * pow2(at) == pow2(at));
    assert forall|i: int| 0 <= i < e.len() implies (#[trigger] e[i]) < 2 by {
        if i != at {
            assert(e[i] == d[i]);
        }
    }
    assert(e.last() == d.last());
    digits::lemma_digits_of_value(e, 2);
    let place = unscrambled_place(d.len() as int, at as int);
    let x = unscrambled_digits(d);
    lemma_unscrambled_digits(d, at as int);
    lemma_unscrambled_digits(d, place);
    lemma_unscrambled_update(d, at as int, 1);
    assert forall|j: int| 0 <= j < x.len() implies (#[trigger] x[j]) < 2 by {
        lemma_unscrambled_digits(d, j);
        assert(d[unscrambled_place(d.len() as int, j)] < 2);
    }
    digits::lemma_value_update(x, place, 1, 2);
    digits::lemma_value_digit(x, place, 2);
    lemma_pow2(place as nat);
    assert(1 * pow2(place as nat) == pow2(place as nat));
    lemma_one_agrees(unscrambled(n), place as nat);
}

/// A bit of a digit in base 64 is a binary digit of the number.
proof fn lemma_bit_of_digit(n: nat, i: nat, k: nat, digit: nat)
    requires
        k < 6,
        (n as int / pow(64, i)) % 64 == digit,
    ensures
        (n / pow2(6 * i + k)) % 2 == (digit / pow2(k)) % 2,
        pow2(6 * i + k) == pow(64, i) * pow2(k),
{
    lemma2_to64();
    lemma_pow2(6);
    lemma_pow2(6 * i);
    lemma_pow_multiplies(2, 6, i);
    lemma_pow2_adds(6 * i, k);
    let q = n as int / pow(64, i);
    lemma_pow_positive(64, i);
    lemma_pow2_pos(k);
    lemma_div_denominator(n as int, pow(64, i), pow2(k) as int);
    let e = pow2((5 - k) as nat) as int;
    lemma_pow2_pos((5 - k) as nat);
    lemma_pow2_adds(k, (5 - k) as nat);
    assert(2 * e * pow2(k) as int == 64) by (nonlinear_arith)
        requires
            e * pow2(k) as int == 32,
    ;
    lemma_div_pos_is_pos(n as int, pow(64, i));
    lemma_bit_of_remainder(q, pow2(k) as int, e);
}

/// One bit apart, the larger of two digits is the smaller with the bit set.
proof fn lemma_one_bit_apart(a: u8, b: u8, k: u8)
    requires
        a < 64,
        b < 64,
        k < 6,
        a ^ b == 1u8 << k,
    ensures
        (a as nat / pow2(k as nat)) % 2 == 0 ==> b == a + pow2(k as nat),
        (a as nat / pow2(k as nat)) % 2 != 0 ==> a == b + pow2(k as nat) && (b as nat / pow2(
            k as nat,
        )) % 2 == 0,
{
    lemma2_to64();
    assert(k == 0 || k == 1 || k == 2 || k == 3 || k == 4 || k == 5);
    let z = a ^ b;
    assert((k == 0 && z == 1) || (k == 1 && z == 2) || (k == 2 && z == 4) || (k == 3 && z == 8)
        || (k == 4 && z == 16) || (k == 5 && z == 32)) by (bit_vector)
        requires
            k < 6,
            z == 1u8 << k,
    ;
    assert(if (a / z) % 2 == 0 {
        b == a + z
    } else {
        a == b + z && (b / z) % 2 == 0
    }) by (bit_vector)
        requires
            a ^ b == z,
            z == 1 || z == 2 || z == 4 || z == 8 || z == 16 || z == 32,
    ;
}

/// A change of one bit in the value of a character, other than the last, is always caught by the
/// checksum, where the last character of the accepted text is not the one of value zero.
pub proof fn law_checksum_catches_one_bit(text: Seq<char>, i: int, c: char, k: u8)
    requires
        layout_in_range(text),
        parsed_layout(text) is Ok,
        text.last() != 'A',
        0 <= i < LAYOUT_TEXT_LEN - 1,
        layout_digit(c) is Some,
        k < 6,
        layout_digit(text[i])->0 ^ layout_digit(c)->0 == 1u8 << k,
    ensures
        layout_in_range(text.update(i, c)),
        parsed_layout(text.update(i, c)) == Err::<(Seq<u8>, Seq<u32>), Seq<char>>(
            "Pickup layout checksum failed."@,
        ),
{
    let changed = text.update(i, c);
    let values = layout_digits(text);
    let a = layout_digit(text[i])->0;
    let b = layout_digit(c)->0;
    assert(layout_digit(text[i]) is Some);
    assert(layout_digit(text.last()) is Some);
    assert forall|j: int| 0 <= j < values.len() implies (#[trigger] values[j]) < 64 by {
        assert(layout_digit(text[j]) is Some);
    }
    assert(is_layout_text(changed)) by {
        assert forall|j: int| 0 <= j < changed.len() implies layout_digit(
            #[trigger] changed[j],
        ) is Some && changed[j] as nat <= 127 by {
            if j != i {
                assert(changed[j] == text[j]);
                assert(layout_digit(text[j]) is Some);
            }
        }
    }
    assert(layout_digits(changed) =~= values.update(i, b));
    let n = layout_number(text);
    let m = layout_number(changed);
    let at = (6 * i + k) as nat;
    digits::lemma_value_update(values, i, b, 64);
    digits::lemma_value_digit(values, i, 64);
    let changed_values = values.update(i, b);
    assert forall|j: int| 0 <= j < changed_values.len() implies (#[trigger] changed_values[j])
        < 64 by {
        if j != i {
            assert(changed_values[j] == values[j]);
        }
    }
    digits::lemma_value_digit(changed_values, i, 64);
    lemma_bit_of_digit(n, i as nat, k as nat, a as nat);
    lemma_bit_of_digit(m, i as nat, k as nat, b as nat);
    lemma_one_bit_apart(a, b, k);
    lemma_many_digits(text);
    lemma_many_digits(changed);
    let p = pow(64, i as nat);
    let x = pow2(k as nat) as int;
    if (a as nat / pow2(k as nat)) % 2 == 0 {
        assert((b - a) * p == p * x) by (nonlinear_arith)
            requires
                b - a == x,
        ;
        lemma_one_checksum_agrees(n, at);
    } else {
        assert((b - a) * p == -(p * x)) by (nonlinear_arith)
            requires
                b - a == -x,
        ;
        lemma_one_checksum_agrees(m, at);
    }
}

/// A text whose last character has a value spells more than 516 binary digits.
proof fn lemma_many_digits(text: Seq<char>)
    requires
        is_layout_text(text),
        text.last() != 'A',
    ensures
        digits::le_digits(layout_number(text), 2).len() > 516,
        layout_number(text) >= pow(256, 40),
{
    let values = layout_digits(text);
    let n = layout_number(text);
    assert(layout_digit(text.last()) is Some);
    let low = values.drop_last();
    assert(values =~= low.push(values.last()));
    digits::lemma_value_push(low, values.last(), 64);
    let top = values.last() as int;
    assert(top >= 1);
    let p = pow(64, 86);
    lemma_pow_positive(64, 86);
    assert(top * p >= p) by (nonlinear_arith)
        requires
            top >= 1,
            p > 0,
    ;
    lemma2_to64();
    lemma_pow2(6);
    lemma_pow2(8);
    lemma_pow_multiplies(2, 6, 86);
    lemma_pow_multiplies(2, 8, 40);
    lemma_pow_increases(2, 320, 516);
    digits::lemma_digit_count(n, 2, 516);
}

} // verus!
