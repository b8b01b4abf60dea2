//! Text that the patcher writes: decimal numbers, escaped names, filled-in templates.

use vstd::prelude::*;

verus! {

/// `String::push` appends one character.
pub assume_specification[ String::push ](s: &mut String, c: char)
    ensures
        final(s)@ == old(s)@.push(c),
;

/// The character of a decimal digit.
pub open spec fn digit_char(d: nat) -> char {
    (48 + d) as char
}

/// `n` in decimal, without leading zeros.
pub open spec fn decimal_text(n: nat) -> Seq<char>
    decreases n,
{
    if n < 10 {
        seq![digit_char(n)]
    } else {
        decimal_text(n / 10).push(digit_char(n % 10))
    }
}

/// Writes `n` in decimal.
pub fn decimal(n: u64) -> (r: String)
    ensures
        r@ == decimal_text(n as nat),
    decreases n,
{
    let mut r = if n < 10 {
        String::new()
    } else {
        decimal(n / 10)
    };
    r.push((48 + (n % 10) as u8) as char);
    r
}

/// The characters of a text.
pub fn chars_of(text: &str) -> (r: Vec<char>)
    ensures
        r@ == text@,
{
    let mut r: Vec<char> = Vec::new();
    for c in it: text.chars()
        invariant
            r@ == it.seq().take(it.index() as int),
            it.seq() == text@,
    {
        r.push(c);
    }
    r
}

/// `text` with every occurrence of `from` replaced by `to`, found from left to right.
pub open spec fn replaced(text: Seq<char>, from: Seq<char>, to: Seq<char>) -> Seq<char>
    decreases text.len(),
{
    if text.len() == 0 || from.len() == 0 {
        text
    } else if from.is_prefix_of(text) {
        to + replaced(text.skip(from.len() as int), from, to)
    } else {
        seq![text[0]] + replaced(text.drop_first(), from, to)
    }
}

/// Whether `part` stands in `text` at `start`.
fn stands_at(text: &Vec<char>, start: usize, part: &Vec<char>) -> (r: bool)
    requires
        start <= text.len(),
    ensures
        r == part@.is_prefix_of(text@.skip(start as int)),
{
    if part.len() > text.len() - start {
        return false;
    }
    for i in 0..part.len()
        invariant
            start + part.len() <= text.len(),
            forall|j: int| 0 <= j < i ==> part@[j] == text@[start + j],
    {
        if part[i] != text[start + i] {
            assert(part@[i as int] != text@.skip(start as int)[i as int]);
            return false;
        }
    }
    assert(part@ =~= text@.skip(start as int).take(part@.len() as int));
    true
}

/// Replaces every occurrence of a placeholder.
pub fn replace_all(text: &str, from: &str, to: &str) -> (r: String)
    requires
        from@.len() > 0,
    ensures
        r@ == replaced(text@, from@, to@),
{
    let chars = chars_of(text);
    let part = chars_of(from);
    let mut r = String::new();
    let mut i: usize = 0;
    assert(chars@.skip(0) =~= text@);
    while i < chars.len()
        invariant
            i <= chars.len(),
            chars@ == text@,
            part@ == from@,
            from@.len() > 0,
            replaced(text@, from@, to@) == r@ + replaced(chars@.skip(i as int), from@, to@),
        decreases chars.len() - i,
    {
        let ghost rest = chars@.skip(i as int);
        let ghost before = r@;
        if stands_at(&chars, i, &part) {
            r.append(to);
            assert(rest.skip(from@.len() as int) =~= chars@.skip(i + from@.len()));
            assert(before + (to@ + replaced(rest.skip(from@.len() as int), from@, to@)) =~= r@
                + replaced(rest.skip(from@.len() as int), from@, to@));
            i = i + part.len();
        } else {
            r.push(chars[i]);
            assert(rest.drop_first() =~= chars@.skip(i + 1));
            assert(before + (seq![rest[0]] + replaced(rest.drop_first(), from@, to@)) =~= r@
                + replaced(rest.drop_first(), from@, to@));
            i = i + 1;
        }
    }
    assert(chars@.skip(i as int) =~= Seq::empty());
    assert(r@ + Seq::<char>::empty() =~= r@);
    r
}

/// Text that ends in a character other than the placeholder's last keeps its end, so it does not
/// become empty.
pub proof fn lemma_replaced_keeps_end(text: Seq<char>, from: Seq<char>, to: Seq<char>)
    requires
        text.len() > 0,
        from.len() > 0,
        text.last() != from.last(),
    ensures
        replaced(text, from, to).len() > 0,
        replaced(text, from, to).last() == text.last(),
    decreases text.len(),
{
    if from.is_prefix_of(text) {
        let rest = text.skip(from.len() as int);
        if rest.len() == 0 {
            assert(text =~= from);
        } else {
            lemma_replaced_keeps_end(rest, from, to);
        }
    } else {
        let rest = text.drop_first();
        if rest.len() == 0 {
            assert(replaced(rest, from, to) =~= Seq::empty());
        } else {
            lemma_replaced_keeps_end(rest, from, to);
        }
    }
}

/// A lower-case hexadecimal digit.
pub open spec fn hex_char(d: u8) -> char {
    if d < 10 {
        (48 + d) as char
    } else {
        (87 + d) as char
    }
}

/// One byte of a name between quotation marks: tab, line ends, quotation marks and the backslash
/// after a backslash, other printable ASCII as it is, any other byte as `\xNN`.
pub open spec fn escaped_byte(b: u8) -> Seq<char> {
    if b == 9 {
        seq!['\\', 't']
    } else if b == 10 {
        seq!['\\', 'n']
    } else if b == 13 {
        seq!['\\', 'r']
    } else if b == 34 || b == 39 || b == 92 {
        seq!['\\', b as char]
    } else if 32 <= b <= 126 {
        seq![b as char]
    } else {
        seq!['\\', 'x', hex_char(b / 16), hex_char(b % 16)]
    }
}

/// The bytes of a name, escaped.
pub open spec fn escaped(bytes: Seq<u8>) -> Seq<char>
    decreases bytes.len(),
{
    if bytes.len() == 0 {
        Seq::empty()
    } else {
        escaped(bytes.drop_last()) + escaped_byte(bytes.last())
    }
}

fn hex_digit(d: u8) -> (r: char)
    requires
        d < 16,
    ensures
        r == hex_char(d),
{
    if d < 10 {
        (48 + d) as char
    } else {
        (87 + d) as char
    }
}

/// Escapes the bytes of a name.
pub fn escape(bytes: &Vec<u8>) -> (r: String)
    ensures
        r@ == escaped(bytes@),
{
    let mut r = String::new();
    for i in 0..bytes.len()
        invariant
            r@ == escaped(bytes@.take(i as int)),
    {
        let b = bytes[i];
        let ghost before = r@;
        if b == 9 || b == 10 || b == 13 {
            r.push('\\');
            r.push(if b == 9 { 't' } else if b == 10 { 'n' } else { 'r' });
        } else if b == 34 || b == 39 || b == 92 {
            r.push('\\');
            r.push(b as char);
        } else if 32 <= b && b <= 126 {
            r.push(b as char);
        } else {
            r.push('\\');
            r.push('x');
            r.push(hex_digit(b / 16));
            r.push(hex_digit(b % 16));
        }
        assert(bytes@.take(i + 1).drop_last() =~= bytes@.take(i as int));
        assert(r@ =~= before + escaped_byte(b));
    }
    assert(bytes@.take(bytes@.len() as int) =~= bytes@);
    r
}

/// Escaped text holds no NUL, so it can stand in a C string.
pub proof fn lemma_escaped_has_no_nul(bytes: Seq<u8>)
    ensures
        !escaped(bytes).contains('\0'),
    decreases bytes.len(),
{
    if bytes.len() > 0 {
        lemma_escaped_has_no_nul(bytes.drop_last());
        let head = escaped(bytes.drop_last());
        let tail = escaped_byte(bytes.last());
        assert forall|i: int| 0 <= i < (head + tail).len() implies (head + tail)[i] != '\0' by {
            if i < head.len() {
                assert(head.contains(head[i]));
            }
        }
    }
}

/// Decimal text holds no zero byte.
pub proof fn lemma_decimal_has_no_nul(n: nat)
    ensures
        !decimal_text(n).contains('\0'),
    decreases n,
{
    if n >= 10 {
        lemma_decimal_has_no_nul(n / 10);
        let head = decimal_text(n / 10);
        assert forall|i: int| 0 <= i < decimal_text(n).len() implies decimal_text(n)[i]
            != '\0' by {
            if i < head.len() {
                assert(head.contains(head[i]));
            }
        }
    }
}

} // verus!
