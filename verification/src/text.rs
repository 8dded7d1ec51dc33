//! Text: reading it character by character, and writing numbers into it.

use vstd::prelude::*;

verus! {

/// Appending one character, [`String::push`].
///
/// The contract claims what its documentation says: the character is added at
/// the end, and nothing else changes.
pub assume_specification[ String::push ](text: &mut String, c: char)
    ensures
        final(text)@ == old(text)@.push(c),
;

/// Unicode's `White_Space` property.
pub open spec fn white_space(c: char) -> bool {
    let n = c as u32;
    ||| 0x9 <= n <= 0xD
    ||| n == 0x20
    ||| n == 0x85
    ||| n == 0xA0
    ||| n == 0x1680
    ||| 0x2000 <= n <= 0x200A
    ||| n == 0x2028
    ||| n == 0x2029
    ||| n == 0x202F
    ||| n == 0x205F
    ||| n == 0x3000
}

/// `text` without the white space it starts and ends with.
pub open spec fn trimmed(text: Seq<char>) -> Seq<char>
    decreases text.len(),
{
    if text.len() == 0 {
        text
    } else if white_space(text[0]) {
        trimmed(text.drop_first())
    } else if white_space(text.last()) {
        trimmed(text.drop_last())
    } else {
        text
    }
}

/// Removing surrounding white space, [`str::trim`].
///
/// The contract claims what its documentation says: leading and trailing
/// characters with Unicode's `White_Space` property are removed.
pub assume_specification[ str::trim ](text: &str) -> (r: &str)
    ensures
        r@ == trimmed(text@),
;

/// The ASCII capital of a letter, and any other character as it is.
pub open spec fn capital(c: char) -> char {
    if 'a' <= c <= 'z' {
        (c as u32 - 32) as char
    } else {
        c
    }
}

/// Capitalising ASCII letters, [`str::to_ascii_uppercase`].
///
/// The contract claims what its documentation says: `a` to `z` become `A` to
/// `Z`, and every other character stays.
pub assume_specification[ str::to_ascii_uppercase ](text: &str) -> (r: String)
    ensures
        r@ == text@.map_values(|c: char| capital(c)),
;

/// What `{:?}` makes of a text: quoted, with its special characters escaped.
pub uninterp spec fn quoted_text(text: Seq<char>) -> Seq<char>;

/// The text as `{:?}` writes it, by [`str`]'s `Debug` formatting.
///
/// The contract gives the result a name and claims no more than that it is a
/// function of the text.
#[verifier::external_body]
pub(crate) fn quoted(text: &str) -> (r: String)
    ensures
        r@ == quoted_text(text@),
{
    format!("{text:?}")
}

/// The characters of a text.
pub fn characters(text: &str) -> (r: Vec<char>)
    ensures
        r@ == text@,
{
    let mut out: Vec<char> = Vec::new();
    for c in it: text.chars()
        invariant
            it.seq() == text@,
            out@ == text@.take(it.index()),
    {
        assert(text@.take(it.index() + 1) =~= text@.take(it.index()).push(text@[it.index()]));
        out.push(c);
    }
    assert(out@ =~= text@);
    out
}

/// Whether a text holds a character.
pub fn contains_char(text: &str, wanted: char) -> (r: bool)
    ensures
        r == text@.contains(wanted),
{
    let all = characters(text);
    let mut i: usize = 0;
    while i < all.len()
        invariant
            i <= all@.len(),
            all@ == text@,
            forall|j: int| 0 <= j < i ==> text@[j] != wanted,
        decreases all@.len() - i,
    {
        if all[i] == wanted {
            assert(text@[i as int] == wanted);
            return true;
        }
        i += 1;
    }
    false
}

/// Whether two texts are the same.
pub fn same_text(a: &str, b: &str) -> (r: bool)
    ensures
        r == (a@ == b@),
{
    let left = characters(a);
    let right = characters(b);
    if left.len() != right.len() {
        return false;
    }
    let mut i: usize = 0;
    while i < left.len()
        invariant
            i <= left@.len(),
            left@.len() == right@.len(),
            left@ == a@,
            right@ == b@,
            forall|j: int| 0 <= j < i ==> left@[j] == right@[j],
        decreases left@.len() - i,
    {
        if left[i] != right[i] {
            return false;
        }
        i += 1;
    }
    assert(left@ =~= right@);
    true
}

/// Whether `text` begins with `prefix`.
pub fn starts_with(text: &str, prefix: &str) -> (r: bool)
    ensures
        r == prefix@.is_prefix_of(text@),
{
    let all = characters(text);
    let head = characters(prefix);
    if head.len() > all.len() {
        return false;
    }
    let mut i: usize = 0;
    while i < head.len()
        invariant
            i <= head@.len() <= all@.len(),
            all@ == text@,
            head@ == prefix@,
            forall|j: int| 0 <= j < i ==> head@[j] == all@[j],
        decreases head@.len() - i,
    {
        if head[i] != all[i] {
            return false;
        }
        i += 1;
    }
    assert(prefix@ =~= text@.subrange(0, prefix@.len() as int));
    true
}

/// A decimal digit.
pub open spec fn digit(n: int) -> char {
    (48 + n) as char
}

/// The decimal notation of a number.
pub open spec fn decimal(n: int) -> Seq<char>
    decreases n,
{
    if n < 10 {
        seq![digit(n)]
    } else {
        decimal(n / 10).push(digit(n % 10))
    }
}

/// Writes a number in decimal notation at the end of a text.
pub fn push_decimal(text: &mut String, n: u64)
    ensures
        final(text)@ == old(text)@ + decimal(n as int),
    decreases n,
{
    if n >= 10 {
        push_decimal(text, n / 10);
    }
    let d: u8 = (n % 10) as u8;
    text.push((48 + d) as char);
    assert(text@ =~= old(text)@ + decimal(n as int));
}

/// A signed number in decimal.
pub open spec fn signed_decimal(n: int) -> Seq<char> {
    if n < 0 {
        seq!['-'] + decimal(-n)
    } else {
        decimal(n)
    }
}

/// Appends a signed number in decimal.
pub fn push_signed(text: &mut String, n: i64)
    ensures
        final(text)@ == old(text)@ + signed_decimal(n as int),
{
    if n < 0 {
        text.push('-');
        let magnitude: u64 = (-(n as i128)) as u64;
        push_decimal(text, magnitude);
        assert(text@ =~= old(text)@ + signed_decimal(n as int));
    } else {
        push_decimal(text, n as u64);
    }
}

/// One hexadecimal digit, capital.
pub open spec fn hex_digit(n: int) -> char {
    if n < 10 {
        (48 + n) as char
    } else {
        (55 + n) as char
    }
}

fn hex(n: u8) -> (r: char)
    requires
        n < 16,
    ensures
        r == hex_digit(n as int),
{
    if n < 10 {
        (48 + n) as char
    } else {
        (55 + n) as char
    }
}

/// A byte that a query value may hold as it is.
pub open spec fn unreserved(byte: u8) -> bool {
    ||| 0x41 <= byte <= 0x5A
    ||| 0x61 <= byte <= 0x7A
    ||| 0x30 <= byte <= 0x39
    ||| byte == 0x2D
    ||| byte == 0x5F
    ||| byte == 0x2E
    ||| byte == 0x7E
}

/// A byte as a query value holds it: as it is, or as `%` and two digits.
pub open spec fn escaped(byte: u8) -> Seq<char> {
    if unreserved(byte) {
        seq![byte as char]
    } else {
        seq!['%', hex_digit(byte as int / 16), hex_digit(byte as int % 16)]
    }
}

/// Bytes as a query value holds them.
pub open spec fn escaped_all(bytes: Seq<u8>) -> Seq<char>
    decreases bytes.len(),
{
    if bytes.len() == 0 {
        Seq::empty()
    } else {
        escaped_all(bytes.drop_last()) + escaped(bytes.last())
    }
}

/// Percent-encodes a query-string value, keeping the unreserved characters.
pub fn percent_encode(value: &str) -> (r: String)
    ensures
        r@ == escaped_all(vstd::utf8::encode_utf8(value@)),
{
    let bytes = value.as_bytes();
    let mut out = String::new();
    let mut i: usize = 0;
    while i < bytes.len()
        invariant
            i <= bytes@.len(),
            out@ == escaped_all(bytes@.take(i as int)),
        decreases bytes@.len() - i,
    {
        let byte: u8 = bytes[i];
        let ghost before = out@;
        if (byte >= 0x41 && byte <= 0x5A) || (byte >= 0x61 && byte <= 0x7A) || (byte >= 0x30
            && byte <= 0x39) || byte == 0x2D || byte == 0x5F || byte == 0x2E || byte == 0x7E {
            out.push(byte as char);
        } else {
            out.push('%');
            out.push(hex(byte / 16));
            out.push(hex(byte % 16));
        }
        proof {
            let grown = bytes@.take(i as int + 1);
            assert(grown.drop_last() =~= bytes@.take(i as int));
            assert(grown.last() == byte);
            assert(out@ =~= before + escaped(byte));
        }
        i += 1;
    }
    assert(bytes@.take(i as int) =~= bytes@);
    out
}

/// A character an encoded value may hold.
pub open spec fn query_safe(c: char) -> bool {
    c == '%' || ((c as u32) < 128 && unreserved(c as u8))
}

/// An encoded value holds nothing that could end it or start another: only
/// unreserved characters and `%`.
pub proof fn an_encoded_value_stays_one_value(bytes: Seq<u8>)
    ensures
        forall|i: int|
            0 <= i < escaped_all(bytes).len() ==> query_safe(#[trigger] escaped_all(bytes)[i]),
    decreases bytes.len(),
{
    if bytes.len() > 0 {
        an_encoded_value_stays_one_value(bytes.drop_last());
        let head = escaped_all(bytes.drop_last());
        let tail = escaped(bytes.last());
        assert forall|i: int| 0 <= i < escaped_all(bytes).len() implies query_safe(
            #[trigger] escaped_all(bytes)[i],
        ) by {
            if i < head.len() {
                assert(escaped_all(bytes)[i] == head[i]);
            } else {
                assert(escaped_all(bytes)[i] == tail[i - head.len()]);
            }
        }
    }
}

/// The number a hexadecimal digit stands for.
pub open spec fn digit_value(c: char) -> int {
    if '0' <= c <= '9' {
        c as int - 48
    } else {
        c as int - 55
    }
}

/// The bytes a query value stands for: each `%` and the two digits after it is
/// one byte, and so is any other character.
pub open spec fn unescaped(text: Seq<char>) -> Seq<u8>
    decreases text.len(),
{
    if text.len() == 0 {
        Seq::empty()
    } else if text[0] == '%' && text.len() >= 3 {
        seq![(digit_value(text[1]) * 16 + digit_value(text[2])) as u8] + unescaped(text.skip(3))
    } else {
        seq![text[0] as u8] + unescaped(text.skip(1))
    }
}

/// Undoing the escape of the first byte.
proof fn unescaping_one(byte: u8, rest: Seq<char>)
    ensures
        unescaped(escaped(byte) + rest) == seq![byte] + unescaped(rest),
{
    let text = escaped(byte) + rest;
    if unreserved(byte) {
        assert(text[0] == byte as char);
        assert(text.skip(1) =~= rest);
    } else {
        let high = byte as int / 16;
        let low = byte as int % 16;
        assert(text[0] == '%' && text[1] == hex_digit(high) && text[2] == hex_digit(low));
        assert(digit_value(hex_digit(high)) == high);
        assert(digit_value(hex_digit(low)) == low);
        assert(text.skip(3) =~= rest);
    }
}

/// Escaping starts with the first byte.
proof fn escaping_starts_in_front(bytes: Seq<u8>)
    requires
        bytes.len() > 0,
    ensures
        escaped_all(bytes) == escaped(bytes[0]) + escaped_all(bytes.skip(1)),
    decreases bytes.len(),
{
    if bytes.len() == 1 {
        assert(bytes.drop_last() =~= Seq::empty());
        assert(bytes.skip(1) =~= Seq::empty());
        assert(escaped_all(bytes) =~= escaped(bytes[0]) + escaped_all(bytes.skip(1)));
    } else {
        let front = bytes.drop_last();
        escaping_starts_in_front(front);
        assert(front.skip(1) =~= bytes.skip(1).drop_last());
        assert(bytes.skip(1).last() == bytes.last());
        assert(escaped_all(bytes) =~= escaped(bytes[0]) + escaped_all(bytes.skip(1)));
    }
}

/// Undoing the escapes of an encoded value gives back its bytes.
pub proof fn an_encoded_value_reads_back(bytes: Seq<u8>)
    ensures
        unescaped(escaped_all(bytes)) == bytes,
    decreases bytes.len(),
{
    if bytes.len() == 0 {
        assert(unescaped(escaped_all(bytes)) =~= bytes);
    } else {
        escaping_starts_in_front(bytes);
        unescaping_one(bytes[0], escaped_all(bytes.skip(1)));
        an_encoded_value_reads_back(bytes.skip(1));
        assert(seq![bytes[0]] + bytes.skip(1) =~= bytes);
    }
}

/// Two values are encoded alike only when they are the same value.
pub proof fn an_encoded_value_is_its_own(first: Seq<char>, second: Seq<char>)
    requires
        escaped_all(vstd::utf8::encode_utf8(first)) == escaped_all(
            vstd::utf8::encode_utf8(second),
        ),
    ensures
        first == second,
{
    an_encoded_value_reads_back(vstd::utf8::encode_utf8(first));
    an_encoded_value_reads_back(vstd::utf8::encode_utf8(second));
    vstd::utf8::encode_utf8_decode_utf8(first);
    vstd::utf8::encode_utf8_decode_utf8(second);
}

/// The number a decimal notation stands for.
pub open spec fn decimal_value(text: Seq<char>) -> int
    decreases text.len(),
{
    if text.len() == 0 {
        0
    } else {
        10 * decimal_value(text.drop_last()) + (text.last() as int - 48)
    }
}

/// A number's decimal notation stands for it, is made of digits, and starts
/// with a nought only where it is nought.
pub proof fn a_decimal_reads_back(n: int)
    requires
        n >= 0,
    ensures
        decimal_value(decimal(n)) == n,
        decimal(n).len() > 0,
        n > 0 ==> decimal(n)[0] != '0',
        forall|i: int| 0 <= i < decimal(n).len() ==> '0' <= #[trigger] decimal(n)[i] <= '9',
    decreases n,
{
    let text = decimal(n);
    if n < 10 {
        assert(text.drop_last() =~= Seq::empty());
        assert(decimal_value(text.drop_last()) == 0);
    } else {
        a_decimal_reads_back(n / 10);
        assert(text.drop_last() =~= decimal(n / 10));
        assert(text.last() == digit(n % 10));
        assert(text[0] == decimal(n / 10)[0]);
        assert forall|i: int| 0 <= i < text.len() implies '0' <= #[trigger] text[i] <= '9' by {
            if i < text.len() - 1 {
                assert(text[i] == decimal(n / 10)[i]);
            }
        }
    }
}

/// A negative number is its size behind a minus.
pub proof fn a_minus_marks_a_negative_number(n: int)
    ensures
        n >= 0 ==> decimal_value(signed_decimal(n)) == n,
        n < 0 ==> signed_decimal(n)[0] == '-' && decimal_value(signed_decimal(n).skip(1)) == -n,
{
    if n >= 0 {
        a_decimal_reads_back(n);
    } else {
        a_decimal_reads_back(-n);
        assert(signed_decimal(n).skip(1) =~= decimal(-n));
    }
}

/// What a query value holds as it is: letters, digits, and the four marks that
/// need no escape. Every other byte is three characters.
pub proof fn letters_digits_and_four_marks_stay(byte: u8)
    ensures
        ({
            let c = byte as char;
            let stays = ('A' <= c <= 'Z') || ('a' <= c <= 'z') || ('0' <= c <= '9') || c == '-' || c
                == '_' || c == '.' || c == '~';
            &&& stays ==> escaped(byte) == seq![c]
            &&& !stays ==> escaped(byte).len() == 3 && escaped(byte)[0] == '%'
        }),
{
}

} // verus!
