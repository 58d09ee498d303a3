//! Text for people: escaped names, sizes, decimal numbers.
use vstd::prelude::*;
use vstd::slice::slice_subrange;
use vstd::string::*;
use vstd::utf8::*;

verus! {

/// `String::push` puts one character at the end of the text.
pub assume_specification[ String::push ](s: &mut String, c: char)
    ensures
        final(s)@ == old(s)@.push(c),
;

/// `std::str::from_utf8`: a text with exactly these bytes, given just where
/// the bytes are valid UTF-8.
#[verifier::external_body]
pub(crate) fn from_utf8(b: &[u8]) -> (r: Option<&str>)
    ensures
        r is Some <==> valid_utf8(b@),
        r matches Some(s) ==> s.spec_bytes() == b@,
{
    std::str::from_utf8(b).ok()
}

/// What `{:?}` writes for a text: quoted, with Rust's own escapes inside.
pub uninterp spec fn debug_text(s: Seq<char>) -> Seq<char>;

/// `format!("{:?}", s)` for a text, as `debug_text` names it.
#[verifier::external_body]
pub(crate) fn quoted(s: &str) -> (r: String)
    ensures
        r@ == debug_text(s@),
{
    format!("{s:?}")
}

/// The characters of `s`, one by one.
pub(crate) fn chars_of(s: &str) -> (v: Vec<char>)
    ensures
        v@ == s@,
{
    let n: usize = s.unicode_len();
    let mut v: Vec<char> = Vec::new();
    let mut i: usize = 0;
    while i < n
        invariant
            n == s@.len(),
            i <= n,
            v@ =~= s@.take(i as int),
        decreases n - i,
    {
        v.push(s.get_char(i));
        i = i + 1;
    }
    v
}

/// The characters `v[from..to]` as a text.
pub(crate) fn text_of(v: &Vec<char>, from: usize, to: usize) -> (s: String)
    requires
        from <= to <= v@.len(),
    ensures
        s@ == v@.subrange(from as int, to as int),
{
    let mut s = String::new();
    let mut i: usize = from;
    while i < to
        invariant
            from <= i <= to <= v@.len(),
            s@ =~= v@.subrange(from as int, i as int),
        decreases to - i,
    {
        s.push(v[i]);
        i = i + 1;
    }
    s
}

/// A character with Unicode's `White_Space` property.
pub open spec fn white(c: char) -> bool {
    let n = c as u32;
    ||| 0x09 <= n <= 0x0d
    ||| n == 0x20
    ||| n == 0x85
    ||| n == 0xa0
    ||| n == 0x1680
    ||| 0x2000 <= n <= 0x200a
    ||| n == 0x2028
    ||| n == 0x2029
    ||| n == 0x202f
    ||| n == 0x205f
    ||| n == 0x3000
}

/// `s` without the white space before it.
pub open spec fn trimmed_left(s: Seq<char>) -> Seq<char>
    decreases s.len(),
{
    if s.len() > 0 && white(s[0]) {
        trimmed_left(s.skip(1))
    } else {
        s
    }
}

/// `s` without the white space behind it.
pub open spec fn trimmed_right(s: Seq<char>) -> Seq<char>
    decreases s.len(),
{
    if s.len() > 0 && white(s.last()) {
        trimmed_right(s.drop_last())
    } else {
        s
    }
}

/// `s` without the white space at either end.
pub open spec fn trimmed(s: Seq<char>) -> Seq<char> {
    trimmed_right(trimmed_left(s))
}

/// Trimming takes white space off both ends, a character at a time, and leaves
/// what begins and ends with a visible character as it is.
pub proof fn only_the_ends_are_trimmed(s: Seq<char>, c: char)
    requires
        c == ' ' || '\t' <= c <= '\r',
    ensures
        trimmed(seq![c] + s) == trimmed(s),
        trimmed(s.push(c)) == trimmed(s),
        s.len() > 0 && '!' <= s[0] <= '~' && '!' <= s.last() <= '~' ==> trimmed(s) == s,
        trimmed(Seq::<char>::empty()) == Seq::<char>::empty(),
{
    assert((seq![c] + s).skip(1) =~= s);
    white_behind_goes(s, c);
}

/// White space of every script is trimmed, and a character that is none stays.
pub proof fn white_space_of_every_script_is_trimmed(s: Seq<char>, c: char)
    ensures
        ({
            let n = c as u32;
            ||| 0x09 <= n <= 0x0d
            ||| n == 0x20
            ||| n == 0x85
            ||| n == 0xa0
            ||| n == 0x1680
            ||| 0x2000 <= n <= 0x200a
            ||| n == 0x2028
            ||| n == 0x2029
            ||| n == 0x202f
            ||| n == 0x205f
            ||| n == 0x3000
        }) ==> trimmed(seq![c] + s) == trimmed(s) && trimmed(s.push(c)) == trimmed(s),
        !({
            let n = c as u32;
            ||| 0x09 <= n <= 0x0d
            ||| n == 0x20
            ||| n == 0x85
            ||| n == 0xa0
            ||| n == 0x1680
            ||| 0x2000 <= n <= 0x200a
            ||| n == 0x2028
            ||| n == 0x2029
            ||| n == 0x202f
            ||| n == 0x205f
            ||| n == 0x3000
        }) ==> trimmed(seq![c]) == seq![c] && trimmed(seq![c] + s.push(c)) == seq![c] + s.push(c),
{
    if white(c) {
        assert((seq![c] + s).skip(1) =~= s);
        white_behind_goes(s, c);
    } else {
        assert((seq![c] + s.push(c)).last() == c);
    }
}

proof fn white_behind_goes(s: Seq<char>, c: char)
    requires
        white(c),
    ensures
        trimmed(s.push(c)) == trimmed(s),
    decreases s.len(),
{
    let t = s.push(c);
    if s.len() > 0 && white(s[0]) {
        assert(t.skip(1) =~= s.skip(1).push(c));
        white_behind_goes(s.skip(1), c);
    } else if s.len() == 0 {
        assert(t.skip(1) =~= Seq::<char>::empty());
        assert(trimmed_left(t) == trimmed_left(t.skip(1)));
        assert(s =~= Seq::<char>::empty());
    } else {
        assert(trimmed_left(t) == t);
        assert(t.drop_last() =~= s);
    }
}

fn is_white(c: char) -> (r: bool)
    ensures
        r == white(c),
{
    let n: u32 = c as u32;
    (0x09 <= n && n <= 0x0d) || n == 0x20 || n == 0x85 || n == 0xa0 || n == 0x1680 || (0x2000 <= n
        && n <= 0x200a) || n == 0x2028 || n == 0x2029 || n == 0x202f || n == 0x205f || n == 0x3000
}

/// Takes the white space off both ends of `s`.
pub fn trim(s: &str) -> (r: String)
    ensures
        r@ == trimmed(s@),
{
    let v = chars_of(s);
    let mut from: usize = 0;
    assert(v@.skip(0) =~= v@);
    while from < v.len() && is_white(v[from])
        invariant
            from <= v.len(),
            trimmed_left(v@.skip(from as int)) == trimmed_left(v@),
        decreases v.len() - from,
    {
        assert(v@.skip(from as int).skip(1) =~= v@.skip(from + 1));
        from = from + 1;
    }
    assert(trimmed_left(v@) == v@.skip(from as int));
    let mut to: usize = v.len();
    assert(v@.subrange(from as int, to as int) =~= v@.skip(from as int));
    while to > from && is_white(v[to - 1])
        invariant
            from <= to <= v.len(),
            trimmed_right(v@.subrange(from as int, to as int)) == trimmed(v@),
        decreases to,
    {
        assert(v@.subrange(from as int, to as int).drop_last() =~= v@.subrange(
            from as int,
            to - 1,
        ));
        to = to - 1;
    }
    text_of(&v, from, to)
}

// ---------------------------------------------------------------------------
// Numbers
// ---------------------------------------------------------------------------

/// The decimal digit for `0 <= n < 10`.
pub open spec fn digit(n: int) -> char {
    (0x30 + n) as char
}

/// `n` in decimal, without leading zeros.
pub open spec fn decimal(n: nat) -> Seq<char>
    decreases n,
{
    if n < 10 {
        seq![digit(n as int)]
    } else {
        decimal(n / 10).push(digit((n % 10) as int))
    }
}

fn digit_char(n: u64) -> (c: char)
    requires
        n < 10,
    ensures
        c == digit(n as int),
{
    match n {
        0 => '0',
        1 => '1',
        2 => '2',
        3 => '3',
        4 => '4',
        5 => '5',
        6 => '6',
        7 => '7',
        8 => '8',
        _ => '9',
    }
}

/// Writes `n` in decimal.
pub fn number(n: u64) -> (s: String)
    ensures
        s@ == decimal(n as nat),
    decreases n,
{
    if n < 10 {
        let mut s = String::new();
        s.push(digit_char(n));
        assert(s@ =~= seq![digit(n as int)]);
        s
    } else {
        let mut s = number(n / 10);
        s.push(digit_char(n % 10));
        s
    }
}

/// A decimal text is not empty and holds only digits.
pub proof fn decimal_is_digits(n: nat)
    ensures
        decimal(n).len() >= 1,
        forall|i: int| 0 <= i < decimal(n).len() ==> '0' <= #[trigger] decimal(n)[i] <= '9',
    decreases n,
{
    if n >= 10 {
        decimal_is_digits(n / 10);
    }
}

/// Two numbers with the same decimal text are the same number.
pub proof fn decimal_is_injective(a: nat, b: nat)
    requires
        decimal(a) == decimal(b),
    ensures
        a == b,
    decreases a,
{
    decimal_is_digits(a / 10);
    decimal_is_digits(b / 10);
    assert(decimal(a).last() == digit((a % 10) as int));
    assert(decimal(b).last() == digit((b % 10) as int));
    if a >= 10 && b >= 10 {
        assert(decimal(a).drop_last() =~= decimal(a / 10));
        assert(decimal(b).drop_last() =~= decimal(b / 10));
        decimal_is_injective(a / 10, b / 10);
    }
}

/// A number is written digit by digit, the last digit last: ten times a number
/// and a digit more is the number's text and that digit.
pub proof fn decimal_grows_by_its_last_digit(n: nat, d: nat)
    requires
        d < 10,
    ensures
        decimal(d).len() == 1,
        decimal(d)[0] as u32 == '0' as u32 + d,
        n > 0 ==> decimal(10 * n + d) == decimal(n).push(decimal(d)[0]),
{
    if n > 0 {
        assert((10 * n + d) / 10 == n);
        assert((10 * n + d) % 10 == d);
    }
}

// ---------------------------------------------------------------------------
// Escaping
// ---------------------------------------------------------------------------

/// A character a terminal may act on: C0, DEL and C1.
pub open spec fn control(c: char) -> bool {
    (c as u32) < 0x20 || 0x7f <= (c as u32) <= 0x9f
}

/// The hexadecimal digit for `0 <= n < 16`, in lower case.
pub open spec fn hex_digit(n: int) -> char {
    if n < 10 {
        (0x30 + n) as char
    } else {
        (0x57 + n) as char
    }
}

/// `\xNN`.
pub open spec fn hex_escape(b: int) -> Seq<char> {
    seq!['\\', 'x', hex_digit(b / 16), hex_digit(b % 16)]
}

/// How one character is shown.
pub open spec fn shown(c: char) -> Seq<char> {
    if c == '\\' {
        seq!['\\', '\\']
    } else if c == '\n' {
        seq!['\\', 'n']
    } else if c == '\t' {
        seq!['\\', 't']
    } else if control(c) {
        hex_escape(c as int)
    } else {
        seq![c]
    }
}

/// `b` as shown to a person: each character of valid UTF-8 as `shown`, each
/// other byte as `\xNN`.
pub open spec fn escaped(b: Seq<u8>) -> Seq<char>
    decreases b.len(),
{
    if b.len() == 0 {
        Seq::empty()
    } else if valid_first_scalar(b) {
        shown(decode_first_scalar(b) as char) + escaped(pop_first_scalar(b))
    } else {
        hex_escape(b[0] as int) + escaped(b.skip(1))
    }
}

proof fn hex_holds_no_control(b: int)
    requires
        0 <= b < 256,
    ensures
        forall|i: int| 0 <= i < 4 ==> !control(#[trigger] hex_escape(b)[i]),
{
    let hi = hex_digit(b / 16);
    let lo = hex_digit(b % 16);
    assert('0' <= hi <= 'f' && '0' <= lo <= 'f');
}

proof fn shown_holds_no_control(c: char)
    ensures
        forall|i: int| 0 <= i < shown(c).len() ==> !control(#[trigger] shown(c)[i]),
{
    if control(c) {
        hex_holds_no_control(c as int);
    }
}

/// However hostile the name, no control character is in its escaped form.
pub proof fn escaped_holds_no_control(b: Seq<u8>)
    ensures
        forall|i: int| 0 <= i < escaped(b).len() ==> !control(#[trigger] escaped(b)[i]),
    decreases b.len(),
{
    if b.len() > 0 {
        let (head, tail) = if valid_first_scalar(b) {
            shown_holds_no_control(decode_first_scalar(b) as char);
            (shown(decode_first_scalar(b) as char), pop_first_scalar(b))
        } else {
            hex_holds_no_control(b[0] as int);
            (hex_escape(b[0] as int), b.skip(1))
        };
        escaped_holds_no_control(tail);
        assert(escaped(b) == head + escaped(tail));
        assert forall|i: int| 0 <= i < escaped(b).len() implies !control(
            #[trigger] escaped(b)[i],
        ) by {
            if i < head.len() {
                assert(!control(head[i]));
            } else {
                assert(!control(escaped(tail)[i - head.len()]));
            }
        }
    }
}

proof fn wide_bytes(c: u32)
    ensures
        leading_byte_width_2(c) >= 0x80,
        leading_byte_width_3(c) >= 0x80,
        leading_byte_width_4(c) >= 0x80,
        last_continuation_byte(c) >= 0x80,
        second_last_continuation_byte(c) >= 0x80,
        third_last_continuation_byte(c) >= 0x80,
        has_width_1_encoding(c) ==> leading_byte_width_1(c) == c,
{
    assert(0xC0 | ((c >> 6) & 0x1F) as u8 >= 0x80) by (bit_vector);
    assert(0xE0 | ((c >> 12) & 0x0F) as u8 >= 0x80) by (bit_vector);
    assert(0xF0 | ((c >> 18) & 0x7) as u8 >= 0x80) by (bit_vector);
    assert(0x80 | (c & 0x3F) as u8 >= 0x80) by (bit_vector);
    assert(0x80 | ((c >> 6) & 0x3F) as u8 >= 0x80) by (bit_vector);
    assert(0x80 | ((c >> 12) & 0x3F) as u8 >= 0x80) by (bit_vector);
    assert(c <= 0x7F ==> (c & 0x7F) as u8 == c) by (bit_vector);
}

/// Texts are encoded one after the other.
pub proof fn encoding_is_piecewise(a: Seq<char>, b: Seq<char>)
    ensures
        encode_utf8(a + b) == encode_utf8(a) + encode_utf8(b),
    decreases a.len(),
{
    if a.len() == 0 {
        assert(a + b =~= b);
        assert(encode_utf8(a) + encode_utf8(b) =~= encode_utf8(b));
    } else {
        assert((a + b).drop_first() =~= a.drop_first() + b);
        encoding_is_piecewise(a.drop_first(), b);
        assert(encode_utf8(a + b) =~= encode_utf8(a) + encode_utf8(b));
    }
}

/// An ASCII byte in encoded text is that ASCII character in the text.
pub proof fn ascii_bytes_are_chars(chars: Seq<char>, b: u8)
    requires
        b < 0x80,
        encode_utf8(chars).contains(b),
    ensures
        chars.contains(b as char),
    decreases chars.len(),
{
    let all = encode_utf8(chars);
    if chars.len() > 0 {
        let head = encode_scalar(chars[0] as u32);
        let rest = encode_utf8(chars.drop_first());
        let i = choose|i: int| 0 <= i < all.len() && all[i] == b;
        wide_bytes(chars[0] as u32);
        if i < head.len() {
            assert(head[i] == b);
            let c = chars[0];
            char_is_scalar(c);
            if !has_width_1_encoding(c as u32) {
                assert(head[0] >= 0x80);
                assert(i == 0 || i == 1 || i == 2 || i == 3);
                assert(head[i] >= 0x80);
            }
            assert(c as u32 == b);
            char_u32_cast(c, b as u32);
        } else {
            assert(rest[i - head.len()] == b);
            assert(rest.contains(b));
            ascii_bytes_are_chars(chars.drop_first(), b);
            let k = choose|k: int|
                0 <= k < chars.drop_first().len() && chars.drop_first()[k] == b as char;
            assert(chars[k + 1] == b as char);
        }
    }
}

/// What a hexadecimal digit stands for.
pub open spec fn hex_value(c: char) -> int {
    if c <= '9' {
        c as int - 0x30
    } else {
        c as int - 0x57
    }
}

/// The bytes that an escaped form stands for: `\\`, `\n`, `\t` and `\xNN` for one
/// byte each, any other character for its UTF-8.
pub open spec fn read_back(t: Seq<char>) -> Seq<u8>
    decreases t.len(),
{
    if t.len() == 0 {
        Seq::empty()
    } else if t.len() >= 2 && t[0] == '\\' && t[1] == '\\' {
        seq![0x5cu8] + read_back(t.skip(2))
    } else if t.len() >= 2 && t[0] == '\\' && t[1] == 'n' {
        seq![0x0au8] + read_back(t.skip(2))
    } else if t.len() >= 2 && t[0] == '\\' && t[1] == 't' {
        seq![0x09u8] + read_back(t.skip(2))
    } else if t.len() >= 4 && t[0] == '\\' && t[1] == 'x' {
        seq![(16 * hex_value(t[2]) + hex_value(t[3])) as u8] + read_back(t.skip(4))
    } else {
        encode_scalar(t[0] as u32) + read_back(t.skip(1))
    }
}

/// No character of valid UTF-8 in `b` is one of C1.
pub open spec fn free_of_c1(b: Seq<u8>) -> bool
    decreases b.len(),
{
    if b.len() == 0 {
        true
    } else if valid_first_scalar(b) {
        !(0x80 <= decode_first_scalar(b) <= 0x9f) && free_of_c1(pop_first_scalar(b))
    } else {
        free_of_c1(b.skip(1))
    }
}

proof fn hex_reads_back(b: u8, rest: Seq<char>)
    ensures
        read_back(hex_escape(b as int) + rest) == seq![b] + read_back(rest),
{
    let t = hex_escape(b as int) + rest;
    let hi = hex_digit(b as int / 16);
    let lo = hex_digit(b as int % 16);
    assert(hex_value(hi) == b as int / 16);
    assert(hex_value(lo) == b as int % 16);
    assert(t[0] == '\\' && t[1] == 'x' && t[2] == hi && t[3] == lo);
    assert(t.skip(4) =~= rest);
}

/// The bytes of the first character are its UTF-8.
proof fn first_scalar_encodes(b: Seq<u8>)
    requires
        b.len() > 0,
        valid_first_scalar(b),
    ensures
        ({
            let c = decode_first_scalar(b) as char;
            &&& c as u32 == decode_first_scalar(b)
            &&& encode_scalar(c as u32) + pop_first_scalar(b) == b
        }),
{
    let w = length_of_first_scalar(b);
    let t = b.take(w);
    let c = decode_first_scalar(b) as char;
    window_is_first_scalar(b, w);
    decode_utf8_encode_utf8(t);
    assert(decode_utf8(t) == seq![c]);
    assert(seq![c].drop_first() =~= Seq::<char>::empty());
    reveal_with_fuel(encode_utf8, 2);
    assert(encode_utf8(seq![c]) =~= encode_scalar(c as u32));
    encode_utf8_first_scalar(seq![c]);
    assert(decode_first_scalar(t) == decode_first_scalar(b)) by {
        assert(t[0] == b[0]);
        if w >= 2 {
            assert(t[1] == b[1]);
        }
        if w >= 3 {
            assert(t[2] == b[2]);
        }
        if w >= 4 {
            assert(t[3] == b[3]);
        }
    }
    assert(t + pop_first_scalar(b) =~= b);
}

proof fn shown_reads_back(c: char, rest: Seq<char>)
    requires
        !(0x80 <= c as u32 <= 0x9f),
    ensures
        read_back(shown(c) + rest) == encode_scalar(c as u32) + read_back(rest),
{
    let t = shown(c) + rest;
    wide_bytes(c as u32);
    if c == '\\' || c == '\n' || c == '\t' {
        assert(t.skip(2) =~= rest);
        assert(t[0] == '\\');
        assert(encode_scalar(c as u32) =~= seq![c as u8]);
    } else if control(c) {
        hex_reads_back(c as u8, rest);
        assert(encode_scalar(c as u32) =~= seq![c as u8]);
    } else {
        assert(t[0] == c);
        assert(t.skip(1) =~= rest);
    }
}

/// Nothing is lost in escaping: without C1 characters a name can be read back
/// from its escaped form.
pub proof fn escaped_reads_back(b: Seq<u8>)
    requires
        free_of_c1(b),
    ensures
        read_back(escaped(b)) == b,
    decreases b.len(),
{
    if b.len() > 0 {
        if valid_first_scalar(b) {
            let c = decode_first_scalar(b) as char;
            let rest = pop_first_scalar(b);
            escaped_reads_back(rest);
            first_scalar_encodes(b);
            shown_reads_back(c, escaped(rest));
        } else {
            escaped_reads_back(b.skip(1));
            hex_reads_back(b[0], escaped(b.skip(1)));
            assert(seq![b[0]] + b.skip(1) =~= b);
        }
    }
}

/// Two names with one escaped form are the same name, C1 characters aside.
pub proof fn escape_is_injective(a: Seq<u8>, b: Seq<u8>)
    requires
        free_of_c1(a),
        free_of_c1(b),
        escaped(a) == escaped(b),
    ensures
        a == b,
{
    escaped_reads_back(a);
    escaped_reads_back(b);
}

/// A name in valid UTF-8 without backslashes and control characters is shown as
/// it is.
pub proof fn plain_names_stay(b: Seq<u8>)
    requires
        valid_utf8(b),
        forall|i: int|
            0 <= i < decode_utf8(b).len() ==> (#[trigger] decode_utf8(b)[i]) != '\\' && !control(
                decode_utf8(b)[i],
            ),
    ensures
        escaped(b) == decode_utf8(b),
        encode_utf8(escaped(b)) == b,
    decreases b.len(),
{
    decode_utf8_encode_utf8(b);
    if b.len() > 0 {
        let all = decode_utf8(b);
        let rest = decode_utf8(pop_first_scalar(b));
        assert(all == seq![decode_first_scalar(b) as char] + rest);
        assert(all[0] == decode_first_scalar(b) as char);
        assert forall|i: int| 0 <= i < rest.len() implies (#[trigger] rest[i]) != '\\' && !control(
            rest[i],
        ) by {
            assert(rest[i] == all[i + 1]);
        }
        plain_names_stay(pop_first_scalar(b));
    }
}

/// A name in valid UTF-8 is shown character by character: a backslash twice, a
/// newline and a tab by their letters, every other control character by its
/// number in two hexadecimal digits, and any other character as it is.
pub proof fn each_character_is_shown(name: Seq<char>, c: char)
    ensures
        ({
            let digits = seq![
                '0', '1', '2', '3', '4', '5', '6', '7', '8', '9', 'a', 'b', 'c', 'd', 'e', 'f',
            ];
            escaped(encode_utf8(name.push(c))) == escaped(encode_utf8(name)) + (if c == '\\' {
                seq!['\\', '\\']
            } else if c == '\n' {
                seq!['\\', 'n']
            } else if c == '\t' {
                seq!['\\', 't']
            } else if (c as u32) < 0x20 || 0x7f <= c as u32 <= 0x9f {
                seq!['\\', 'x', digits[c as int / 16], digits[c as int % 16]]
            } else {
                seq![c]
            })
        }),
        escaped(Seq::<u8>::empty()) == Seq::<char>::empty(),
{
    let digits = seq![
        '0', '1', '2', '3', '4', '5', '6', '7', '8', '9', 'a', 'b', 'c', 'd', 'e', 'f',
    ];
    characters_go_one_by_one(name, c);
    if (c as u32) < 0x20 || 0x7f <= c as u32 <= 0x9f {
        let hi = c as int / 16;
        let lo = c as int % 16;
        assert(hex_digit(hi) == digits[hi]);
        assert(hex_digit(lo) == digits[lo]);
    }
}

proof fn first_character_is_shown(chars: Seq<char>)
    requires
        chars.len() > 0,
    ensures
        escaped(encode_utf8(chars)) == shown(chars[0]) + escaped(encode_utf8(chars.drop_first())),
{
    let b = encode_utf8(chars);
    encode_utf8_first_scalar(chars);
    char_is_scalar(chars[0]);
    char_u32_cast(chars[0], decode_first_scalar(b));
    assert(pop_first_scalar(b) =~= encode_utf8(chars.drop_first()));
    assert(b.len() > 0);
}

proof fn characters_go_one_by_one(name: Seq<char>, c: char)
    ensures
        escaped(encode_utf8(name.push(c))) == escaped(encode_utf8(name)) + shown(c),
    decreases name.len(),
{
    let all = name.push(c);
    first_character_is_shown(all);
    if name.len() > 0 {
        first_character_is_shown(name);
        characters_go_one_by_one(name.drop_first(), c);
        assert(all.drop_first() =~= name.drop_first().push(c));
        assert(escaped(encode_utf8(all)) =~= escaped(encode_utf8(name)) + shown(c));
    } else {
        assert(all.drop_first() =~= Seq::<char>::empty());
        assert(name =~= Seq::<char>::empty());
        assert(encode_utf8(name) =~= Seq::<u8>::empty());
        assert(escaped(encode_utf8(all)) =~= escaped(encode_utf8(name)) + shown(c));
    }
}

/// A byte that begins no character of UTF-8 is shown by its number in two
/// hexadecimal digits, and what follows it is shown for itself.
pub proof fn a_stray_byte_is_shown_by_its_number(b: Seq<u8>)
    requires
        b.len() > 0,
        !valid_first_scalar(b),
    ensures
        ({
            let digits = seq![
                '0', '1', '2', '3', '4', '5', '6', '7', '8', '9', 'a', 'b', 'c', 'd', 'e', 'f',
            ];
            escaped(b) == seq!['\\', 'x', digits[b[0] as int / 16], digits[b[0] as int % 16]]
                + escaped(b.skip(1))
        }),
{
    let digits = seq![
        '0', '1', '2', '3', '4', '5', '6', '7', '8', '9', 'a', 'b', 'c', 'd', 'e', 'f',
    ];
    let hi = b[0] as int / 16;
    let lo = b[0] as int % 16;
    assert(hex_digit(hi) == digits[hi]);
    assert(hex_digit(lo) == digits[lo]);
}

fn hex_char(n: u8) -> (c: char)
    requires
        n < 16,
    ensures
        c == hex_digit(n as int),
{
    match n {
        10 => 'a',
        11 => 'b',
        12 => 'c',
        13 => 'd',
        14 => 'e',
        15 => 'f',
        _ => digit_char(n as u64),
    }
}

fn push_hex(out: &mut String, b: u8)
    ensures
        final(out)@ == old(out)@ + hex_escape(b as int),
{
    out.push('\\');
    out.push('x');
    out.push(hex_char(b / 16));
    out.push(hex_char(b % 16));
}

/// The number of bytes that a character's first byte announces.
fn width(lead: u8) -> (w: usize)
    ensures
        is_leading_byte_width_1(lead) ==> w == 1,
        is_leading_byte_width_2(lead) ==> w == 2,
        is_leading_byte_width_3(lead) ==> w == 3,
        is_leading_byte_width_4(lead) ==> w == 4,
        1 <= w <= 4,
{
    if lead < 0xc0 {
        1
    } else if lead < 0xe0 {
        2
    } else if lead < 0xf0 {
        3
    } else {
        4
    }
}

/// A stretch of the announced width is valid UTF-8 just where the bytes begin
/// with a character, and then it is that character.
proof fn window_is_first_scalar(b: Seq<u8>, w: int)
    requires
        1 <= w <= b.len(),
        is_leading_byte_width_1(b[0]) ==> w == 1,
        is_leading_byte_width_2(b[0]) ==> w == 2,
        is_leading_byte_width_3(b[0]) ==> w == 3,
        is_leading_byte_width_4(b[0]) ==> w == 4,
    ensures
        valid_utf8(b.take(w)) <==> valid_first_scalar(b),
        valid_first_scalar(b) ==> length_of_first_scalar(b) == w && decode_utf8(b.take(w)) == seq![
            decode_first_scalar(b) as char,
        ],
{
    let t = b.take(w);
    assert(t[0] == b[0]);
    if w >= 2 {
        assert(t[1] == b[1]);
    }
    if w >= 3 {
        assert(t[2] == b[2]);
    }
    if w >= 4 {
        assert(t[3] == b[3]);
    }
    if valid_first_scalar(b) {
        assert(valid_first_scalar(t));
        assert(pop_first_scalar(t) =~= Seq::<u8>::empty());
        reveal_with_fuel(valid_utf8, 2);
        reveal_with_fuel(decode_utf8, 2);
        assert(decode_utf8(t) =~= seq![decode_first_scalar(b) as char]);
    } else {
        assert(!valid_first_scalar(t));
    }
}

/// Writes control characters as `\n`, `\t` and `\xNN`, invalid UTF-8 as `\xNN`
/// and a backslash as `\\`. Every name from outside goes through here before
/// it reaches a terminal.
pub fn escape(b: &[u8]) -> (out: String)
    ensures
        out@ == escaped(b@),
{
    let mut out = String::new();
    let mut i: usize = 0;
    assert(b@.skip(0) =~= b@);
    while i < b.len()
        invariant
            i <= b.len(),
            out@ + escaped(b@.skip(i as int)) =~= escaped(b@),
        decreases b.len() - i,
    {
        let ghost rest = b@.skip(i as int);
        let w: usize = width(b[i]);
        let mut done = false;
        if w <= b.len() - i {
            let part = slice_subrange(b, i, i + w);
            assert(part@ =~= rest.take(w as int));
            proof {
                window_is_first_scalar(rest, w as int);
            }
            if let Some(s) = from_utf8(part) {
                proof {
                    encode_utf8_decode_utf8(s@);
                }
                let c: char = s.get_char(0);
                assert(c == decode_first_scalar(rest) as char);
                if c == '\\' {
                    out.push('\\');
                    out.push('\\');
                } else if c == '\n' {
                    out.push('\\');
                    out.push('n');
                } else if c == '\t' {
                    out.push('\\');
                    out.push('t');
                } else if (c as u32) < 0x20 || (0x7f <= c as u32 && c as u32 <= 0x9f) {
                    push_hex(&mut out, (c as u32) as u8);
                } else {
                    out.push(c);
                }
                assert(pop_first_scalar(rest) =~= b@.skip(i + w));
                i = i + w;
                done = true;
            }
        }
        if !done {
            assert(!valid_first_scalar(rest)) by {
                if valid_first_scalar(rest) {
                    assert(w > rest.len());
                }
            }
            push_hex(&mut out, b[i]);
            assert(rest.skip(1) =~= b@.skip(i + 1));
            i = i + 1;
        }
    }
    out
}

// ---------------------------------------------------------------------------
// Sizes
// ---------------------------------------------------------------------------

/// `num / den` to the nearest whole number, a tie to the even one.
pub open spec fn half_even(num: nat, den: nat) -> nat {
    let q = num / den;
    let r = num % den;
    if 2 * r > den || (2 * r == den && q % 2 == 1) {
        q + 1
    } else {
        q
    }
}

/// The step between numbers of the size of `n` that carry 53 significant bits.
pub open spec fn step53(n: nat) -> nat
    decreases n,
{
    if n < 0x20_0000_0000_0000 {
        1
    } else {
        2 * step53(n / 2)
    }
}

/// `n` with 53 significant bits, as much as a double holds.
pub open spec fn to53(n: nat) -> nat {
    half_even(n, step53(n)) * step53(n)
}

/// `1024` to the power `k`.
pub open spec fn kib(k: nat) -> nat
    decreases k,
{
    if k == 0 {
        1
    } else {
        1024 * kib((k - 1) as nat)
    }
}

/// The unit a size is shown in: 0 for bytes, up to 5 for pebibytes.
pub open spec fn unit_of(n: nat) -> nat {
    if n < kib(1) {
        0
    } else if n < kib(2) {
        1
    } else if n < kib(3) {
        2
    } else if n < kib(4) {
        3
    } else if n < kib(5) {
        4
    } else {
        5
    }
}

/// The unit's name.
pub open spec fn unit_name(u: nat) -> Seq<char> {
    if u == 0 {
        " B"@
    } else if u == 1 {
        " KiB"@
    } else if u == 2 {
        " MiB"@
    } else if u == 3 {
        " GiB"@
    } else if u == 4 {
        " TiB"@
    } else {
        " PiB"@
    }
}

/// A size in its unit, to a tenth; whole bytes below 1024.
pub open spec fn human_text(n: nat) -> Seq<char> {
    let u = unit_of(n);
    if u == 0 {
        decimal(n) + unit_name(0)
    } else {
        let tenths = half_even(10 * to53(n), kib(u));
        decimal(tenths / 10) + seq!['.', digit((tenths % 10) as int)] + unit_name(u)
    }
}

fn step53_of(n: u64) -> (p: u64)
    ensures
        p == step53(n as nat),
        1 <= p,
        n / p < 0x20_0000_0000_0000,
        n >= 0x20_0000_0000_0000 ==> p <= n,
        p <= 2048,
    decreases n,
{
    if n < 0x20_0000_0000_0000 {
        1
    } else {
        proof {
            step53_bound(n as nat);
            step53_bound((n / 2) as nat);
        }
        let h: u64 = step53_of(n / 2);
        assert(n as int / (2 * h as int) == (n as int / 2) / h as int) by {
            vstd::arithmetic::div_mod::lemma_div_denominator(n as int, 2, h as int);
        }
        2 * h
    }
}

proof fn step53_bound(n: nat)
    requires
        n <= u64::MAX,
    ensures
        step53(n) <= 2048,
{
    reveal_with_fuel(step53, 13);
    assert(n / 2 / 2 / 2 / 2 / 2 / 2 / 2 / 2 / 2 / 2 / 2 < 0x20_0000_0000_0000);
}

fn half_even_of(num: u128, den: u128) -> (r: u128)
    requires
        1 <= den < 0x1_0000_0000_0000_0000,
        num < 0x1_0000_0000_0000_0000_0000,
    ensures
        r == half_even(num as nat, den as nat),
{
    let q: u128 = num / den;
    let rem: u128 = num % den;
    assert(rem < den);
    assert(q <= num) by (nonlinear_arith)
        requires
            q == num / den,
            den >= 1,
    ;
    if 2 * rem > den || (2 * rem == den && q % 2 == 1) {
        q + 1
    } else {
        q
    }
}

/// Binary sizes, such as `1.2 GiB`.
pub fn human(n: u64) -> (s: String)
    ensures
        s@ == human_text(n as nat),
{
    proof {
        reveal_with_fuel(kib, 6);
    }
    let (u, den): (usize, u128) = if n < 1024 {
        (0, 1)
    } else if n < 1048576 {
        (1, 1024)
    } else if n < 1073741824 {
        (2, 1048576)
    } else if n < 1099511627776 {
        (3, 1073741824)
    } else if n < 1125899906842624 {
        (4, 1099511627776)
    } else {
        (5, 1125899906842624)
    };
    assert(u == unit_of(n as nat));
    assert(den == kib(u as nat));
    let mut s: String;
    if u == 0 {
        s = number(n);
        s.append(" B");
        return s;
    }
    let p: u64 = step53_of(n);
    let q: u128 = half_even_of(n as u128, p as u128);
    assert(q <= 0x20_0000_0000_0000);
    assert(q * p <= 0x20_0000_0000_0000 * 2048) by (nonlinear_arith)
        requires
            q <= 0x20_0000_0000_0000,
            p <= 2048,
    ;
    let m: u128 = q * (p as u128);
    let tenths: u128 = half_even_of(10 * m, den);
    assert(tenths / 10 <= u64::MAX) by {
        assert((10 * m) / den as int <= 10 * m) by (nonlinear_arith)
            requires
                den >= 1,
                m >= 0,
        ;
        tenths_fit(m as int, den as int);
    }
    s = number((tenths / 10) as u64);
    s.push('.');
    s.push(digit_char((tenths % 10) as u64));
    if u == 1 {
        s.append(" KiB");
    } else if u == 2 {
        s.append(" MiB");
    } else if u == 3 {
        s.append(" GiB");
    } else if u == 4 {
        s.append(" TiB");
    } else {
        s.append(" PiB");
    }
    s
}

proof fn tenths_fit(m: int, den: int)
    requires
        0 <= m <= 0x20_0000_0000_0000 * 2048,
        den >= 1024,
    ensures
        half_even((10 * m) as nat, den as nat) <= u64::MAX,
{
    assert((10 * m) / den <= (10 * m) / 1024) by {
        vstd::arithmetic::div_mod::lemma_div_is_ordered_by_denominator(10 * m, 1024, den);
    }
}

proof fn half_even_is_near(num: nat, den: nat)
    requires
        den > 0,
    ensures
        2 * (num - half_even(num, den) * den) <= den,
        2 * (half_even(num, den) * den - num) <= den,
{
    let q = num / den;
    let r = num % den;
    vstd::arithmetic::div_mod::lemma_fundamental_div_mod(num as int, den as int);
    assert(q * den == den * q) by (nonlinear_arith);
    assert((q + 1) * den == q * den + den) by (nonlinear_arith);
}

proof fn near_itself(n: nat)
    requires
        n <= u64::MAX,
    ensures
        n < 0x20_0000_0000_0000 ==> to53(n) == n,
        n - 1024 <= to53(n) <= n + 1024,
{
    let p = step53(n);
    step53_bound(n);
    step_is_positive(n);
    half_even_is_near(n, p);
    if n < 0x20_0000_0000_0000 {
        assert(n / 1 == n && n % 1 == 0);
    }
}

proof fn step_is_positive(n: nat)
    ensures
        step53(n) >= 1,
    decreases n,
{
    if n >= 0x20_0000_0000_0000 {
        step_is_positive(n / 2);
    }
}

/// A size is shown in the largest unit of which it is at least one, to the
/// nearest tenth; below a kibibyte as a whole number of bytes. Past what a double
/// holds exactly, the rounding to a double comes on top.
pub proof fn a_size_is_shown_to_a_tenth(n: u64)
    ensures
        n < 1024 ==> human_text(n as nat) == decimal(n as nat) + " B"@,
        n >= 1024 ==> exists|tenths: nat|
            ({
                let (unit, name) = if n < 1048576 {
                    (1024int, " KiB"@)
                } else if n < 1073741824 {
                    (1048576, " MiB"@)
                } else if n < 1099511627776 {
                    (1073741824, " GiB"@)
                } else if n < 1125899906842624 {
                    (1099511627776, " TiB"@)
                } else {
                    (1125899906842624, " PiB"@)
                };
                let slack: int = if n < 0x20_0000_0000_0000 {
                    0
                } else {
                    20480
                };
                &&& -(unit + slack) <= 2 * (10 * n - tenths * unit) <= unit + slack
                &&& human_text(n as nat) == #[trigger] decimal(tenths / 10) + seq!['.']
                    + decimal(tenths % 10) + name
            }),
{
    reveal_with_fuel(kib, 6);
    if n >= 1024 {
        let u = unit_of(n as nat);
        let den = kib(u);
        let m = to53(n as nat);
        let tenths = half_even(10 * m, den);
        near_itself(n as nat);
        half_even_is_near(10 * m, den);
        assert(decimal(tenths % 10) =~= seq![digit((tenths % 10) as int)]);
        assert(human_text(n as nat) =~= decimal(tenths / 10) + seq!['.'] + decimal(tenths % 10)
            + unit_name(u));
    }
}

} // verus!
