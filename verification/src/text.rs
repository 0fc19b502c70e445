//! Text: characters, white space, numbers.

use vstd::prelude::*;
use vstd::utf8::{
    decode_first_scalar, encode_scalar, encode_utf8, encode_utf8_decode_utf8,
    encode_utf8_first_scalar,
};
use crate::bytes::same;

verus! {

/// `String::push`: appends one character.
pub assume_specification[ String::push ](s: &mut String, ch: char)
    ensures
        final(s)@ == old(s)@.push(ch),
;

/// The texts of a list.
pub open spec fn texts(v: Seq<String>) -> Seq<Seq<char>> {
    Seq::new(v.len(), |i: int| v[i]@)
}

/// The characters that count as white space: Unicode's `White_Space`.
pub open spec fn white(c: char) -> bool {
    let u = c as u32;
    ||| 0x09 <= u <= 0x0d
    ||| u == 0x20
    ||| u == 0x85
    ||| u == 0xa0
    ||| u == 0x1680
    ||| 0x2000 <= u <= 0x200a
    ||| u == 0x2028
    ||| u == 0x2029
    ||| u == 0x202f
    ||| u == 0x205f
    ||| u == 0x3000
}

/// Whether `c` is white space.
pub fn is_white(c: char) -> (r: bool)
    ensures
        r == white(c),
{
    let u: u32 = c as u32;
    (u >= 0x09 && u <= 0x0d) || u == 0x20 || u == 0x85 || u == 0xa0 || u == 0x1680 || (u >= 0x2000
        && u <= 0x200a) || u == 0x2028 || u == 0x2029 || u == 0x202f || u == 0x205f || u == 0x3000
}

/// The characters of `s`.
pub fn chars_of(s: &str) -> (out: Vec<char>)
    ensures
        out@ == s@,
{
    let mut out: Vec<char> = Vec::new();
    for c in it: s.chars()
        invariant
            out@ == it.seq().take(it.index()),
            it.seq() == s@,
    {
        out.push(c);
        assert(it.seq().take(it.index() + 1) =~= it.seq().take(it.index()).push(c));
    }
    assert(out@ =~= s@);
    out
}

/// The text made of `chars[from..to]`.
pub fn text_of(chars: &Vec<char>, from: usize, to: usize) -> (out: String)
    requires
        from <= to <= chars.len(),
    ensures
        out@ == chars@.subrange(from as int, to as int),
{
    let mut out = String::new();
    let mut i: usize = from;
    assert(out@ =~= chars@.subrange(from as int, from as int));
    while i < to
        invariant
            from <= i <= to <= chars.len(),
            out@ == chars@.subrange(from as int, i as int),
        decreases to - i,
    {
        out.push(chars[i]);
        assert(chars@.subrange(from as int, i + 1) =~= chars@.subrange(from as int, i as int).push(
            chars@[i as int],
        ));
        i = i + 1;
    }
    out
}

/// Appends the text `tail` to `out`.
pub fn push_text(out: &mut String, tail: &str)
    ensures
        final(out)@ == old(out)@ + tail@,
{
    let chars = chars_of(tail);
    let mut i: usize = 0;
    assert(out@ =~= old(out)@ + chars@.take(0));
    while i < chars.len()
        invariant
            i <= chars.len(),
            out@ == old(out)@ + chars@.take(i as int),
        decreases chars.len() - i,
    {
        out.push(chars[i]);
        assert(chars@.take(i + 1) =~= chars@.take(i as int).push(chars@[i as int]));
        i = i + 1;
    }
    assert(chars@.take(i as int) =~= tail@);
}

/// `s` without the white space around it.
pub open spec fn trimmed(s: Seq<char>) -> Seq<char>
    decreases s.len(),
{
    if s.len() == 0 {
        s
    } else if white(s[0]) {
        trimmed(s.skip(1))
    } else if white(s.last()) {
        trimmed(s.drop_last())
    } else {
        s
    }
}

/// The bounds in `chars[from..to]` of what is left without the white space
/// around it.
pub fn trim_bounds(chars: &Vec<char>, from: usize, to: usize) -> (r: (usize, usize))
    requires
        from <= to <= chars.len(),
    ensures
        from <= r.0 <= r.1 <= to,
        chars@.subrange(r.0 as int, r.1 as int) == trimmed(
            chars@.subrange(from as int, to as int),
        ),
{
    let mut a: usize = from;
    let mut b: usize = to;
    while a < b && is_white(chars[a])
        invariant
            from <= a <= b == to <= chars.len(),
            trimmed(chars@.subrange(a as int, b as int)) == trimmed(
                chars@.subrange(from as int, to as int),
            ),
        decreases b - a,
    {
        let ghost s = chars@.subrange(a as int, b as int);
        assert(s[0] == chars@[a as int]);
        assert(s.skip(1) =~= chars@.subrange(a + 1, b as int));
        a = a + 1;
    }
    while a < b && is_white(chars[b - 1])
        invariant
            from <= a <= b <= to <= chars.len(),
            a < b ==> !white(chars@[a as int]),
            trimmed(chars@.subrange(a as int, b as int)) == trimmed(
                chars@.subrange(from as int, to as int),
            ),
        decreases b - a,
    {
        let ghost s = chars@.subrange(a as int, b as int);
        assert(s[0] == chars@[a as int]);
        assert(s.last() == chars@[b - 1]);
        assert(s.drop_last() =~= chars@.subrange(a as int, b - 1));
        b = b - 1;
    }
    let ghost s = chars@.subrange(a as int, b as int);
    proof {
        if a < b {
            assert(s[0] == chars@[a as int]);
            assert(s.last() == chars@[b - 1]);
        }
    }
    (a, b)
}

/// The decimal digit of value `d`.
pub open spec fn digit(d: nat) -> char {
    (0x30 + d) as char
}

/// `n` in decimal.
pub open spec fn decimal(n: nat) -> Seq<char>
    decreases n,
{
    if n < 10 {
        seq![digit(n)]
    } else {
        decimal(n / 10).push(digit(n % 10))
    }
}

/// Appends `n` in decimal to `out`.
pub fn push_number(out: &mut String, n: u64)
    ensures
        final(out)@ == old(out)@ + decimal(n as nat),
    decreases n,
{
    if n >= 10 {
        push_number(out, n / 10);
    }
    let ghost before = out@;
    let d: u8 = 0x30 + (n % 10) as u8;
    out.push(d as char);
    proof {
        assert(d as char == digit((n % 10) as nat));
        if n < 10 {
            assert(out@ =~= old(out)@ + decimal(n as nat));
        } else {
            assert(out@ =~= old(out)@ + decimal((n / 10) as nat).push(digit((n % 10) as nat)));
        }
    }
}

/// `c` is a decimal digit.
pub open spec fn is_digit(c: char) -> bool {
    '0' <= c <= '9'
}

/// The number that a run of decimal digits stands for.
pub open spec fn digits_value(s: Seq<char>) -> nat
    decreases s.len(),
{
    if s.len() == 0 {
        0
    } else {
        digits_value(s.drop_last()) * 10 + (s.last() as u32 - 0x30) as nat
    }
}

/// Every character is a decimal digit.
pub open spec fn all_digits(s: Seq<char>) -> bool {
    forall|i: int| 0 <= i < s.len() ==> is_digit(#[trigger] s[i])
}

/// What is left of a number without its plus sign.
pub open spec fn unsigned(s: Seq<char>) -> Seq<char> {
    if s.len() > 0 && s[0] == '+' {
        s.skip(1)
    } else {
        s
    }
}

/// The number written in `s`, at most `max`: decimal digits, with an optional
/// plus sign in front.
pub open spec fn number(s: Seq<char>, max: nat) -> Option<nat> {
    let d = unsigned(s);
    if d.len() > 0 && all_digits(d) && digits_value(d) <= max {
        Some(digits_value(d))
    } else {
        None
    }
}

/// A longer run of digits does not stand for less.
proof fn lemma_digits_grow(s: Seq<char>, k: int)
    requires
        0 <= k <= s.len(),
    ensures
        digits_value(s.take(k)) <= digits_value(s),
    decreases s.len(),
{
    if k < s.len() {
        lemma_digits_grow(s.drop_last(), k);
        assert(s.drop_last().take(k) =~= s.take(k));
    } else {
        assert(s.take(k) =~= s);
    }
}

/// The number written in `chars[from..to]`, at most `max`.
pub fn parse_number(chars: &Vec<char>, from: usize, to: usize, max: u64) -> (r: Option<u64>)
    requires
        from <= to <= chars.len(),
    ensures
        match r {
            Some(n) => number(chars@.subrange(from as int, to as int), max as nat) == Some(
                n as nat,
            ),
            None => number(chars@.subrange(from as int, to as int), max as nat) is None,
        },
{
    let ghost s = chars@.subrange(from as int, to as int);
    let start: usize = if from < to && chars[from] == '+' {
        from + 1
    } else {
        from
    };
    let ghost d = chars@.subrange(start as int, to as int);
    proof {
        if from < to {
            assert(s[0] == chars@[from as int]);
        }
        if s.len() > 0 && s[0] == '+' {
            assert(s.skip(1) =~= d);
        } else {
            assert(s =~= d);
        }
        assert(d == unsigned(s));
    }
    if start == to {
        return None;
    }
    let mut value: u64 = 0;
    let mut i: usize = start;
    while i < to
        invariant
            start <= i <= to <= chars.len(),
            d == chars@.subrange(start as int, to as int),
            d.len() > 0,
            s == chars@.subrange(from as int, to as int),
            d == unsigned(s),
            forall|k: int| 0 <= k < i - start ==> is_digit(#[trigger] d[k]),
            value == digits_value(d.take(i - start)),
            value <= max,
        decreases to - i,
    {
        let c = chars[i];
        let ghost k = i - start;
        assert(d[k] == c);
        if !(c >= '0' && c <= '9') {
            return None;
        }
        let add: u64 = (c as u32 - 0x30) as u64;
        proof {
            assert(d.take(k + 1).drop_last() =~= d.take(k));
            assert(d.take(k + 1).last() == c);
            lemma_digits_grow(d, k + 1);
            assert(digits_value(d.take(k + 1)) == value * 10 + add);
        }
        if add > max || value > (max - add) / 10 {
            return None;
        }
        value = value * 10 + add;
        i = i + 1;
    }
    assert(d.take(i - start) =~= d);
    Some(value)
}

/// The same text.
pub fn same_text(a: &str, b: &str) -> (r: bool)
    ensures
        r == (a@ == b@),
{
    let r = same(a.as_bytes(), b.as_bytes());
    proof {
        encode_utf8_decode_utf8(a@);
        encode_utf8_decode_utf8(b@);
    }
    r
}

/// Is `s` one of `list`?
pub fn has_text(list: &Vec<String>, s: &str) -> (r: bool)
    ensures
        r == texts(list@).contains(s@),
{
    let mut i: usize = 0;
    while i < list.len()
        invariant
            i <= list.len(),
            forall|k: int| 0 <= k < i ==> #[trigger] texts(list@)[k] != s@,
        decreases list.len() - i,
    {
        if same_text(list[i].as_str(), s) {
            assert(texts(list@)[i as int] == s@);
            return true;
        }
        i = i + 1;
    }
    false
}

/// Text without white space at its ends is left alone.
pub proof fn lemma_trimmed_same(s: Seq<char>)
    requires
        s.len() > 0 ==> !white(s[0]) && !white(s.last()),
    ensures
        trimmed(s) == s,
{
}

/// Leading white space does not count.
pub proof fn lemma_trimmed_lead(s: Seq<char>, c: char)
    requires
        white(c),
    ensures
        trimmed(seq![c] + s) == trimmed(s),
{
    assert((seq![c] + s).skip(1) =~= s);
}

/// Nor does trailing white space.
pub proof fn lemma_trimmed_trail(s: Seq<char>, c: char)
    requires
        white(c),
    ensures
        trimmed(s.push(c)) == trimmed(s),
    decreases s.len(),
{
    let t = s.push(c);
    assert(t.drop_last() =~= s);
    if s.len() == 0 {
        assert(t.skip(1) =~= s);
    } else if white(s[0]) {
        lemma_trimmed_trail(s.skip(1), c);
        assert(t.skip(1) =~= s.skip(1).push(c));
    }
}

/// No white space at either end.
pub open spec fn is_trimmed(s: Seq<char>) -> bool {
    s.len() > 0 ==> !white(s[0]) && !white(s.last())
}

/// What trimming leaves has no white space at either end.
pub proof fn lemma_is_trimmed(s: Seq<char>)
    ensures
        is_trimmed(trimmed(s)),
    decreases s.len(),
{
    if s.len() == 0 {
    } else if white(s[0]) {
        lemma_is_trimmed(s.skip(1));
    } else if white(s.last()) {
        lemma_is_trimmed(s.drop_last());
    }
}

/// Trimming keeps only what was there.
pub proof fn lemma_trimmed_from(s: Seq<char>, c: char)
    requires
        trimmed(s).contains(c),
    ensures
        s.contains(c),
    decreases s.len(),
{
    if s.len() == 0 {
    } else if white(s[0]) {
        lemma_trimmed_from(s.skip(1), c);
        let i = choose|i: int| 0 <= i < s.skip(1).len() && s.skip(1)[i] == c;
        assert(s[i + 1] == c);
    } else if white(s.last()) {
        lemma_trimmed_from(s.drop_last(), c);
        let i = choose|i: int| 0 <= i < s.drop_last().len() && s.drop_last()[i] == c;
        assert(s[i] == c);
    }
}

/// Decimal digits are read back as the number they were written from.
pub proof fn lemma_decimal(n: nat)
    ensures
        decimal(n).len() > 0,
        all_digits(decimal(n)),
        digits_value(decimal(n)) == n,
    decreases n,
{
    reveal_with_fuel(digits_value, 2);
    if n < 10 {
        assert(decimal(n).drop_last() =~= Seq::<char>::empty());
    } else {
        lemma_decimal(n / 10);
        assert(decimal(n).drop_last() =~= decimal(n / 10));
    }
}

/// A written number is a number.
pub proof fn lemma_number_of_decimal(n: nat, max: nat)
    requires
        n <= max,
    ensures
        number(decimal(n), max) == Some(n),
        is_trimmed(decimal(n)),
{
    lemma_decimal(n);
    let d = decimal(n);
    assert(is_digit(d[0]));
    assert(is_digit(d.last()));
}

// What is white space, and what trimming takes away.

/// Blank, tab and the other characters that end a line or a word are white
/// space; no other ASCII character is, so no letter, digit or mark, and none of
/// the other controls.
pub proof fn ascii_white_space(c: char)
    ensures
        (c as u32) < 0x80 ==> (white(c) <==> c == ' ' || c == '\t' || c == '\n' || c == '\r' || c
            == '\u{b}' || c == '\u{c}'),
        'a' <= c <= 'z' || 'A' <= c <= 'Z' || '0' <= c <= '9' || '!' <= c <= '~' ==> !white(c),
{
}

/// Beyond ASCII there are just the spaces and separators that Unicode lists.
pub proof fn other_white_space(c: char)
    ensures
        (c as u32) >= 0x80 ==> (white(c) <==> c == '\u{85}' || c == '\u{a0}' || c == '\u{1680}' || (
        '\u{2000}' <= c <= '\u{200a}') || c == '\u{2028}' || c == '\u{2029}' || c == '\u{202f}' || c
            == '\u{205f}' || c == '\u{3000}'),
{
}

/// Trimming takes white space off both ends and nothing else: what is left
/// neither begins nor ends with any, and only white space was around it.
pub proof fn trimming_takes_the_ends(s: Seq<char>) -> (at: int)
    ensures
        0 <= at && at + trimmed(s).len() <= s.len(),
        trimmed(s) == s.subrange(at, at + trimmed(s).len()),
        forall|i: int| 0 <= i < at ==> white(#[trigger] s[i]),
        forall|i: int| at + trimmed(s).len() <= i < s.len() ==> white(#[trigger] s[i]),
        trimmed(s).len() > 0 ==> !white(trimmed(s)[0]) && !white(trimmed(s).last()),
    decreases s.len(),
{
    if s.len() == 0 {
        assert(s =~= s.subrange(0, 0));
        0
    } else if white(s[0]) {
        let less = s.skip(1);
        let at = trimming_takes_the_ends(less);
        assert(trimmed(s) =~= s.subrange(at + 1, at + 1 + trimmed(s).len()));
        assert forall|i: int| 0 <= i < at + 1 implies white(#[trigger] s[i]) by {
            if i > 0 {
                assert(s[i] == less[i - 1]);
            }
        }
        assert forall|i: int| at + 1 + trimmed(s).len() <= i < s.len() implies white(
            #[trigger] s[i],
        ) by {
            assert(s[i] == less[i - 1]);
        }
        at + 1
    } else if white(s.last()) {
        let less = s.drop_last();
        let at = trimming_takes_the_ends(less);
        assert(trimmed(s) =~= s.subrange(at, at + trimmed(s).len()));
        assert forall|i: int| 0 <= i < at implies white(#[trigger] s[i]) by {
            assert(s[i] == less[i]);
        }
        assert forall|i: int| at + trimmed(s).len() <= i < s.len() implies white(
            #[trigger] s[i],
        ) by {
            if i < less.len() {
                assert(s[i] == less[i]);
            }
        }
        at
    } else {
        assert(s =~= s.subrange(0, s.len() as int));
        0
    }
}

/// The encoding of two texts, one behind the other.
pub proof fn lemma_encode_concat(a: Seq<char>, b: Seq<char>)
    ensures
        encode_utf8(a + b) == encode_utf8(a) + encode_utf8(b),
    decreases a.len(),
{
    if a.len() == 0 {
        assert(a + b =~= b);
        assert(encode_utf8(a) + encode_utf8(b) =~= encode_utf8(b));
    } else {
        lemma_encode_concat(a.drop_first(), b);
        assert((a + b).drop_first() =~= a.drop_first() + b);
        assert(encode_utf8(a + b) =~= encode_utf8(a) + encode_utf8(b));
    }
}

/// A text starts with a slash when its encoding does.
pub proof fn lemma_encode_first(s: Seq<char>)
    requires
        s.len() > 0,
    ensures
        encode_utf8(s).len() > 0,
        encode_utf8(s)[0] == 0x2f <==> s[0] == '/',
{
    encode_utf8_first_scalar(s);
    let bytes = encode_utf8(s);
    assert(0x2fu8 & 0x7f == 0x2f) by (bit_vector);
    let c: char = s[0];
    assert(0x2fu32 & 0x7f == 0x2f) by (bit_vector);
    if c == '/' {
        assert(c as u32 == 0x2f);
        assert(encode_scalar(c as u32) == seq![(0x2fu32 & 0x7f) as u8]);
        assert(bytes[0] == encode_scalar(c as u32)[0]);
    }
    if bytes[0] == 0x2f {
        assert(decode_first_scalar(bytes) == 0x2f);
        lemma_slash(c);
    }
}

proof fn lemma_slash(c: char)
    requires
        c as u32 == 0x2f,
    ensures
        c == '/',
{
}

/// A number is read digit by digit: the digits before the last count tenfold.
pub proof fn digits_count_tenfold(s: Seq<char>, c: char, max: nat)
    requires
        s.len() > 0,
        '0' <= s[0] <= '9' || s.len() > 1 && s[0] == '+',
    ensures
        '0' <= c <= '9' ==> number(s.push(c), max) == (match number(s, max) {
            Some(n) => if n * 10 + (c as int - 0x30) <= max {
                Some((n * 10 + (c as int - 0x30)) as nat)
            } else {
                None
            },
            None => None::<nat>,
        }),
        !('0' <= c <= '9') ==> number(s.push(c), max) is None,
{
    let t = s.push(c);
    let (d, e) = (unsigned(s), unsigned(t));
    assert(t[0] == s[0]);
    assert(e =~= d.push(c));
    assert(e.drop_last() =~= d);
    assert(e[d.len() as int] == c);
    if all_digits(e) {
        assert forall|i: int| 0 <= i < d.len() implies is_digit(#[trigger] d[i]) by {
            assert(e[i] == d[i]);
        }
    }
    if all_digits(d) && is_digit(c) {
        assert forall|i: int| 0 <= i < e.len() implies is_digit(#[trigger] e[i]) by {
            if i < d.len() {
                assert(e[i] == d[i]);
            }
        }
    }
}

/// A digit alone, or behind a plus sign, is its number; nothing else of one
/// character is.
pub proof fn digits_are_numbers(c: char, max: nat)
    ensures
        number(seq![c], max) == (if '0' <= c <= '9' && c as int - 0x30 <= max {
            Some((c as int - 0x30) as nat)
        } else {
            None
        }),
        number(seq!['+', c], max) == number(seq![c], max) || c == '+',
        number(seq!['+', '+'], max) is None,
        number(Seq::<char>::empty(), max) is None,
{
    let s = seq![c];
    assert(s.drop_last() =~= Seq::<char>::empty());
    reveal_with_fuel(digits_value, 2);
    assert(s.skip(1) =~= Seq::<char>::empty());
    assert(seq!['+', c].skip(1) =~= s);
    assert(seq!['+', '+'].skip(1)[0] == '+');
    if all_digits(s) {
        assert(is_digit(s[0]));
    }
    if all_digits(seq!['+', '+'].skip(1)) {
        assert(is_digit(seq!['+', '+'].skip(1)[0]));
    }
}

/// A number is written with its digits alone, as few as there can be, and is read
/// as itself.
pub proof fn numbers_are_written_shortest(n: nat, max: nat)
    requires
        n <= max,
    ensures
        decimal(n).len() > 0,
        forall|i: int| 0 <= i < decimal(n).len() ==> '0' <= (#[trigger] decimal(n)[i]) <= '9',
        n > 0 ==> decimal(n)[0] != '0',
        n == 0 ==> decimal(n) == seq!['0'],
        number(decimal(n), max) == Some(n),
{
    lemma_decimal(n);
    lemma_number_of_decimal(n, max);
    lemma_first_digit(n);
    assert forall|i: int| 0 <= i < decimal(n).len() implies '0' <= (#[trigger] decimal(n)[i])
        <= '9' by {
        assert(is_digit(decimal(n)[i]));
    }
}

proof fn lemma_first_digit(n: nat)
    ensures
        decimal(n).len() > 0,
        n > 0 ==> decimal(n)[0] != '0',
    decreases n,
{
    if n >= 10 {
        lemma_first_digit(n / 10);
    }
}

} // verus!
