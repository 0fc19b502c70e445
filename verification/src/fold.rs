//! Case folding of names: per character for what is valid UTF-8, and byte by
//! byte for what is not.

use vstd::prelude::*;
use vstd::utf8::*;
use crate::bytes::{append, contains, occurs, occurs_at, SLASH};

verus! {

/// The lowercase mapping of a character.
pub uninterp spec fn lowercase_of(c: char) -> Seq<char>;

/// `char::to_lowercase`: the result is the character's lowercase mapping,
/// which depends on the character alone. Nothing else is claimed of it.
#[verifier::external_body]
fn lowercase(c: char) -> (r: String)
    ensures
        r@ == lowercase_of(c),
{
    c.to_lowercase().to_string()
}

/// `char::from_u32`: the character with that code point, if it is a Unicode
/// scalar value.
pub assume_specification[ char::from_u32 ](i: u32) -> (r: Option<char>)
    ensures
        r is Some <==> is_scalar(i),
        r matches Some(c) ==> c == i as char,
;

/// The ASCII lowercase of a byte.
pub open spec fn ascii_lower(b: u8) -> u8 {
    if 0x41 <= b <= 0x5a {
        (b + 0x20) as u8
    } else {
        b
    }
}

/// Every byte is ASCII.
pub open spec fn all_ascii(s: Seq<u8>) -> bool {
    forall|i: int| 0 <= i < s.len() ==> #[trigger] s[i] < 0x80
}

/// How many bytes the first unit of `s` has: one character, or one byte that
/// starts no valid character.
pub open spec fn unit_len(s: Seq<u8>) -> int {
    if valid_first_scalar(s) {
        length_of_first_scalar(s)
    } else {
        1
    }
}

/// The folded form of the first unit. A mapping that is empty or would bring
/// in a path separator is not used.
pub open spec fn fold_unit(s: Seq<u8>) -> Seq<u8> {
    if s[0] < 0x80 {
        seq![ascii_lower(s[0])]
    } else if valid_first_scalar(s) {
        let lower = encode_utf8(lowercase_of(decode_first_scalar(s) as char));
        if lower.len() == 0 || lower.contains(SLASH) {
            take_first_scalar(s)
        } else {
            lower
        }
    } else {
        seq![s[0]]
    }
}

/// `s` with every character folded to lower case.
pub open spec fn folded(s: Seq<u8>) -> Seq<u8>
    decreases s.len(),
{
    if s.len() == 0 {
        seq![]
    } else {
        fold_unit(s) + folded(s.skip(unit_len(s)))
    }
}

/// A needle as it is compared: as typed, or folded.
pub open spec fn effective(s: Seq<u8>, match_case: bool) -> Seq<u8> {
    if match_case {
        s
    } else {
        folded(s)
    }
}

/// `s` does not begin in the middle of a character.
pub open spec fn fresh_start(s: Seq<u8>) -> bool {
    s.len() == 0 || !is_continuation_byte(s[0])
}

/// Folding goes part by part where the second part begins a character.
pub proof fn lemma_fold_concat(x: Seq<u8>, y: Seq<u8>)
    requires
        fresh_start(y),
    ensures
        folded(x + y) == folded(x) + folded(y),
    decreases x.len(),
{
    let xy = x + y;
    if x.len() == 0 {
        assert(xy =~= y);
        assert(folded(x) + folded(y) =~= folded(y));
    } else {
        assert(forall|i: int| 0 <= i < x.len() ==> xy[i] == x[i]);
        assert(forall|i: int| x.len() <= i < xy.len() ==> xy[i] == y[i - x.len()]);
        assert(valid_first_scalar(xy) <==> valid_first_scalar(x));
        let n = unit_len(x);
        assert(unit_len(xy) == n);
        assert(n <= x.len());
        if valid_first_scalar(x) {
            assert(take_first_scalar(xy) =~= take_first_scalar(x));
        }
        assert(fold_unit(xy) == fold_unit(x));
        assert(xy.skip(n) =~= x.skip(n) + y);
        lemma_fold_concat(x.skip(n), y);
        assert(folded(xy) =~= folded(x) + folded(y));
    }
}

/// Folding goes part by part where the first part is valid UTF-8.
pub proof fn lemma_fold_concat_valid(x: Seq<u8>, y: Seq<u8>)
    requires
        valid_utf8(x),
    ensures
        folded(x + y) == folded(x) + folded(y),
    decreases x.len(),
{
    let xy = x + y;
    if x.len() == 0 {
        assert(xy =~= y);
        assert(folded(x) + folded(y) =~= folded(y));
    } else {
        assert(forall|i: int| 0 <= i < x.len() ==> xy[i] == x[i]);
        assert(valid_first_scalar(xy));
        let n = unit_len(x);
        assert(unit_len(xy) == n);
        assert(take_first_scalar(xy) =~= take_first_scalar(x));
        assert(fold_unit(xy) == fold_unit(x));
        assert(xy.skip(n) =~= x.skip(n) + y);
        assert(x.skip(n) =~= pop_first_scalar(x));
        lemma_fold_concat_valid(x.skip(n), y);
        assert(folded(xy) =~= folded(x) + folded(y));
    }
}

/// A separator splits the folding.
pub proof fn lemma_fold_slash(x: Seq<u8>, y: Seq<u8>)
    ensures
        folded(x + seq![SLASH] + y) == folded(x) + seq![SLASH] + folded(y),
        folded(x + seq![SLASH]) == folded(x) + seq![SLASH],
{
    let z = seq![SLASH] + y;
    assert(x + seq![SLASH] + y =~= x + z);
    lemma_fold_concat(x, z);
    assert(z.skip(1) =~= y);
    assert(unit_len(z) == 1);
    assert(fold_unit(z) =~= seq![SLASH]);
    assert(folded(z) =~= seq![SLASH] + folded(y));
    assert(folded(x) + (seq![SLASH] + folded(y)) =~= folded(x) + seq![SLASH] + folded(y));
    let w = seq![SLASH];
    lemma_fold_concat(x, w);
    assert(w.skip(1) =~= Seq::<u8>::empty());
    assert(unit_len(w) == 1);
    assert(fold_unit(w) =~= seq![SLASH]);
    assert(folded(w.skip(1)) =~= Seq::<u8>::empty());
    assert(folded(w) =~= w);
}

/// Valid UTF-8 begins a character.
pub proof fn lemma_valid_fresh(s: Seq<u8>)
    requires
        valid_utf8(s),
    ensures
        fresh_start(s),
{
}

/// What a name holds, its folded form holds folded, as long as the needle is
/// valid UTF-8.
pub proof fn lemma_fold_occurs(hay: Seq<u8>, needle: Seq<u8>)
    requires
        valid_utf8(needle),
        occurs(hay, needle),
    ensures
        occurs(folded(hay), folded(needle)),
{
    let i = choose|i: int| occurs_at(hay, needle, i);
    let x = hay.take(i);
    let y = hay.skip(i + needle.len());
    assert(hay =~= x + (needle + y));
    if needle.len() == 0 {
        assert(folded(needle) =~= Seq::<u8>::empty());
        assert(folded(hay).subrange(0, 0) =~= Seq::<u8>::empty());
        assert(occurs_at(folded(hay), folded(needle), 0));
    } else {
        lemma_valid_fresh(needle);
        assert((needle + y)[0] == needle[0]);
        lemma_fold_concat(x, needle + y);
        lemma_fold_concat_valid(needle, y);
        let a = folded(x);
        let n = folded(needle);
        let whole = a + (n + folded(y));
        assert(whole.subrange(a.len() as int, (a.len() + n.len()) as int) =~= n);
        assert(occurs_at(folded(hay), n, a.len() as int));
    }
}

/// Both halves of valid UTF-8 are valid, where the second begins a character.
pub proof fn lemma_valid_halves(x: Seq<u8>, y: Seq<u8>)
    requires
        valid_utf8(x + y),
        fresh_start(y),
    ensures
        valid_utf8(x),
        valid_utf8(y),
    decreases x.len(),
{
    let xy = x + y;
    if x.len() == 0 {
        assert(xy =~= y);
    } else {
        assert(forall|i: int| 0 <= i < x.len() ==> xy[i] == x[i]);
        assert(forall|i: int| x.len() <= i < xy.len() ==> xy[i] == y[i - x.len()]);
        assert(valid_first_scalar(x));
        let n = length_of_first_scalar(x);
        assert(pop_first_scalar(xy) =~= x.skip(n) + y);
        assert(pop_first_scalar(x) =~= x.skip(n));
        lemma_valid_halves(x.skip(n), y);
    }
}

/// Folding brings in no separator.
pub proof fn lemma_fold_no_slash(s: Seq<u8>)
    requires
        !s.contains(SLASH),
    ensures
        !folded(s).contains(SLASH),
    decreases s.len(),
{
    if s.len() > 0 {
        let n = unit_len(s);
        let rest = s.skip(n);
        assert(forall|i: int| 0 <= i < s.len() ==> s[i] != SLASH);
        assert(!rest.contains(SLASH)) by {
            assert(forall|i: int| 0 <= i < rest.len() ==> rest[i] == s[i + n]);
        }
        lemma_fold_no_slash(rest);
        let u = fold_unit(s);
        assert(!u.contains(SLASH)) by {
            assert(forall|i: int| 0 <= i < n ==> s[i] != SLASH);
        }
        let all = u + folded(rest);
        assert forall|i: int| 0 <= i < all.len() implies all[i] != SLASH by {
            if i < u.len() {
                assert(u.contains(u[i]));
            } else {
                assert(folded(rest).contains(folded(rest)[i - u.len()]));
            }
        }
    }
}

/// What is not empty does not fold to nothing.
pub proof fn lemma_fold_nonempty(s: Seq<u8>)
    requires
        s.len() > 0,
    ensures
        folded(s).len() > 0,
{
    assert(fold_unit(s).len() > 0);
}

/// ASCII folds byte by byte.
pub proof fn lemma_fold_ascii(s: Seq<u8>)
    requires
        all_ascii(s),
    ensures
        folded(s).len() == s.len(),
        forall|i: int| 0 <= i < s.len() ==> #[trigger] folded(s)[i] == ascii_lower(s[i]),
    decreases s.len(),
{
    if s.len() > 0 {
        assert(s[0] < 0x80);
        assert(unit_len(s) == 1);
        let rest = s.skip(1);
        lemma_fold_ascii(rest);
        assert forall|i: int| 0 <= i < s.len() implies #[trigger] folded(s)[i] == ascii_lower(
            s[i],
        ) by {
            if i > 0 {
                assert(rest[i - 1] == s[i]);
                assert(folded(rest)[i - 1] == ascii_lower(rest[i - 1]));
            }
        }
    }
}

/// The ASCII lowercase of a byte.
pub fn to_ascii_lower(b: u8) -> (r: u8)
    ensures
        r == ascii_lower(b),
{
    if b >= 0x41 && b <= 0x5a {
        b + 0x20
    } else {
        b
    }
}

/// Whether every byte is ASCII.
pub fn is_ascii(s: &[u8]) -> (r: bool)
    ensures
        r == all_ascii(s@),
{
    let mut i: usize = 0;
    while i < s.len()
        invariant
            i <= s.len(),
            forall|k: int| 0 <= k < i ==> #[trigger] s@[k] < 0x80,
        decreases s.len() - i,
    {
        if s[i] >= 0x80 {
            return false;
        }
        i = i + 1;
    }
    true
}

/// The first character of `s[at..]` and its length, if a valid one starts
/// there.
fn first_scalar(s: &[u8], at: usize) -> (r: Option<(char, usize)>)
    requires
        at < s.len(),
    ensures
        r is Some <==> valid_first_scalar(s@.skip(at as int)),
        r matches Some((c, n)) ==> c == decode_first_scalar(s@.skip(at as int)) as char && n
            == length_of_first_scalar(s@.skip(at as int)) && at + n <= s.len(),
{
    let ghost t = s@.skip(at as int);
    let left: usize = s.len() - at;
    let a = s[at];
    assert(t[0] == a);
    let (code, n): (u32, usize) = if a < 0x80 {
        ((a & 0x7f) as u32, 1)
    } else if a < 0xc0 || a > 0xf7 {
        return None;
    } else if a < 0xe0 {
        if left < 2 {
            return None;
        }
        let b = s[at + 1];
        assert(t[1] == b);
        if b < 0x80 || b > 0xbf {
            return None;
        }
        let v = (((a & 0x1f) as u32) << 6) | ((b & 0x3f) as u32);
        if v < 0x80 {
            return None;
        }
        assert(((((a & 0x1f) as u32) << 6) | ((b & 0x3f) as u32)) <= 0x7ff) by (bit_vector);
        (v, 2)
    } else if a < 0xf0 {
        if left < 3 {
            return None;
        }
        let b = s[at + 1];
        let c = s[at + 2];
        assert(t[1] == b && t[2] == c);
        if b < 0x80 || b > 0xbf || c < 0x80 || c > 0xbf {
            return None;
        }
        let v = (((a & 0x0f) as u32) << 12) | (((b & 0x3f) as u32) << 6) | ((c & 0x3f) as u32);
        if v < 0x800 || (v >= 0xd800 && v <= 0xdfff) {
            return None;
        }
        assert(((((a & 0x0f) as u32) << 12) | (((b & 0x3f) as u32) << 6) | ((c & 0x3f) as u32))
            <= 0xffff) by (bit_vector);
        (v, 3)
    } else {
        if left < 4 {
            return None;
        }
        let b = s[at + 1];
        let c = s[at + 2];
        let d = s[at + 3];
        assert(t[1] == b && t[2] == c && t[3] == d);
        if b < 0x80 || b > 0xbf || c < 0x80 || c > 0xbf || d < 0x80 || d > 0xbf {
            return None;
        }
        let v = (((a & 0x07) as u32) << 18) | (((b & 0x3f) as u32) << 12) | (((c & 0x3f) as u32)
            << 6) | ((d & 0x3f) as u32);
        if v < 0x10000 || v > 0x10ffff {
            return None;
        }
        (v, 4)
    };
    assert(a < 0x80 ==> ((a & 0x7f) as u32) < 0x80) by (bit_vector);
    assert(code == decode_first_scalar(t));
    assert(n == length_of_first_scalar(t));
    assert(valid_first_scalar(t));
    match char::from_u32(code) {
        Some(c) => Some((c, n)),
        None => None,
    }
}

/// `s` with every character folded to lower case.
pub fn fold(s: &[u8]) -> (out: Vec<u8>)
    ensures
        out@ == folded(s@),
{
    let mut out: Vec<u8> = Vec::new();
    let mut i: usize = 0;
    proof {
        assert(s@.skip(0) =~= s@);
        assert(out@ + folded(s@) =~= folded(s@));
    }
    while i < s.len()
        invariant
            i <= s.len(),
            out@ + folded(s@.skip(i as int)) == folded(s@),
        decreases s.len() - i,
    {
        let ghost t = s@.skip(i as int);
        let ghost before = out@;
        assert(t[0] == s@[i as int]);
        let mut n: usize = 1;
        if s[i] < 0x80 {
            out.push(to_ascii_lower(s[i]));
            assert(unit_len(t) == 1);
            assert(out@ =~= before + fold_unit(t));
        } else {
            match first_scalar(s, i) {
                Some((c, width)) => {
                    let lower = lowercase(c);
                    let low = lower.as_str().as_bytes();
                    let mut plain = low.len() == 0;
                    let mut k: usize = 0;
                    while k < low.len()
                        invariant
                            k <= low.len(),
                            plain <==> (low.len() == 0 || low@.take(k as int).contains(SLASH)),
                        decreases low.len() - k,
                    {
                        proof {
                            crate::ids::lemma_push_contains(
                                low@.take(k as int),
                                low@[k as int],
                                SLASH,
                            );
                            assert(low@.take(k + 1) =~= low@.take(k as int).push(low@[k as int]));
                        }
                        if low[k] == SLASH {
                            plain = true;
                        }
                        k = k + 1;
                    }
                    assert(low@.take(k as int) =~= low@);
                    if plain {
                        let mut m: usize = 0;
                        while m < width
                            invariant
                                m <= width,
                                i + width <= s.len(),
                                out@ == before + s@.subrange(i as int, i + m),
                            decreases width - m,
                        {
                            out.push(s[i + m]);
                            assert(s@.subrange(i as int, i + m + 1) =~= s@.subrange(
                                i as int,
                                i + m,
                            ).push(s@[i + m]));
                            m = m + 1;
                        }
                        assert(take_first_scalar(t) =~= s@.subrange(i as int, i + width));
                    } else {
                        append(&mut out, low);
                    }
                    assert(out@ =~= before + fold_unit(t));
                    n = width;
                },
                None => {
                    out.push(s[i]);
                    assert(out@ =~= before + fold_unit(t));
                },
            }
        }
        proof {
            assert(n == unit_len(t));
            assert(s@.skip(i + n) =~= t.skip(n as int));
            assert(out@ + folded(s@.skip(i + n)) =~= before + folded(t));
        }
        i = i + n;
    }
    proof {
        assert(s@.skip(i as int) =~= Seq::<u8>::empty());
        assert(out@ + folded(s@.skip(i as int)) =~= out@);
    }
    out
}

/// Substring search in an ASCII name ignoring case, without allocating.
pub fn contains_ascii_ci(hay: &[u8], needle: &[u8]) -> (r: bool)
    requires
        all_ascii(hay@),
    ensures
        r == occurs(folded(hay@), needle@),
{
    let ghost f = folded(hay@);
    proof {
        lemma_fold_ascii(hay@);
    }
    if needle.len() > hay.len() {
        return false;
    }
    let last: usize = hay.len() - needle.len();
    let mut i: usize = 0;
    while i <= last
        invariant
            last + needle.len() == hay.len(),
            f == folded(hay@),
            f.len() == hay.len(),
            forall|m: int| 0 <= m < hay.len() ==> #[trigger] f[m] == ascii_lower(hay@[m]),
            i <= last + 1,
            forall|m: int| 0 <= m < i ==> !occurs_at(f, needle@, m),
        ensures
            forall|m: int| 0 <= m <= last ==> !occurs_at(f, needle@, m),
        decreases last + 1 - i,
    {
        let mut k: usize = 0;
        while k < needle.len() && to_ascii_lower(hay[i + k]) == needle[k]
            invariant
                i + needle.len() <= hay.len(),
                k <= needle.len(),
                f.len() == hay.len(),
                forall|m: int| 0 <= m < hay.len() ==> #[trigger] f[m] == ascii_lower(hay@[m]),
                forall|m: int| 0 <= m < k ==> f[i + m] == needle@[m],
            decreases needle.len() - k,
        {
            assert(f[i + k] == ascii_lower(hay@[i + k]));
            k = k + 1;
        }
        if k == needle.len() {
            assert(f.subrange(i as int, i + needle.len()) =~= needle@);
            assert(occurs_at(f, needle@, i as int));
            return true;
        }
        proof {
            assert(f[i + k] == ascii_lower(hay@[i + k]));
            if f.subrange(i as int, i + needle.len()) == needle@ {
                assert(f.subrange(i as int, i + needle.len())[k as int] == f[i + k]);
            }
        }
        if i == last {
            break;
        }
        i = i + 1;
    }
    assert forall|k: int| !occurs_at(f, needle@, k) by {}
    false
}

/// Whether a name holds `needle`, which is folded already unless case counts.
pub fn name_contains(name: &[u8], needle: &[u8], match_case: bool) -> (r: bool)
    ensures
        r == occurs(effective(name@, match_case), needle@),
{
    if match_case {
        contains(name, needle)
    } else if is_ascii(name) {
        contains_ascii_ci(name, needle)
    } else {
        let f = fold(name);
        contains(f.as_slice(), needle)
    }
}

// What folding promises.

/// The 26 letters fold to lower case, whichever case they have, and every other
/// ASCII byte stays as it is.
pub proof fn letters_fold_to_lower_case(k: int, b: u8)
    ensures
        0 <= k < 26 ==> folded(seq![(0x41 + k) as u8]) == seq![(0x61 + k) as u8],
        0 <= k < 26 ==> folded(seq![(0x61 + k) as u8]) == seq![(0x61 + k) as u8],
        b < 0x41 || (0x5a < b < 0x80) ==> folded(seq![b]) == seq![b],
{
    if 0 <= k < 26 {
        lemma_fold_ascii(seq![(0x41 + k) as u8]);
        lemma_fold_ascii(seq![(0x61 + k) as u8]);
        assert(folded(seq![(0x41 + k) as u8]) =~= seq![(0x61 + k) as u8]);
        assert(folded(seq![(0x61 + k) as u8]) =~= seq![(0x61 + k) as u8]);
    }
    if b < 0x41 || (0x5a < b < 0x80) {
        lemma_fold_ascii(seq![b]);
        assert(folded(seq![b]) =~= seq![b]);
    }
}

/// Two bytes are equal, or the two cases of one ASCII letter.
pub open spec fn same_letter(a: u8, b: u8) -> bool {
    ||| a == b
    ||| 0x41 <= a <= 0x5a && b == a + 0x20
    ||| 0x41 <= b <= 0x5a && a == b + 0x20
}

/// Two ASCII texts fold to the same exactly if they differ in nothing but the
/// case of letters.
pub proof fn case_alone_folds_away(a: Seq<u8>, b: Seq<u8>)
    requires
        forall|i: int| 0 <= i < a.len() ==> (#[trigger] a[i]) < 0x80,
        forall|i: int| 0 <= i < b.len() ==> (#[trigger] b[i]) < 0x80,
    ensures
        folded(a) == folded(b) <==> a.len() == b.len() && forall|i: int|
            0 <= i < a.len() ==> same_letter(#[trigger] a[i], b[i]),
        folded(a).len() == a.len(),
{
    lemma_fold_ascii(a);
    lemma_fold_ascii(b);
    if folded(a) == folded(b) {
        assert forall|i: int| 0 <= i < a.len() implies same_letter(#[trigger] a[i], b[i]) by {
            assert(folded(a)[i] == ascii_lower(a[i]));
            assert(folded(b)[i] == ascii_lower(b[i]));
        }
    }
    if a.len() == b.len() && forall|i: int|
        0 <= i < a.len() ==> same_letter(#[trigger] a[i], b[i]) {
        assert forall|i: int| 0 <= i < a.len() implies folded(a)[i] == folded(b)[i] by {
            assert(same_letter(a[i], b[i]));
            assert(folded(a)[i] == ascii_lower(a[i]));
            assert(folded(b)[i] == ascii_lower(b[i]));
        }
        assert(folded(a) =~= folded(b));
    }
}

/// Any other character folds to its lowercase mapping, or to itself where that
/// is nothing or would bring in a separator, and text folds character by
/// character. What is not valid UTF-8 stays, byte by byte.
pub proof fn other_characters_fold_by_themselves(c: char, rest: Seq<u8>, s: Seq<u8>)
    ensures
        c as u32 >= 0x80 && encode_utf8(lowercase_of(c)).len() > 0 && !encode_utf8(
            lowercase_of(c),
        ).contains(0x2f) ==> folded(encode_utf8(seq![c]) + rest) == encode_utf8(lowercase_of(c))
            + folded(rest),
        c as u32 >= 0x80 && (encode_utf8(lowercase_of(c)).len() == 0 || encode_utf8(
            lowercase_of(c),
        ).contains(0x2f)) ==> folded(encode_utf8(seq![c]) + rest) == encode_utf8(seq![c]) + folded(
            rest,
        ),
        s.len() > 0 && s[0] >= 0x80 && !valid_first_scalar(s) ==> folded(s) == seq![s[0]] + folded(
            s.skip(1),
        ),
{
    let one = encode_utf8(seq![c]);
    let all = one + rest;
    encode_utf8_first_scalar(seq![c]);
    encode_utf8_valid_utf8(seq![c]);
    char_u32_cast(c, c as u32);
    lemma_fold_concat_valid(one, rest);
    assert(seq![c].drop_first() =~= Seq::<char>::empty());
    assert(encode_utf8(Seq::<char>::empty()) =~= Seq::<u8>::empty());
    assert(one =~= encode_scalar(c as u32));
    if c as u32 >= 0x80 {
        assert(one[0] >= 0x80) by {
            let u = c as u32;
            if one[0] < 0x80 {
                assert(is_leading_byte_width_1(one[0])) by {
                    let b = one[0];
                    assert(b < 0x80 ==> (b & 0x80) == 0) by (bit_vector);
                }
            }
        }
        let none = one.skip(unit_len(one));
        assert(none =~= Seq::<u8>::empty());
        assert(folded(none) =~= Seq::<u8>::empty());
        assert(folded(one) =~= fold_unit(one));
        assert(take_first_scalar(one) =~= one);
    }
}

} // verus!
