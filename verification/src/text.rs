//! Strings as sequences of characters, with the byte offsets that index
//! fragments and highlight spans are expressed in.

use vstd::prelude::*;
use vstd::string::StringExecFns;
use vstd::utf8::*;

verus! {

/// `String::push`: the character is appended at the end of the string.
pub assume_specification[ String::push ](s: &mut String, c: char)
    ensures
        final(s)@ == old(s)@.push(c),
;

/// Number of bytes that a character takes in UTF-8.
pub open spec fn width(c: char) -> int {
    if (c as u32) < 0x80 {
        1
    } else if (c as u32) < 0x800 {
        2
    } else if (c as u32) < 0x10000 {
        3
    } else {
        4
    }
}

/// Byte offset of the `k`-th character of `s`.
pub open spec fn offset(s: Seq<char>, k: int) -> int
    decreases k,
{
    if k <= 0 {
        0
    } else {
        offset(s, k - 1) + width(s[k - 1])
    }
}

/// Byte length of `s`.
pub open spec fn byte_len(s: Seq<char>) -> int {
    offset(s, s.len() as int)
}

/// `b` is the byte offset of a character of `s`, or of its end.
pub open spec fn on_boundary(s: Seq<char>, b: int) -> bool {
    exists|k: int| 0 <= k <= s.len() && #[trigger] offset(s, k) == b
}

/// Index of the character that starts at the byte offset `b`.
pub open spec fn char_at(s: Seq<char>, b: int) -> int {
    choose|k: int| 0 <= k <= s.len() && #[trigger] offset(s, k) == b
}

/// The part of `s` between two byte offsets.
pub open spec fn slice(s: Seq<char>, from: int, to: int) -> Seq<char> {
    s.subrange(char_at(s, from), char_at(s, to))
}

/// Offsets grow strictly with the character index.
pub proof fn lemma_offset_monotonic(s: Seq<char>, i: int, j: int)
    requires
        0 <= i <= j,
    ensures
        offset(s, i) <= offset(s, j),
        i < j ==> offset(s, i) < offset(s, j),
        offset(s, j) - offset(s, i) >= j - i,
        offset(s, j) - offset(s, i) <= 4 * (j - i),
    decreases j,
{
    if i < j {
        lemma_offset_monotonic(s, i, j - 1);
    }
}

/// Each boundary belongs to one character index.
pub proof fn lemma_char_at(s: Seq<char>, k: int)
    requires
        0 <= k <= s.len(),
    ensures
        on_boundary(s, offset(s, k)),
        char_at(s, offset(s, k)) == k,
{
    let m = char_at(s, offset(s, k));
    assert(0 <= m <= s.len() && offset(s, m) == offset(s, k));
    if m < k {
        lemma_offset_monotonic(s, m, k);
    } else if k < m {
        lemma_offset_monotonic(s, k, m);
    }
}

/// Offsets depend on the characters before them alone.
pub proof fn lemma_offset_prefix(s: Seq<char>, t: Seq<char>, k: int)
    requires
        0 <= k <= s.len(),
        k <= t.len(),
        forall|i: int| 0 <= i < k ==> s[i] == t[i],
    ensures
        offset(s, k) == offset(t, k),
    decreases k,
{
    if k > 0 {
        lemma_offset_prefix(s, t, k - 1);
    }
}

/// Offsets inside the second of two joined strings.
pub proof fn lemma_offset_concat(s: Seq<char>, t: Seq<char>, k: int)
    requires
        0 <= k <= t.len(),
    ensures
        offset(s + t, s.len() + k) == byte_len(s) + offset(t, k),
    decreases k,
{
    if k > 0 {
        lemma_offset_concat(s, t, k - 1);
        assert((s + t)[s.len() + k - 1] == t[k - 1]);
    } else {
        lemma_offset_prefix(s + t, s, s.len() as int);
    }
}

/// Offsets inside a part of a string.
pub proof fn lemma_offset_subrange(s: Seq<char>, from: int, to: int, k: int)
    requires
        0 <= from <= to <= s.len(),
        0 <= k <= to - from,
    ensures
        offset(s.subrange(from, to), k) == offset(s, from + k) - offset(s, from),
    decreases k,
{
    if k > 0 {
        lemma_offset_subrange(s, from, to, k - 1);
    }
}

/// The encoding of a string has its byte length.
pub proof fn lemma_encoded_length(s: Seq<char>)
    ensures
        encode_utf8(s).len() == byte_len(s),
    decreases s.len(),
{
    if s.len() > 0 {
        let rest = s.drop_first();
        lemma_encoded_length(rest);
        assert(seq![s[0]] + rest =~= s);
        lemma_offset_concat(seq![s[0]], rest, rest.len() as int);
        assert(byte_len(seq![s[0]]) == width(s[0])) by {
            reveal_with_fuel(offset, 2);
        }
        assert(encode_scalar(s[0] as u32).len() == width(s[0])) by {
            char_is_scalar(s[0]);
        }
        assert(encode_utf8(s) == encode_scalar(s[0] as u32) + encode_utf8(rest));
    }
}

/// The encoding of joined strings is that of the one behind that of the other.
pub proof fn lemma_encode_concat(s: Seq<char>, t: Seq<char>)
    ensures
        encode_utf8(s + t) == encode_utf8(s) + encode_utf8(t),
    decreases s.len(),
{
    if s.len() == 0 {
        assert(s + t =~= t);
        assert(encode_utf8(s) + encode_utf8(t) =~= encode_utf8(t));
    } else {
        lemma_encode_concat(s.drop_first(), t);
        assert((s + t).drop_first() =~= s.drop_first() + t);
        assert(encode_utf8(s + t) =~= encode_utf8(s) + encode_utf8(t));
    }
}

/// The boundaries of a string are those of its encoding.
pub proof fn lemma_boundary(s: Seq<char>, b: int)
    ensures
        is_char_boundary(encode_utf8(s), b) <==> on_boundary(s, b),
    decreases s.len(),
{
    encode_utf8_valid_utf8(s);
    lemma_encoded_length(s);
    if b == 0 {
        assert(offset(s, 0) == b);
    } else if b < 0 || b > byte_len(s) {
        if on_boundary(s, b) {
            let k = char_at(s, b);
            lemma_offset_monotonic(s, 0, k);
            lemma_offset_monotonic(s, k, s.len() as int);
        }
    } else {
        assert(s.len() > 0);
        let rest = s.drop_first();
        let w = width(s[0]);
        encode_utf8_first_scalar(s);
        assert(encode_scalar(s[0] as u32).len() == w) by {
            char_is_scalar(s[0]);
        }
        assert(pop_first_scalar(encode_utf8(s)) =~= encode_utf8(rest));
        lemma_boundary(rest, b - w);
        assert(rest =~= s.subrange(1, s.len() as int));
        assert(offset(s, 1) == w) by {
            reveal_with_fuel(offset, 2);
        }
        if on_boundary(rest, b - w) {
            let k = char_at(rest, b - w);
            lemma_offset_subrange(s, 1, s.len() as int, k);
            assert(offset(s, k + 1) == b);
        }
        if on_boundary(s, b) {
            let k = char_at(s, b);
            assert(k >= 1);
            lemma_offset_subrange(s, 1, s.len() as int, k - 1);
            assert(offset(rest, k - 1) == b - w);
        }
    }
}

/// The string whose encoding starts with these bytes.
proof fn lemma_split(s: Seq<char>, k: int, t: Seq<char>)
    requires
        0 <= k <= s.len(),
    ensures
        encode_utf8(t) == encode_utf8(s).subrange(0, offset(s, k)) ==> t == s.take(k),
        encode_utf8(t) == encode_utf8(s).subrange(offset(s, k), byte_len(s)) ==> t == s.skip(k),
{
    let a = s.take(k);
    let b = s.skip(k);
    assert(a + b =~= s);
    lemma_encode_concat(a, b);
    lemma_encoded_length(a);
    lemma_encoded_length(s);
    lemma_offset_prefix(a, s, k);
    assert(encode_utf8(s).subrange(0, offset(s, k)) =~= encode_utf8(a));
    assert(encode_utf8(s).subrange(offset(s, k), byte_len(s)) =~= encode_utf8(b));
    encode_utf8_decode_utf8(a);
    encode_utf8_decode_utf8(b);
    encode_utf8_decode_utf8(t);
}

/// Whether a byte offset lies on a character boundary of the text.
pub fn is_boundary(text: &str, b: usize) -> (r: bool)
    ensures
        r == on_boundary(text@, b as int),
{
    proof {
        lemma_boundary(text@, b as int);
    }
    text.is_char_boundary(b)
}

/// Byte length of a text.
pub fn len_of(text: &str) -> (n: usize)
    ensures
        n == byte_len(text@),
{
    proof {
        lemma_encoded_length(text@);
    }
    text.as_bytes().len()
}

/// The part of a text between two byte offsets.
pub fn slice_of<'a>(text: &'a str, from: usize, to: usize) -> (part: &'a str)
    requires
        from <= to,
        on_boundary(text@, from as int),
        on_boundary(text@, to as int),
    ensures
        part@ == slice(text@, from as int, to as int),
{
    let ghost s = text@;
    let ghost a = char_at(s, from as int);
    let ghost b = char_at(s, to as int);
    proof {
        lemma_boundary(s, to as int);
        lemma_encoded_length(s);
        if b < a {
            lemma_offset_monotonic(s, b, a);
        }
    }
    let (head, _rest) = text.split_at(to);
    proof {
        lemma_split(s, b, head@);
        lemma_offset_prefix(s, head@, a);
        assert(offset(head@, a) == from);
        lemma_boundary(head@, from as int);
        lemma_encoded_length(head@);
    }
    let (_front, part) = head.split_at(from);
    proof {
        lemma_split(head@, a, part@);
        assert(part@ =~= s.subrange(a, b));
    }
    part
}

/// Number of bytes that a character takes in UTF-8.
pub fn char_width(c: char) -> (n: usize)
    ensures
        n == width(c),
{
    let code = c as u32;
    if code < 0x80 {
        1
    } else if code < 0x800 {
        2
    } else if code < 0x10000 {
        3
    } else {
        4
    }
}

/// The characters of a string.
pub fn chars_of(s: &str) -> (v: Vec<char>)
    ensures
        v@ == s@,
        byte_len(s@) <= usize::MAX,
{
    let bytes = s.as_bytes();
    let _total: usize = bytes.len();
    proof {
        lemma_encoded_length(s@);
    }
    let mut v: Vec<char> = Vec::new();
    for c in it: s.chars()
        invariant
            v@ == it.seq().take(it.index()),
            it.seq() == s@,
    {
        v.push(c);
        assert(v@ =~= it.seq().take(it.index() + 1));
    }
    assert(v@ =~= s@);
    v
}

/// The string made of the characters from one index up to another.
pub fn string_of(chars: &Vec<char>, from: usize, to: usize) -> (s: String)
    requires
        from <= to <= chars@.len(),
    ensures
        s@ == chars@.subrange(from as int, to as int),
{
    let mut s = String::new();
    let mut i: usize = from;
    while i < to
        invariant
            from <= i <= to <= chars@.len(),
            s@ == chars@.subrange(from as int, i as int),
        decreases to - i,
    {
        s.push(chars[i]);
        i += 1;
        assert(s@ =~= chars@.subrange(from as int, i as int));
    }
    s
}

/// The same characters, compared one by one.
pub fn same(a: &str, b: &str) -> (r: bool)
    ensures
        r == (a@ == b@),
{
    let left = chars_of(a);
    let right = chars_of(b);
    same_chars(&left, &right)
}

/// The same characters in two buffers.
pub fn same_chars(left: &Vec<char>, right: &Vec<char>) -> (r: bool)
    ensures
        r == (left@ == right@),
{
    if left.len() != right.len() {
        return false;
    }
    let mut i: usize = 0;
    while i < left.len()
        invariant
            i <= left@.len(),
            left@.len() == right@.len(),
            forall|k: int| 0 <= k < i ==> left@[k] == right@[k],
        decreases left@.len() - i,
    {
        if left[i] != right[i] {
            return false;
        }
        i += 1;
    }
    assert(left@ =~= right@);
    true
}

/// `std::str::from_utf8`: the bytes as a string, exactly where they are valid
/// UTF-8. The string has the same bytes.
#[verifier::external_body]
fn utf8_of(bytes: &[u8]) -> (r: Option<String>)
    ensures
        r is Some <==> valid_utf8(bytes@),
        r is Some ==> encode_utf8(r->0@) == bytes@,
{
    std::str::from_utf8(bytes).ok().map(str::to_owned)
}

/// The text that bytes encode in UTF-8, if they do.
pub fn decode(bytes: &[u8]) -> (r: Option<String>)
    ensures
        r is Some <==> valid_utf8(bytes@),
        r is Some ==> r->0@ == decode_utf8(bytes@) && encode_utf8(r->0@) == bytes@,
{
    let r = utf8_of(bytes);
    proof {
        if r is Some {
            encode_utf8_decode_utf8(r->0@);
        }
    }
    r
}

/// `part` stands in `s` from the `k`-th character on.
pub open spec fn occurs_at(s: Seq<char>, part: Seq<char>, k: int) -> bool {
    0 <= k && k + part.len() <= s.len() && s.subrange(k, k + part.len()) == part
}

/// `part` stands somewhere in `s`.
pub open spec fn contains(s: Seq<char>, part: Seq<char>) -> bool {
    exists|k: int| occurs_at(s, part, k)
}

/// Whether `part` stands in `s` from the `k`-th character on.
pub fn stands_at(s: &Vec<char>, part: &Vec<char>, k: usize) -> (r: bool)
    ensures
        r == occurs_at(s@, part@, k as int),
{
    let total = s.len();
    if k > total || part.len() > total - k {
        return false;
    }
    let mut i: usize = 0;
    while i < part.len()
        invariant
            i <= part@.len(),
            k + part@.len() <= total == s@.len(),
            forall|j: int| 0 <= j < i ==> s@[k + j] == part@[j],
        decreases part@.len() - i,
    {
        if s[k + i] != part[i] {
            assert(s@.subrange(k as int, k + part@.len())[i as int] == s@[k + i]);
            return false;
        }
        i += 1;
    }
    assert(s@.subrange(k as int, k + part@.len()) =~= part@);
    true
}

/// Whether `part` stands somewhere in `s`.
pub fn contains_chars(s: &Vec<char>, part: &Vec<char>) -> (r: bool)
    ensures
        r == contains(s@, part@),
{
    let mut k: usize = 0;
    while k < s.len()
        invariant
            k <= s@.len(),
            forall|j: int| 0 <= j < k ==> !occurs_at(s@, part@, j),
        decreases s@.len() - k,
    {
        if stands_at(s, part, k) {
            return true;
        }
        k += 1;
    }
    stands_at(s, part, k)
}

/// Whether a character is among others.
pub fn holds_char(chars: &Vec<char>, mark: char) -> (r: bool)
    ensures
        r == chars@.contains(mark),
{
    let mut i: usize = 0;
    while i < chars.len()
        invariant
            i <= chars@.len(),
            forall|k: int| 0 <= k < i ==> chars@[k] != mark,
        decreases chars@.len() - i,
    {
        if chars[i] == mark {
            return true;
        }
        i += 1;
    }
    false
}

/// The contents of a list of strings.
pub open spec fn texts(v: Seq<String>) -> Seq<Seq<char>> {
    v.map_values(|s: String| s@)
}

/// The parts in order with a separator between neighbours.
pub open spec fn joined(parts: Seq<Seq<char>>, separator: Seq<char>) -> Seq<char>
    decreases parts.len(),
{
    if parts.len() == 0 {
        Seq::empty()
    } else if parts.len() == 1 {
        parts[0]
    } else {
        joined(parts.drop_last(), separator) + separator + parts.last()
    }
}

/// Joins strings with a separator between neighbours.
pub fn join(parts: &Vec<String>, separator: &str) -> (s: String)
    ensures
        s@ == joined(texts(parts@), separator@),
{
    let mut s = String::new();
    let mut i: usize = 0;
    while i < parts.len()
        invariant
            i <= parts@.len(),
            s@ == joined(texts(parts@).take(i as int), separator@),
        decreases parts@.len() - i,
    {
        if i > 0 {
            s.append(separator);
        }
        s.append(parts[i].as_str());
        proof {
            let before = texts(parts@).take(i as int);
            let after = texts(parts@).take(i + 1);
            assert(after.drop_last() =~= before);
            assert(after.last() == parts@[i as int]@);
            if i == 0 {
                assert(s@ =~= after[0]);
            }
        }
        i += 1;
    }
    assert(texts(parts@).take(i as int) =~= texts(parts@));
    s
}

/// One text behind another.
pub fn join_two(a: &str, b: &str) -> (s: String)
    ensures
        s@ == a@ + b@,
{
    a.to_owned().concat(b)
}

/// White space in the sense of the Unicode property White_Space.
pub open spec fn space(c: char) -> bool {
    let code = c as u32;
    ||| 0x9 <= code <= 0xd
    ||| code == 0x20
    ||| code == 0x85
    ||| code == 0xa0
    ||| code == 0x1680
    ||| 0x2000 <= code <= 0x200a
    ||| code == 0x2028
    ||| code == 0x2029
    ||| code == 0x202f
    ||| code == 0x205f
    ||| code == 0x3000
}

/// Whether a character is white space.
pub fn is_space(c: char) -> (r: bool)
    ensures
        r == space(c),
{
    let code = c as u32;
    (0x9 <= code && code <= 0xd) || code == 0x20 || code == 0x85 || code == 0xa0 || code == 0x1680
        || (0x2000 <= code && code <= 0x200a) || code == 0x2028 || code == 0x2029 || code == 0x202f
        || code == 0x205f || code == 0x3000
}

/// An ASCII letter.
pub open spec fn letter(c: char) -> bool {
    ('a' <= c <= 'z') || ('A' <= c <= 'Z')
}

/// An ASCII digit.
pub open spec fn digit(c: char) -> bool {
    '0' <= c <= '9'
}

/// A character of the ASCII range.
pub open spec fn ascii(c: char) -> bool {
    (c as u32) < 0x80
}

pub fn is_letter(c: char) -> (r: bool)
    ensures
        r == letter(c),
{
    ('a' <= c && c <= 'z') || ('A' <= c && c <= 'Z')
}

pub fn is_digit(c: char) -> (r: bool)
    ensures
        r == digit(c),
{
    '0' <= c && c <= '9'
}

/// ASCII letters in lower case, every other character as it is.
pub open spec fn lower(c: char) -> char {
    if 'A' <= c <= 'Z' {
        (c as u32 + 32) as char
    } else {
        c
    }
}

/// `lower` on every character.
pub open spec fn lowered(s: Seq<char>) -> Seq<char> {
    s.map_values(|c: char| lower(c))
}

/// ASCII letters in lower case, every other character as it is.
pub fn to_lower(c: char) -> (r: char)
    ensures
        r == lower(c),
{
    if 'A' <= c && c <= 'Z' {
        ((c as u8) + 32) as char
    } else {
        c
    }
}

/// ASCII letters in lower case throughout a part of a text.
pub fn lowered_of(chars: &Vec<char>, from: usize, to: usize) -> (s: String)
    requires
        from <= to <= chars@.len(),
    ensures
        s@ == lowered(chars@.subrange(from as int, to as int)),
{
    let mut s = String::new();
    let mut i: usize = from;
    while i < to
        invariant
            from <= i <= to <= chars@.len(),
            s@ == lowered(chars@.subrange(from as int, i as int)),
        decreases to - i,
    {
        s.push(to_lower(chars[i]));
        i += 1;
        assert(s@ =~= lowered(chars@.subrange(from as int, i as int)));
    }
    s
}

/// ASCII letters in lower case throughout a text.
pub fn to_lowered(text: &str) -> (s: String)
    ensures
        s@ == lowered(text@),
{
    let chars = chars_of(text);
    let s = lowered_of(&chars, 0, chars.len());
    assert(chars@.subrange(0, chars@.len() as int) =~= chars@);
    s
}

/// Decimal digits of a number, without leading zeros.
pub open spec fn decimal(n: nat) -> Seq<char>
    decreases n,
{
    if n < 10 {
        seq![('0' as u32 + n) as char]
    } else {
        decimal(n / 10).push(('0' as u32 + n % 10) as char)
    }
}

/// A number written in decimal.
pub fn decimal_of(n: u64) -> (s: String)
    ensures
        s@ == decimal(n as nat),
    decreases n,
{
    let last = (48u8 + (n % 10) as u8) as char;
    let mut s = if n < 10 {
        String::new()
    } else {
        decimal_of(n / 10)
    };
    s.push(last);
    assert(n < 10 ==> s@ =~= decimal(n as nat));
    s
}

/// Index of the first character at `i` or behind it that is not white space.
pub open spec fn skip_space(s: Seq<char>, i: int) -> int
    decreases s.len() - i,
{
    if 0 <= i < s.len() && space(s[i]) {
        skip_space(s, i + 1)
    } else {
        i
    }
}

/// Index behind the last character before `j` that is not white space, but not
/// before `i`.
pub open spec fn drop_space(s: Seq<char>, i: int, j: int) -> int
    decreases j - i,
{
    if i < j && space(s[j - 1]) {
        drop_space(s, i, j - 1)
    } else {
        j
    }
}

/// The text without white space at its ends.
pub open spec fn trimmed(s: Seq<char>) -> Seq<char> {
    let i = skip_space(s, 0);
    s.subrange(i, drop_space(s, i, s.len() as int))
}

/// The bounds of the text without white space at its ends.
pub proof fn lemma_trimmed(s: Seq<char>)
    ensures
        0 <= skip_space(s, 0) <= drop_space(s, skip_space(s, 0), s.len() as int) <= s.len(),
{
    lemma_skip_space(s, 0);
    lemma_drop_space(s, skip_space(s, 0), s.len() as int);
}

proof fn lemma_skip_space(s: Seq<char>, i: int)
    requires
        0 <= i <= s.len(),
    ensures
        i <= skip_space(s, i) <= s.len(),
    decreases s.len() - i,
{
    if i < s.len() && space(s[i]) {
        lemma_skip_space(s, i + 1);
    }
}

proof fn lemma_drop_space(s: Seq<char>, i: int, j: int)
    requires
        0 <= i <= j <= s.len(),
    ensures
        i <= drop_space(s, i, j) <= j,
    decreases j - i,
{
    if i < j && space(s[j - 1]) {
        lemma_drop_space(s, i, j - 1);
    }
}

/// The characters without white space at the ends.
pub fn trim_chars(chars: &Vec<char>) -> (r: Vec<char>)
    ensures
        r@ == trimmed(chars@),
{
    let ghost s = chars@;
    let mut i: usize = 0;
    while i < chars.len() && is_space(chars[i])
        invariant
            s == chars@,
            i <= s.len(),
            skip_space(s, 0) == skip_space(s, i as int),
        decreases s.len() - i,
    {
        i += 1;
    }
    let mut j: usize = chars.len();
    while i < j && is_space(chars[j - 1])
        invariant
            s == chars@,
            i <= j <= s.len(),
            drop_space(s, i as int, s.len() as int) == drop_space(s, i as int, j as int),
        decreases j,
    {
        j -= 1;
    }
    part_of(chars, i, j)
}

/// The characters from one index up to another.
pub fn part_of(chars: &Vec<char>, from: usize, to: usize) -> (r: Vec<char>)
    requires
        from <= to <= chars@.len(),
    ensures
        r@ == chars@.subrange(from as int, to as int),
{
    let mut r: Vec<char> = Vec::new();
    let mut i: usize = from;
    while i < to
        invariant
            from <= i <= to <= chars@.len(),
            r@ == chars@.subrange(from as int, i as int),
        decreases to - i,
    {
        r.push(chars[i]);
        i += 1;
        assert(r@ =~= chars@.subrange(from as int, i as int));
    }
    r
}

/// The text without white space at its ends.
pub fn trim(text: &str) -> (r: String)
    ensures
        r@ == trimmed(text@),
{
    let chars = trim_chars(&chars_of(text));
    assert(chars@.subrange(0, chars@.len() as int) =~= chars@);
    string_of(&chars, 0, chars.len())
}

/// Index of the first white space at `i` or behind it.
pub open spec fn word_stop(s: Seq<char>, i: int) -> int
    decreases s.len() - i,
{
    if 0 <= i < s.len() && !space(s[i]) {
        word_stop(s, i + 1)
    } else {
        i
    }
}

proof fn lemma_word_stop(s: Seq<char>, i: int)
    requires
        0 <= i <= s.len(),
    ensures
        i <= word_stop(s, i) <= s.len(),
        i < s.len() && !space(s[i]) ==> i < word_stop(s, i),
    decreases s.len() - i,
{
    if i < s.len() && !space(s[i]) {
        lemma_word_stop(s, i + 1);
    }
}

/// The words of a text from the `i`-th character on: what white space
/// separates.
pub open spec fn words_from(s: Seq<char>, i: int) -> Seq<Seq<char>>
    decreases s.len() - i,
    via words_from_decreases
{
    if i < 0 || i >= s.len() {
        Seq::empty()
    } else if space(s[i]) {
        words_from(s, i + 1)
    } else {
        seq![s.subrange(i, word_stop(s, i))] + words_from(s, word_stop(s, i))
    }
}

#[via_fn]
proof fn words_from_decreases(s: Seq<char>, i: int) {
    if 0 <= i < s.len() {
        lemma_word_stop(s, i);
    }
}

/// The words of a text.
pub open spec fn words(s: Seq<char>) -> Seq<Seq<char>> {
    words_from(s, 0)
}

/// Splits a text at white space.
pub fn split_words(text: &str) -> (r: Vec<String>)
    ensures
        texts(r@) == words(text@),
{
    let chars = chars_of(text);
    let ghost s = text@;
    let total = chars.len();
    let mut r: Vec<String> = Vec::new();
    let mut i: usize = 0;
    assert(texts(r@) + words_from(s, 0) =~= words(s));
    while i < total
        invariant
            s == chars@,
            total == s.len(),
            i <= total,
            texts(r@) + words_from(s, i as int) == words(s),
        decreases total - i,
    {
        if is_space(chars[i]) {
            i += 1;
        } else {
            let start = i;
            i += 1;
            while i < total && !is_space(chars[i])
                invariant
                    s == chars@,
                    total == s.len(),
                    start < i <= total,
                    word_stop(s, start as int) == word_stop(s, i as int),
                decreases total - i,
            {
                i += 1;
            }
            let word = string_of(&chars, start, i);
            let ghost before = texts(r@);
            let ghost rest = words_from(s, i as int);
            r.push(word);
            assert(texts(r@) =~= before.push(word@));
            assert(before + (seq![word@] + rest) =~= before.push(word@) + rest);
        }
    }
    assert(texts(r@) + Seq::<Seq<char>>::empty() =~= texts(r@));
    r
}

/// A text that does not start with white space starts with a word.
pub proof fn lemma_first_word(s: Seq<char>)
    requires
        s.len() > 0,
        !space(s[0]),
    ensures
        words(s).len() > 0,
{
}

/// What is left without white space at the ends does not start with any.
pub proof fn lemma_trimmed_start(s: Seq<char>)
    ensures
        trimmed(s).len() > 0 ==> !space(trimmed(s)[0]),
{
    lemma_trimmed(s);
    lemma_skip_stops(s, 0);
}

proof fn lemma_skip_stops(s: Seq<char>, i: int)
    requires
        0 <= i <= s.len(),
    ensures
        skip_space(s, i) < s.len() ==> !space(s[skip_space(s, i)]),
    decreases s.len() - i,
{
    if i < s.len() && space(s[i]) {
        lemma_skip_stops(s, i + 1);
    }
}

/// Index of the first line feed at `i` or behind it; the length where there is
/// none.
pub open spec fn line_end(s: Seq<char>, i: int) -> int
    decreases s.len() - i,
{
    if 0 <= i < s.len() && s[i] != '\n' {
        line_end(s, i + 1)
    } else {
        i
    }
}

/// Bounds of the end of a line.
pub proof fn lemma_line_end(s: Seq<char>, i: int)
    requires
        0 <= i <= s.len(),
    ensures
        i <= line_end(s, i) <= s.len(),
    decreases s.len() - i,
{
    if i < s.len() && s[i] != '\n' {
        lemma_line_end(s, i + 1);
    }
}

/// The value of a sequence of decimal digits.
pub open spec fn digits_value(s: Seq<char>) -> int
    decreases s.len(),
{
    if s.len() == 0 {
        0
    } else {
        digits_value(s.drop_last()) * 10 + (s.last() as u32 - '0' as u32)
    }
}

/// The text without a plus sign in front.
pub open spec fn unsigned(s: Seq<char>) -> Seq<char> {
    if s.len() > 0 && s[0] == '+' {
        s.drop_first()
    } else {
        s
    }
}

/// Every character is a decimal digit.
pub open spec fn all_digits(s: Seq<char>) -> bool {
    forall|i: int| 0 <= i < s.len() ==> digit(#[trigger] s[i])
}

/// The number that a text stands for: decimal digits, with a plus sign in
/// front or without, of a value that fits into 64 bits.
pub open spec fn number(s: Seq<char>) -> Option<int> {
    let digits = unsigned(s);
    if digits.len() > 0 && all_digits(digits) && digits_value(digits) <= u64::MAX {
        Some(digits_value(digits))
    } else {
        None
    }
}

/// Numbers are not negative.
pub proof fn lemma_number(s: Seq<char>)
    ensures
        number(s) is Some ==> 0 <= number(s)->0 <= u64::MAX,
{
    if number(s) is Some {
        lemma_digits_value(unsigned(s));
    }
}

proof fn lemma_digits_value(s: Seq<char>)
    requires
        all_digits(s),
    ensures
        digits_value(s) >= 0,
    decreases s.len(),
{
    if s.len() > 0 {
        assert(digit(s[s.len() - 1]));
        assert(all_digits(s.drop_last())) by {
            assert forall|i: int| 0 <= i < s.drop_last().len() implies digit(
                #[trigger] s.drop_last()[i],
            ) by {
                assert(digit(s[i]));
            }
        }
        lemma_digits_value(s.drop_last());
    }
}

/// The number that a text stands for.
pub fn parse_number(text: &str) -> (r: Option<u64>)
    ensures
        (match r {
            Some(n) => Some(n as int),
            None => None,
        }) == number(text@),
{
    let chars = chars_of(text);
    let total = chars.len();
    let first: usize = if total > 0 && chars[0] == '+' {
        1
    } else {
        0
    };
    let ghost digits = unsigned(text@);
    assert(digits =~= chars@.subrange(first as int, total as int));
    if first == total {
        return None;
    }
    let mut value: u64 = 0;
    let mut i: usize = first;
    let mut fits = true;
    while i < total
        invariant
            total == chars@.len(),
            first <= i <= total,
            digits == unsigned(text@),
            digits == chars@.subrange(first as int, total as int),
            forall|k: int| 0 <= k < i - first ==> digit(#[trigger] digits[k]),
            fits ==> value == digits_value(digits.take(i - first)),
            !fits ==> digits_value(digits.take(i - first)) > u64::MAX,
        decreases total - i,
    {
        assert(digits[i - first] == chars@[i as int]);
        if !is_digit(chars[i]) {
            return None;
        }
        proof {
            assert(digits.take(i - first + 1).drop_last() =~= digits.take(i - first));
            assert(digits.take(i - first + 1).last() == chars@[i as int]);
        }
        let d: u64 = (chars[i] as u32 - '0' as u32) as u64;
        if fits && (value < 1844674407370955161 || (value == 1844674407370955161 && d <= 5)) {
            value = value * 10 + d;
        } else {
            fits = false;
        }
        i += 1;
    }
    assert(digits.take(total - first) =~= digits);
    if fits {
        Some(value)
    } else {
        None
    }
}

/// A block of a document: a paragraph, or a heading with its level. The
/// offsets are bytes into the text.
#[derive(Debug, Clone, Copy, PartialEq, Eq, Structural)]
pub struct Block {
    pub start: usize,
    pub end: usize,
    pub heading_level: Option<u8>,
}

/// The text of a document and the blocks it is made of.
#[derive(Debug)]
pub struct PlainText {
    pub text: String,
    pub blocks: Vec<Block>,
}

/// The block names a part of the text.
pub open spec fn block_fits(text: Seq<char>, block: Block) -> bool {
    &&& block.start <= block.end
    &&& on_boundary(text, block.start as int)
    &&& on_boundary(text, block.end as int)
}

/// What the text holds at a block.
pub open spec fn block_part(text: Seq<char>, block: Block) -> Seq<char> {
    slice(text, block.start as int, block.end as int)
}

impl PlainText {
    /// Every block names a part of the text.
    pub open spec fn wf(&self) -> bool {
        forall|i: int| 0 <= i < self.blocks@.len() ==> block_fits(self.text@, #[trigger] self.blocks@[i])
    }

    /// What the text holds at a block.
    pub fn block_text(&self, block: &Block) -> (part: &str)
        requires
            block_fits(self.text@, *block),
        ensures
            part@ == block_part(self.text@, *block),
    {
        slice_of(self.text.as_str(), block.start, block.end)
    }
}

impl Default for PlainText {
    fn default() -> (plain: Self)
        ensures
            plain.text@ == Seq::<char>::empty(),
            plain.blocks@ == Seq::<Block>::empty(),
    {
        PlainText { text: String::new(), blocks: Vec::new() }
    }
}

} // verus!
