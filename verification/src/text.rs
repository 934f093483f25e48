//! Text: conversions to and from characters, and the splitting and trimming
//! that the file formats need.

use vstd::prelude::*;
use vstd::string::StringExecFns;

verus! {

/// `String::push` of the standard library appends the given character.
pub assume_specification[ String::push ](s: &mut String, c: char)
    ensures
        final(s)@ == old(s)@.push(c),
;

/// Wraps `String::from_utf8` of the standard library: the bytes are text if and
/// only if they are valid UTF-8, and the text is then what they decode to.
#[verifier::external_body]
fn string_from_utf8(bytes: Vec<u8>) -> (r: Option<String>)
    ensures
        r is Some <==> vstd::utf8::valid_utf8(bytes@),
        r matches Some(s) ==> s@ == vstd::utf8::decode_utf8(bytes@),
{
    String::from_utf8(bytes).ok()
}

/// The text that the bytes encode, if they are valid UTF-8.
pub open spec fn text_of(bytes: Seq<u8>) -> Option<Seq<char>> {
    if vstd::utf8::valid_utf8(bytes) {
        Some(vstd::utf8::decode_utf8(bytes))
    } else {
        None
    }
}

/// The text that bytes stand for, where what is not UTF-8 is replaced.
pub uninterp spec fn lossy_text(bytes: Seq<u8>) -> Seq<char>;

/// Wraps `String::from_utf8_lossy` of the standard library. The text is a
/// function of the bytes.
#[verifier::external_body]
pub(crate) fn decode_lossy(bytes: &[u8]) -> (r: String)
    ensures
        r@ == lossy_text(bytes@),
{
    String::from_utf8_lossy(bytes).into_owned()
}

/// Decodes UTF-8.
pub fn decode_text(bytes: Vec<u8>) -> (r: Option<String>)
    ensures
        r is Some <==> text_of(bytes@) is Some,
        r matches Some(s) ==> text_of(bytes@) == Some(s@),
{
    string_from_utf8(bytes)
}

/// The characters of a string.
pub fn to_chars(s: &str) -> (r: Vec<char>)
    ensures
        r@ == s@,
{
    let mut r: Vec<char> = Vec::new();
    for c in it: s.chars()
        invariant
            it.seq() == s@,
            r@ == s@.take(it.index() as int),
    {
        proof {
            assert(s@.take(it.index() as int).push(c) =~= s@.take(it.index() + 1));
        }
        r.push(c);
    }
    assert(s@.take(s@.len() as int) =~= s@);
    r
}

/// The string made of the given characters.
pub fn from_chars(v: &[char]) -> (r: String)
    ensures
        r@ == v@,
{
    let mut r = String::new();
    let mut i: usize = 0;
    while i < v.len()
        invariant
            i <= v.len(),
            r@ == v@.take(i as int),
        decreases v.len() - i,
    {
        assert(v@.take(i as int).push(v@[i as int]) =~= v@.take(i + 1));
        r.push(v[i]);
        i += 1;
    }
    assert(v@.take(i as int) =~= v@);
    r
}

/// The string made of the characters from `from` up to `to`.
pub fn from_char_range(v: &[char], from: usize, to: usize) -> (r: String)
    requires
        from <= to <= v@.len(),
    ensures
        r@ == v@.subrange(from as int, to as int),
{
    from_chars(vstd::slice::slice_subrange(v, from, to))
}

/// The UTF-8 form of a text.
pub open spec fn bytes_of(s: Seq<char>) -> Seq<u8> {
    vstd::utf8::encode_utf8(s)
}

/// Encodes a text as UTF-8.
pub fn text_bytes(s: &str) -> (r: Vec<u8>)
    ensures
        r@ == bytes_of(s@),
{
    vstd::slice::slice_to_vec(s.as_bytes())
}

/// A text is what its UTF-8 form decodes to.
pub proof fn lemma_text_bytes(s: Seq<char>)
    ensures
        text_of(bytes_of(s)) == Some(s),
{
    vstd::utf8::encode_utf8_valid_utf8(s);
    vstd::utf8::encode_utf8_decode_utf8(s);
}

/// Tells whether two strings are equal.
pub fn text_equal(a: &str, b: &str) -> (r: bool)
    ensures
        r == (a@ == b@),
{
    let r = crate::bytes::bytes_equal(a.as_bytes(), b.as_bytes());
    proof {
        vstd::utf8::encode_utf8_decode_utf8(a@);
        vstd::utf8::encode_utf8_decode_utf8(b@);
    }
    r
}

/// The decimal digit with the given value.
pub open spec fn digit_of(d: nat) -> char {
    (('0' as u32) + d) as char
}

/// The decimal representation of a number.
pub open spec fn decimal_of(n: nat) -> Seq<char>
    decreases n,
{
    if n < 10 {
        seq![digit_of(n)]
    } else {
        decimal_of(n / 10).push(digit_of(n % 10))
    }
}

/// The character of a decimal digit.
fn digit(d: u64) -> (r: char)
    requires
        d < 10,
    ensures
        r == digit_of(d as nat),
{
    (48u8 + (d as u8)) as char
}

/// Formats a number in decimal.
pub fn decimal(n: u64) -> (r: String)
    ensures
        r@ == decimal_of(n as nat),
    decreases n,
{
    let mut s = if n < 10 {
        String::new()
    } else {
        decimal(n / 10)
    };
    s.push(digit(n % 10));
    assert(n < 10 ==> s@ =~= seq![digit_of(n as nat)]);
    s
}

/// The white space characters of Unicode.
pub open spec fn is_white_space(c: char) -> bool {
    let u = c as u32;
    ||| 0x09 <= u <= 0x0d
    ||| u == 0x20
    ||| u == 0x85
    ||| u == 0xa0
    ||| u == 0x1680
    ||| 0x2000 <= u <= 0x200a
    ||| u == 0x2028
    ||| u == 0x2029
    ||| u == 0x202f
    ||| u == 0x205f
    ||| u == 0x3000
}

/// Tells whether a character is white space.
pub fn white_space(c: char) -> (r: bool)
    ensures
        r == is_white_space(c),
{
    let u: u32 = c as u32;
    (0x09 <= u && u <= 0x0d) || u == 0x20 || u == 0x85 || u == 0xa0 || u == 0x1680 || (0x2000 <= u
        && u <= 0x200a) || u == 0x2028 || u == 0x2029 || u == 0x202f || u == 0x205f || u == 0x3000
}

/// The text without the white space at its end.
pub open spec fn trim_end_of(s: Seq<char>) -> Seq<char>
    decreases s.len(),
{
    if s.len() > 0 && is_white_space(s.last()) {
        trim_end_of(s.drop_last())
    } else {
        s
    }
}

/// All characters are white space.
pub open spec fn is_blank(s: Seq<char>) -> bool {
    forall|i: int| 0 <= i < s.len() ==> is_white_space(#[trigger] s[i])
}

/// White space that is added at the end is removed again.
pub proof fn lemma_trim_blank(s: Seq<char>, space: Seq<char>)
    requires
        is_blank(space),
    ensures
        trim_end_of(s + space) == trim_end_of(s),
    decreases space.len(),
{
    if space.len() == 0 {
        assert(s + space =~= s);
    } else {
        assert(is_white_space(space[space.len() - 1]));
        assert((s + space).drop_last() =~= s + space.drop_last());
        lemma_trim_blank(s, space.drop_last());
    }
}

/// The number of characters that are left when white space at the end is removed.
pub fn trimmed_len(v: &[char]) -> (r: usize)
    ensures
        r <= v@.len(),
        v@.take(r as int) == trim_end_of(v@),
{
    let mut n: usize = v.len();
    assert(v@.take(n as int) =~= v@);
    while n > 0 && white_space(v[n - 1])
        invariant
            n <= v.len(),
            trim_end_of(v@.take(n as int)) == trim_end_of(v@),
        decreases n,
    {
        assert(v@.take(n as int).drop_last() =~= v@.take(n - 1));
        n -= 1;
    }
    n
}

/// The position of the last `c` in the text.
pub open spec fn last_position(s: Seq<char>, c: char) -> Option<int>
    decreases s.len(),
{
    if s.len() == 0 {
        None
    } else if s.last() == c {
        Some(s.len() - 1)
    } else {
        last_position(s.drop_last(), c)
    }
}

/// What the last position of a character is: it holds the character, and no
/// later one does.
pub proof fn lemma_last_position(s: Seq<char>, c: char)
    ensures
        match last_position(s, c) {
            Some(i) => 0 <= i < s.len() && s[i] == c && forall|j: int|
                i < j < s.len() ==> s[j] != c,
            None => !s.contains(c),
        },
    decreases s.len(),
{
    if s.len() > 0 && s.last() != c {
        lemma_last_position(s.drop_last(), c);
        assert(forall|j: int| 0 <= j < s.len() - 1 ==> s[j] == s.drop_last()[j]);
    }
}

/// Finds the last `c` in the text.
pub fn find_last(v: &[char], c: char) -> (r: Option<usize>)
    ensures
        match r {
            Some(i) => last_position(v@, c) == Some(i as int) && i < v@.len() && v@[i as int] == c,
            None => last_position(v@, c) is None,
        },
{
    let mut n: usize = v.len();
    assert(v@.take(n as int) =~= v@);
    while n > 0
        invariant
            n <= v.len(),
            last_position(v@.take(n as int), c) == last_position(v@, c),
        decreases n,
    {
        assert(v@.take(n as int).drop_last() =~= v@.take(n - 1));
        if v[n - 1] == c {
            return Some(n - 1);
        }
        n -= 1;
    }
    None
}

/// The octal representation of a number.
pub open spec fn octal_of(n: nat) -> Seq<char>
    decreases n,
{
    if n < 8 {
        seq![digit_of(n)]
    } else {
        octal_of(n / 8).push(digit_of(n % 8))
    }
}

/// Formats a number in octal.
pub fn octal(n: u64) -> (r: String)
    ensures
        r@ == octal_of(n as nat),
    decreases n,
{
    let mut s = if n < 8 {
        String::new()
    } else {
        octal(n / 8)
    };
    s.push(digit(n % 8));
    assert(n < 8 ==> s@ =~= seq![digit_of(n as nat)]);
    s
}

/// The decimal representation of a number with its sign, if it is negative.
pub open spec fn signed_of(n: int) -> Seq<char> {
    if n < 0 {
        seq!['-'] + decimal_of((-n) as nat)
    } else {
        decimal_of(n as nat)
    }
}

/// Formats a number in decimal, with its sign, if it is negative.
pub fn signed_decimal(n: i32) -> (r: String)
    ensures
        r@ == signed_of(n as int),
{
    if n < 0 {
        let mut r = String::new();
        r.push('-');
        r.append(decimal((-(n as i64)) as u64).as_str());
        assert(r@ =~= seq!['-'] + decimal_of((-(n as int)) as nat));
        r
    } else {
        decimal(n as u64)
    }
}

/// Tells whether the characters from a position on start with others.
pub fn starts_at(v: &[char], at: usize, prefix: &[char]) -> (r: bool)
    requires
        at <= v@.len(),
    ensures
        r == prefix@.is_prefix_of(v@.skip(at as int)),
{
    if v.len() - at < prefix.len() {
        return false;
    }
    let mut i: usize = 0;
    while i < prefix.len()
        invariant
            at + prefix.len() <= v.len(),
            i <= prefix.len(),
            forall|j: int| 0 <= j < i ==> v@[at + j] == prefix@[j],
        decreases prefix.len() - i,
    {
        if v[at + i] != prefix[i] {
            proof {
                if prefix@.is_prefix_of(v@.skip(at as int)) {
                    let head = v@.skip(at as int).subrange(0, prefix@.len() as int);
                    assert(head[i as int] == v@[at + i]);
                }
            }
            return false;
        }
        i += 1;
    }
    assert(v@.skip(at as int).subrange(0, prefix@.len() as int) =~= prefix@);
    true
}

/// The other text is somewhere in the text.
pub open spec fn occurs(s: Seq<char>, pattern: Seq<char>) -> bool {
    exists|i: int| 0 <= i <= s.len() && pattern.is_prefix_of(#[trigger] s.skip(i))
}

/// Tells whether the other text is somewhere in the text.
pub fn contains(s: &str, pattern: &str) -> (r: bool)
    ensures
        r == occurs(s@, pattern@),
{
    let v = to_chars(s);
    let p = to_chars(pattern);
    let mut i: usize = 0;
    while i < v.len()
        invariant
            v@ == s@,
            p@ == pattern@,
            i <= v.len(),
            forall|j: int| 0 <= j < i ==> !pattern@.is_prefix_of(#[trigger] s@.skip(j)),
        decreases v.len() - i,
    {
        if starts_at(v.as_slice(), i, p.as_slice()) {
            return true;
        }
        i += 1;
    }
    starts_at(v.as_slice(), i, p.as_slice())
}

/// The text with each occurrence of a pattern replaced, from the left.
pub open spec fn replaced_of(s: Seq<char>, pattern: Seq<char>, by: Seq<char>) -> Seq<char>
    decreases s.len(),
{
    if s.len() == 0 || pattern.len() == 0 {
        s
    } else if pattern.is_prefix_of(s) {
        by + replaced_of(s.skip(pattern.len() as int), pattern, by)
    } else {
        seq![s[0]] + replaced_of(s.skip(1), pattern, by)
    }
}

/// Replaces each occurrence of a pattern.
pub fn replace(s: &str, pattern: &str, by: &str) -> (r: String)
    requires
        pattern@.len() > 0,
    ensures
        r@ == replaced_of(s@, pattern@, by@),
{
    let v = to_chars(s);
    let p = to_chars(pattern);
    let mut r = String::new();
    let mut i: usize = 0;
    assert(v@.skip(0) =~= v@);
    assert(r@ + replaced_of(v@.skip(0), p@, by@) =~= replaced_of(v@, p@, by@));
    while i < v.len()
        invariant
            i <= v.len(),
            p@ == pattern@,
            p@.len() > 0,
            r@ + replaced_of(v@.skip(i as int), p@, by@) == replaced_of(v@, p@, by@),
        decreases v.len() - i,
    {
        let ghost before = r@;
        let ghost rest = v@.skip(i as int);
        if starts_at(v.as_slice(), i, p.as_slice()) {
            assert(p@.len() <= rest.len());
            r.append(by);
            proof {
                assert(rest.skip(p@.len() as int) =~= v@.skip(i + p@.len()));
                assert(r@ + replaced_of(v@.skip(i + p@.len()), p@, by@) =~= before + replaced_of(
                    rest,
                    p@,
                    by@,
                ));
            }
            i += p.len();
        } else {
            r.push(v[i]);
            proof {
                assert(rest.skip(1) =~= v@.skip(i + 1));
                assert(r@ + replaced_of(v@.skip(i + 1), p@, by@) =~= before + replaced_of(
                    rest,
                    p@,
                    by@,
                ));
            }
            i += 1;
        }
    }
    assert(v@.skip(i as int) =~= Seq::empty());
    assert(r@ =~= replaced_of(v@, p@, by@));
    r
}

/// The given number of spaces.
pub open spec fn spaces_of(n: nat) -> Seq<char> {
    Seq::new(n, |i: int| ' ')
}

/// Appends characters to a text.
pub fn push_repeated(s: &mut String, c: char, n: usize)
    ensures
        final(s)@ == old(s)@ + Seq::new(n as nat, |i: int| c),
{
    let ghost before = s@;
    let mut i: usize = 0;
    assert(s@ =~= before + Seq::new(0, |i: int| c));
    while i < n
        invariant
            i <= n,
            s@ == before + Seq::new(i as nat, |i: int| c),
        decreases n - i,
    {
        s.push(c);
        i += 1;
        assert(s@ =~= before + Seq::new(i as nat, |i: int| c));
    }
}

/// A text in which a pattern does not occur stays as it is.
pub proof fn law_replacing_nothing_changes_nothing(s: Seq<char>, pattern: Seq<char>, by: Seq<char>)
    requires
        forall|i: int| 0 <= i <= s.len() - pattern.len() ==> #[trigger] s.subrange(
            i,
            i + pattern.len(),
        ) != pattern,
    ensures
        replaced_of(s, pattern, by) == s,
    decreases s.len(),
{
    if s.len() > 0 && pattern.len() > 0 {
        if pattern.is_prefix_of(s) {
            assert(s.subrange(0, 0 + pattern.len() as int) =~= pattern);
        }
        let rest = s.skip(1);
        assert forall|i: int| 0 <= i <= rest.len() - pattern.len() implies #[trigger] rest.subrange(
            i,
            i + pattern.len(),
        ) != pattern by {
            assert(rest.subrange(i, i + pattern.len()) =~= s.subrange(i + 1, i + 1 + pattern.len()));
        }
        law_replacing_nothing_changes_nothing(rest, pattern, by);
        assert(seq![s[0]] + rest =~= s);
    }
}

/// Replacing a pattern leaves what is before its first occurrence as it is, puts
/// the other text in place of that occurrence, and goes on with what is after
/// it.
pub proof fn law_first_occurrence_is_replaced(
    before: Seq<char>,
    pattern: Seq<char>,
    after: Seq<char>,
    by: Seq<char>,
)
    requires
        pattern.len() > 0,
        forall|i: int|
            0 <= i < before.len() ==> #[trigger] (before + pattern + after).subrange(
                i,
                i + pattern.len(),
            ) != pattern,
    ensures
        replaced_of(before + pattern + after, pattern, by) == before + by + replaced_of(
            after,
            pattern,
            by,
        ),
    decreases before.len(),
{
    let s = before + pattern + after;
    if before.len() == 0 {
        assert(s.take(pattern.len() as int) =~= pattern);
        assert(pattern.is_prefix_of(s));
        assert(s.skip(pattern.len() as int) =~= after);
        assert(before + by =~= by);
    } else {
        if pattern.is_prefix_of(s) {
            assert(s.subrange(0, 0 + pattern.len() as int) =~= pattern);
        }
        let rest = before.skip(1);
        assert(s.skip(1) =~= rest + pattern + after);
        assert forall|i: int| 0 <= i < rest.len() implies #[trigger] (rest + pattern
            + after).subrange(i, i + pattern.len()) != pattern by {
            assert((rest + pattern + after).subrange(i, i + pattern.len()) =~= s.subrange(
                i + 1,
                i + 1 + pattern.len(),
            ));
        }
        law_first_occurrence_is_replaced(rest, pattern, after, by);
        assert(seq![s[0]] + (rest + by + replaced_of(after, pattern, by)) =~= before + by
            + replaced_of(after, pattern, by));
    }
}

/// A text without the first character of a pattern stays as it is.
pub proof fn lemma_replace_absent(s: Seq<char>, pattern: Seq<char>, by: Seq<char>)
    requires
        pattern.len() > 0,
        !s.contains(pattern[0]),
    ensures
        replaced_of(s, pattern, by) == s,
{
    assert forall|i: int| 0 <= i <= s.len() - pattern.len() implies #[trigger] s.subrange(
        i,
        i + pattern.len(),
    ) != pattern by {
        assert(s.subrange(i, i + pattern.len())[0] == s[i]);
    }
    law_replacing_nothing_changes_nothing(s, pattern, by);
}

/// A pattern of two characters between texts without its first character is
/// replaced.
pub proof fn lemma_replace_one(before: Seq<char>, pattern: Seq<char>, after: Seq<char>, by: Seq<char>)
    requires
        pattern.len() > 0,
        !before.contains(pattern[0]),
        !after.contains(pattern[0]),
    ensures
        replaced_of(before + pattern + after, pattern, by) == before + by + after,
{
    let s = before + pattern + after;
    assert forall|i: int| 0 <= i < before.len() implies #[trigger] s.subrange(i, i + pattern.len())
        != pattern by {
        assert(s.subrange(i, i + pattern.len())[0] == before[i]);
        assert(before.contains(before[i]));
    }
    law_first_occurrence_is_replaced(before, pattern, after, by);
    lemma_replace_absent(after, pattern, by);
}

/// A pattern that differs in its second character is left alone.
pub proof fn lemma_replace_other(
    before: Seq<char>,
    other: Seq<char>,
    after: Seq<char>,
    pattern: Seq<char>,
    by: Seq<char>,
)
    requires
        pattern.len() == 2,
        other.len() == 2,
        other[1] != pattern[1],
        other[1] != pattern[0],
        !before.contains(pattern[0]),
        !after.contains(pattern[0]),
    ensures
        replaced_of(before + other + after, pattern, by) == before + other + after,
{
    let s = before + other + after;
    assert forall|i: int| 0 <= i <= s.len() - pattern.len() implies #[trigger] s.subrange(
        i,
        i + pattern.len(),
    ) != pattern by {
        let t = s.subrange(i, i + pattern.len());
        assert(t[0] == s[i] && t[1] == s[i + 1]);
        if i < before.len() {
            assert(before.contains(before[i]));
        } else if i > before.len() + 1 {
            assert(after[i - before.len() - 2] == s[i]);
            assert(after.contains(s[i]));
        }
    }
    law_replacing_nothing_changes_nothing(s, pattern, by);
}

/// The number that decimal digits stand for.
pub open spec fn value_of_digits(s: Seq<char>) -> int
    decreases s.len(),
{
    if s.len() == 0 {
        0
    } else {
        10 * value_of_digits(s.drop_last()) + (s.last() as int - '0' as int)
    }
}

/// The decimal form of a number has nothing but digits, does not start with a
/// zero unless it is just that, and stands for the number.
pub proof fn law_decimal_stands_for_number(n: nat)
    ensures
        decimal_of(n).len() > 0,
        forall|i: int| 0 <= i < decimal_of(n).len() ==> '0' <= #[trigger] decimal_of(n)[i] <= '9',
        n > 0 ==> decimal_of(n)[0] != '0',
        value_of_digits(decimal_of(n)) == n,
    decreases n,
{
    reveal_with_fuel(value_of_digits, 2);
    if n < 10 {
        assert(decimal_of(n).drop_last() =~= Seq::empty());
    } else {
        law_decimal_stands_for_number(n / 10);
        assert(decimal_of(n).drop_last() =~= decimal_of(n / 10));
    }
}

/// The number that octal digits stand for.
pub open spec fn value_of_octal(s: Seq<char>) -> int
    decreases s.len(),
{
    if s.len() == 0 {
        0
    } else {
        8 * value_of_octal(s.drop_last()) + (s.last() as int - '0' as int)
    }
}

/// The octal form of a number has nothing but octal digits, does not start with
/// a zero unless it is just that, and stands for the number.
pub proof fn law_octal_stands_for_number(n: nat)
    ensures
        octal_of(n).len() > 0,
        forall|i: int| 0 <= i < octal_of(n).len() ==> '0' <= #[trigger] octal_of(n)[i] <= '7',
        n > 0 ==> octal_of(n)[0] != '0',
        value_of_octal(octal_of(n)) == n,
    decreases n,
{
    reveal_with_fuel(value_of_octal, 2);
    if n < 8 {
        assert(octal_of(n).drop_last() =~= Seq::empty());
    } else {
        law_octal_stands_for_number(n / 8);
        assert(octal_of(n).drop_last() =~= octal_of(n / 8));
    }
}

/// Removing the white space at the end of a text leaves a first part of it that
/// does not end in white space, and what is removed is nothing but white space.
pub proof fn law_only_white_space_is_trimmed(s: Seq<char>)
    ensures
        trim_end_of(s).is_prefix_of(s),
        trim_end_of(s).len() > 0 ==> !is_white_space(trim_end_of(s).last()),
        is_blank(s.skip(trim_end_of(s).len() as int)),
    decreases s.len(),
{
    if s.len() > 0 && is_white_space(s.last()) {
        law_only_white_space_is_trimmed(s.drop_last());
        let n = trim_end_of(s).len() as int;
        assert(trim_end_of(s) =~= s.take(n));
        assert forall|i: int| 0 <= i < s.skip(n).len() implies is_white_space(
            #[trigger] s.skip(n)[i],
        ) by {
            if i < s.len() - n - 1 {
                assert(s.drop_last().skip(n)[i] == s.skip(n)[i]);
            }
        }
    } else {
        assert(s =~= s.take(s.len() as int));
    }
}

/// A negative number has a sign before the digits of its amount, and no other
/// number has one.
pub proof fn law_signed_form(n: int)
    ensures
        n >= 0 ==> signed_of(n) == decimal_of(n as nat),
        n < 0 ==> signed_of(n) == seq!['-'] + decimal_of((-n) as nat),
{
    reveal_strlit("-");
    assert("-"@ =~= seq!['-']);
}

/// Spaces are as many as they are meant to be, and nothing else.
pub proof fn law_spaces(n: nat)
    ensures
        spaces_of(n).len() == n,
        forall|i: int| 0 <= i < n ==> #[trigger] spaces_of(n)[i] == ' ',
{
}

/// A text occurs in another if and only if that is made of something, the text,
/// and something else, either of which may be empty.
pub proof fn law_occurring_text_is_between_others(s: Seq<char>, pattern: Seq<char>)
    ensures
        occurs(s, pattern) <==> exists|before: Seq<char>, after: Seq<char>|
            #![trigger before + pattern + after]
            s == before + pattern + after,
{
    if occurs(s, pattern) {
        let i = choose|i: int| 0 <= i <= s.len() && pattern.is_prefix_of(#[trigger] s.skip(i));
        let before = s.take(i);
        let after = s.skip(i + pattern.len());
        assert(pattern == s.skip(i).subrange(0, pattern.len() as int));
        assert(s =~= before + pattern + after);
    }
    if exists|before: Seq<char>, after: Seq<char>|
        #![trigger before + pattern + after]
        s == before + pattern + after {
        let (before, after) = choose|before: Seq<char>, after: Seq<char>|
            #![trigger before + pattern + after]
            s == before + pattern + after;
        let rest = s.skip(before.len() as int);
        assert(pattern =~= rest.subrange(0, pattern.len() as int));
        assert(pattern.is_prefix_of(s.skip(before.len() as int)));
    }
}

} // verus!
