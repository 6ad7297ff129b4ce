//! Character-level primitives that the configuration language is built on.
//!
//! Every operation is specified over `Seq<char>` and implemented over
//! borrowed slices of characters, so that the parser never copies a line
//! only to look at a part of it.

use vstd::prelude::*;
use vstd::slice::slice_subrange;
use vstd::string::StringSliceAdditionalSpecFns;
use vstd::utf8::encode_utf8;

verus! {

/// The characters that carry the Unicode `White_Space` property.
pub open spec fn is_whitespace(c: char) -> bool {
    let n = c as u32;
    ||| 0x09 <= n <= 0x0D
    ||| n == 0x20
    ||| n == 0x85
    ||| n == 0xA0
    ||| n == 0x1680
    ||| 0x2000 <= n <= 0x200A
    ||| n == 0x2028
    ||| n == 0x2029
    ||| n == 0x202F
    ||| n == 0x205F
    ||| n == 0x3000
}

/// The number of bytes that `c` takes in UTF-8.
pub open spec fn char_width(c: char) -> nat {
    let n = c as u32;
    if n < 0x80 {
        1
    } else if n < 0x800 {
        2
    } else if n < 0x10000 {
        3
    } else {
        4
    }
}

/// The number of bytes that `s` takes in UTF-8.
pub open spec fn byte_len(s: Seq<char>) -> nat
    decreases s.len(),
{
    if s.len() == 0 {
        0
    } else {
        char_width(s[0]) + byte_len(s.drop_first())
    }
}

/// How many white-space characters `s` begins with.
pub open spec fn leading_whitespace(s: Seq<char>) -> nat
    decreases s.len(),
{
    if s.len() > 0 && is_whitespace(s[0]) {
        1 + leading_whitespace(s.drop_first())
    } else {
        0
    }
}

/// How many white-space characters `s` ends with.
pub open spec fn trailing_whitespace(s: Seq<char>) -> nat
    decreases s.len(),
{
    if s.len() > 0 && is_whitespace(s.last()) {
        1 + trailing_whitespace(s.drop_last())
    } else {
        0
    }
}

/// `s` without its leading white space.
pub open spec fn trim_start(s: Seq<char>) -> Seq<char> {
    s.skip(leading_whitespace(s) as int)
}

/// `s` without its trailing white space.
pub open spec fn trim_end(s: Seq<char>) -> Seq<char> {
    s.take(s.len() - trailing_whitespace(s))
}

/// `s` without the white space at either end.
pub open spec fn trim(s: Seq<char>) -> Seq<char> {
    trim_start(trim_end(s))
}

/// The position of the first `c` in `s`, or the length of `s` if there is none.
pub open spec fn index_of(s: Seq<char>, c: char) -> nat
    decreases s.len(),
{
    if s.len() == 0 || s[0] == c {
        0
    } else {
        1 + index_of(s.drop_first(), c)
    }
}

/// The position of the first `a` directly followed by `b` in `s`, or the
/// length of `s` if there is none.
pub open spec fn index_of_pair(s: Seq<char>, a: char, b: char) -> nat
    decreases s.len(),
{
    if s.len() < 2 {
        s.len()
    } else if s[0] == a && s[1] == b {
        0
    } else {
        1 + index_of_pair(s.drop_first(), a, b)
    }
}

/// The parts of `s` before and after its first `c`, if it holds one.
pub open spec fn split_once(s: Seq<char>, c: char) -> Option<(Seq<char>, Seq<char>)> {
    let i = index_of(s, c) as int;
    if i < s.len() {
        Some((s.take(i), s.skip(i + 1)))
    } else {
        None
    }
}

/// The parts of `s` before and after the first `a` directly followed by `b`,
/// if it holds one.
pub open spec fn split_once_pair(s: Seq<char>, a: char, b: char) -> Option<
    (Seq<char>, Seq<char>),
> {
    let i = index_of_pair(s, a, b) as int;
    if i < s.len() {
        Some((s.take(i), s.skip(i + 2)))
    } else {
        None
    }
}

/// A word is a non-empty run of characters none of which is white space.
pub open spec fn is_word(s: Seq<char>) -> bool {
    s.len() > 0 && forall|i: int| 0 <= i < s.len() ==> !is_whitespace(#[trigger] s[i])
}

/// The byte length of a concatenation is the sum of the byte lengths.
pub proof fn lemma_byte_len_concat(a: Seq<char>, b: Seq<char>)
    ensures
        byte_len(a + b) == byte_len(a) + byte_len(b),
    decreases a.len(),
{
    if a.len() == 0 {
        assert(a + b =~= b);
    } else {
        lemma_byte_len_concat(a.drop_first(), b);
        assert((a + b).drop_first() =~= a.drop_first() + b);
    }
}

/// The byte length of a prefix is at most that of the whole.
pub proof fn lemma_byte_len_prefix(s: Seq<char>, n: int)
    requires
        0 <= n <= s.len(),
    ensures
        byte_len(s.take(n)) <= byte_len(s),
        byte_len(s.take(n)) + byte_len(s.skip(n)) == byte_len(s),
        n <= byte_len(s.take(n)),
    decreases n,
{
    lemma_byte_len_concat(s.take(n), s.skip(n));
    assert(s.take(n) + s.skip(n) =~= s);
    if n > 0 {
        lemma_byte_len_prefix(s, n - 1);
        lemma_byte_len_step(s, n - 1);
    }
}

/// One more character adds its width to the byte length of a prefix.
pub proof fn lemma_byte_len_step(s: Seq<char>, n: int)
    requires
        0 <= n < s.len(),
    ensures
        byte_len(s.take(n + 1)) == byte_len(s.take(n)) + char_width(s[n]),
{
    let one = seq![s[n]];
    lemma_byte_len_concat(s.take(n), one);
    assert(s.take(n) + one =~= s.take(n + 1));
    assert(one.drop_first() =~= Seq::<char>::empty());
    assert(byte_len(one.drop_first()) == 0);
    assert(byte_len(one) == char_width(one[0]) + byte_len(one.drop_first()));
}

/// `byte_len` is the length of the UTF-8 encoding.
pub proof fn lemma_byte_len_is_encoded_len(s: Seq<char>)
    ensures
        byte_len(s) == encode_utf8(s).len(),
    decreases s.len(),
{
    if s.len() > 0 {
        lemma_byte_len_is_encoded_len(s.drop_first());
        vstd::utf8::char_is_scalar(s[0]);
    }
}

/// Trimming removes exactly the white space at the two ends.
pub proof fn lemma_trim_start_clean(s: Seq<char>)
    ensures
        leading_whitespace(trim_start(s)) == 0,
        trim_start(s).len() > 0 ==> !is_whitespace(trim_start(s)[0]),
        leading_whitespace(s) <= s.len(),
        forall|i: int| 0 <= i < leading_whitespace(s) ==> is_whitespace(#[trigger] s[i]),
    decreases s.len(),
{
    if s.len() > 0 && is_whitespace(s[0]) {
        let t = s.drop_first();
        lemma_trim_start_clean(t);
        assert(trim_start(s) =~= trim_start(t));
        assert forall|i: int| 0 <= i < leading_whitespace(s) implies is_whitespace(
            #[trigger] s[i],
        ) by {
            if i > 0 {
                assert(s[i] == t[i - 1]);
            }
        }
    } else {
        assert(trim_start(s) =~= s);
    }
}

/// Where the first `c` stands, no `c` stands before it.
pub proof fn lemma_index_of(s: Seq<char>, c: char)
    ensures
        index_of(s, c) <= s.len(),
        index_of(s, c) < s.len() ==> s[index_of(s, c) as int] == c,
        forall|i: int| 0 <= i < index_of(s, c) ==> #[trigger] s[i] != c,
    decreases s.len(),
{
    if s.len() == 0 || s[0] == c {
    } else {
        let t = s.drop_first();
        lemma_index_of(t, c);
        assert forall|i: int| 0 <= i < index_of(s, c) implies #[trigger] s[i] != c by {
            if i > 0 {
                assert(s[i] == t[i - 1]);
            }
        }
    }
}

/// Where the first pair stands, it does stand, and none stands before it.
pub proof fn lemma_index_of_pair(s: Seq<char>, a: char, b: char)
    ensures
        index_of_pair(s, a, b) <= s.len(),
        index_of_pair(s, a, b) < s.len() ==> {
            let i = index_of_pair(s, a, b) as int;
            i + 1 < s.len() && s[i] == a && s[i + 1] == b
        },
        forall|i: int|
            0 <= i < index_of_pair(s, a, b) && i + 1 < s.len() ==> !(#[trigger] s[i] == a && s[i
                + 1] == b),
    decreases s.len(),
{
    if s.len() < 2 {
    } else if s[0] == a && s[1] == b {
    } else {
        let t = s.drop_first();
        lemma_index_of_pair(t, a, b);
        assert forall|i: int|
            0 <= i < index_of_pair(s, a, b) && i + 1 < s.len() implies !(#[trigger] s[i] == a
            && s[i + 1] == b) by {
            if i > 0 {
                assert(s[i] == t[i - 1]);
                assert(s[i + 1] == t[i]);
            }
        }
    }
}

/// Decides whether `c` is a white-space character.
pub fn whitespace(c: char) -> (b: bool)
    ensures
        b == is_whitespace(c),
{
    let n: u32 = c as u32;
    (0x09 <= n && n <= 0x0D) || n == 0x20 || n == 0x85 || n == 0xA0 || n == 0x1680 || (0x2000 <= n
        && n <= 0x200A) || n == 0x2028 || n == 0x2029 || n == 0x202F || n == 0x205F || n == 0x3000
}

/// The number of bytes that `c` takes in UTF-8.
pub fn width(c: char) -> (w: usize)
    ensures
        w == char_width(c),
        1 <= w <= 4,
{
    let n: u32 = c as u32;
    if n < 0x80 {
        1
    } else if n < 0x800 {
        2
    } else if n < 0x10000 {
        3
    } else {
        4
    }
}

/// Counts the white-space characters that `s` begins with.
pub fn leading(s: &[char]) -> (n: usize)
    ensures
        n == leading_whitespace(s@),
        n <= s@.len(),
{
    let mut i: usize = 0;
    assert(s@.skip(0) =~= s@);
    while i < s.len() && whitespace(s[i])
        invariant
            i <= s@.len(),
            leading_whitespace(s@) == i + leading_whitespace(s@.skip(i as int)),
        decreases s@.len() - i,
    {
        assert(s@.skip(i as int).drop_first() =~= s@.skip(i + 1));
        i += 1;
    }
    i
}

/// Counts the white-space characters that `s` ends with.
pub fn trailing(s: &[char]) -> (n: usize)
    ensures
        n == trailing_whitespace(s@),
        n <= s@.len(),
{
    let len: usize = s.len();
    let mut i: usize = 0;
    assert(s@.take(len as int) =~= s@);
    while i < len && whitespace(s[len - 1 - i])
        invariant
            len == s@.len(),
            i <= len,
            trailing_whitespace(s@) == i + trailing_whitespace(s@.take(len - i)),
        decreases len - i,
    {
        assert(s@.take(len - i).drop_last() =~= s@.take(len - (i + 1)));
        i += 1;
    }
    i
}

/// `s` without its leading white space.
pub fn trimmed_start<'a>(s: &'a [char]) -> (r: &'a [char])
    ensures
        r@ == trim_start(s@),
        r@ == s@.skip(s@.len() - r@.len()),
        r@.len() <= s@.len(),
{
    slice_subrange(s, leading(s), s.len())
}

/// `s` without its trailing white space.
pub fn trimmed_end<'a>(s: &'a [char]) -> (r: &'a [char])
    ensures
        r@ == trim_end(s@),
        r@ == s@.take(r@.len() as int),
        r@.len() <= s@.len(),
{
    slice_subrange(s, 0, s.len() - trailing(s))
}

/// `s` without the white space at either end.
pub fn trimmed<'a>(s: &'a [char]) -> (r: &'a [char])
    ensures
        r@ == trim(s@),
{
    trimmed_start(trimmed_end(s))
}

/// Finds the first `c` in `s`.
pub fn find(s: &[char], c: char) -> (i: usize)
    ensures
        i == index_of(s@, c),
        i <= s@.len(),
{
    let mut i: usize = 0;
    assert(s@.skip(0) =~= s@);
    while i < s.len() && s[i] != c
        invariant
            i <= s@.len(),
            index_of(s@, c) == i + index_of(s@.skip(i as int), c),
        decreases s@.len() - i,
    {
        assert(s@.skip(i as int).drop_first() =~= s@.skip(i + 1));
        i += 1;
    }
    i
}

/// Finds the first `a` directly followed by `b` in `s`.
pub fn find_pair(s: &[char], a: char, b: char) -> (i: usize)
    ensures
        i == index_of_pair(s@, a, b),
        i <= s@.len(),
{
    let len: usize = s.len();
    let mut i: usize = 0;
    assert(s@.skip(0) =~= s@);
    while len - i >= 2 && !(s[i] == a && s[i + 1] == b)
        invariant
            len == s@.len(),
            i <= len,
            index_of_pair(s@, a, b) == i + index_of_pair(s@.skip(i as int), a, b),
        decreases len - i,
    {
        assert(s@.skip(i as int).drop_first() =~= s@.skip(i + 1));
        i += 1;
    }
    if len - i < 2 {
        len
    } else {
        i
    }
}

/// Splits `s` at its first `c`.
pub fn cut<'a>(s: &'a [char], c: char) -> (r: Option<(&'a [char], &'a [char])>)
    ensures
        match r {
            Some((head, tail)) => split_once(s@, c) == Some((head@, tail@)),
            None => split_once(s@, c) is None,
        },
{
    let i = find(s, c);
    if i < s.len() {
        Some((slice_subrange(s, 0, i), slice_subrange(s, i + 1, s.len())))
    } else {
        None
    }
}

/// Splits `s` at the first `a` directly followed by `b`.
pub fn cut_pair<'a>(s: &'a [char], a: char, b: char) -> (r: Option<(&'a [char], &'a [char])>)
    ensures
        match r {
            Some((head, tail)) => split_once_pair(s@, a, b) == Some((head@, tail@)),
            None => split_once_pair(s@, a, b) is None,
        },
{
    let i = find_pair(s, a, b);
    if i < s.len() {
        proof {
            lemma_index_of_pair(s@, a, b);
        }
        Some((slice_subrange(s, 0, i), slice_subrange(s, i + 2, s.len())))
    } else {
        None
    }
}

/// Decides whether `s` is a single word.
pub fn word(s: &[char]) -> (b: bool)
    ensures
        b == is_word(s@),
{
    if s.len() == 0 {
        return false;
    }
    let mut i: usize = 0;
    while i < s.len()
        invariant
            i <= s@.len(),
            forall|j: int| 0 <= j < i ==> !is_whitespace(#[trigger] s@[j]),
        decreases s@.len() - i,
    {
        if whitespace(s[i]) {
            return false;
        }
        i += 1;
    }
    true
}

/// Decides whether two runs of characters are the same.
pub fn same(a: &[char], b: &[char]) -> (r: bool)
    ensures
        r == (a@ == b@),
{
    if a.len() != b.len() {
        return false;
    }
    let mut i: usize = 0;
    while i < a.len()
        invariant
            a@.len() == b@.len(),
            i <= a@.len(),
            forall|j: int| 0 <= j < i ==> a@[j] == b@[j],
        decreases a@.len() - i,
    {
        if a[i] != b[i] {
            return false;
        }
        i += 1;
    }
    assert(a@ =~= b@);
    true
}

/// The characters of `s`, in order.
pub fn chars_of(s: &str) -> (v: Vec<char>)
    ensures
        v@ == s@,
        byte_len(v@) <= usize::MAX,
{
    let mut v: Vec<char> = Vec::new();
    for c in it: s.chars()
        invariant
            v@ == it.seq().take(it.index() as int),
    {
        v.push(c);
    }
    let bytes = s.as_bytes();
    let n: usize = bytes.len();
    proof {
        lemma_byte_len_is_encoded_len(s@);
        assert(v@ == s@);
        assert(bytes@ == s.spec_bytes());
        assert(s.spec_bytes() == encode_utf8(s@));
    }
    v
}

/// Appends one character to a `String` (`String::push`).
#[verifier::external_body]
fn push_char(s: &mut String, c: char)
    ensures
        final(s)@ == old(s)@.push(c),
{
    s.push(c)
}

/// The string made of the characters of `s`, in order.
pub fn string_of(s: &[char]) -> (r: String)
    ensures
        r@ == s@,
{
    let mut r = String::new();
    let mut i: usize = 0;
    while i < s.len()
        invariant
            i <= s@.len(),
            r@ == s@.take(i as int),
        decreases s@.len() - i,
    {
        push_char(&mut r, s[i]);
        assert(s@.take(i as int).push(s@[i as int]) =~= s@.take(i + 1));
        i += 1;
    }
    r
}

} // verus!
