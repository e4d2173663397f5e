//! Character-level text model shared by the segmenter and the splitter.
//!
//! Text is modelled as a `Seq<char>`; lengths that the library compares with
//! limits are UTF-8 byte lengths, as `str::len` reports them.
use vstd::prelude::*;
use vstd::std_specs::iter::IteratorSpec;
use vstd::utf8::*;

verus! {

broadcast use vstd::string::group_string_axioms;

/// Number of bytes in the UTF-8 encoding of `c`.
pub open spec fn char_width(c: char) -> nat {
    let v = c as u32;
    if v <= 0x7f {
        1
    } else if v <= 0x7ff {
        2
    } else if v <= 0xffff {
        3
    } else {
        4
    }
}

/// Number of bytes in the UTF-8 encoding of `s`.
pub open spec fn byte_len(s: Seq<char>) -> nat
    decreases s.len(),
{
    if s.len() == 0 {
        0
    } else {
        char_width(s[0]) + byte_len(s.drop_first())
    }
}

/// The concatenation of all pieces, in order.
pub open spec fn flatten(pieces: Seq<Seq<char>>) -> Seq<char>
    decreases pieces.len(),
{
    if pieces.len() == 0 {
        Seq::empty()
    } else {
        flatten(pieces.drop_last()) + pieces.last()
    }
}

/// Whether `c` has the Unicode `White_Space` property, which
/// `char::is_whitespace` tests: U+0009 to U+000D, U+0020, U+0085, U+00A0,
/// U+1680, U+2000 to U+200A, U+2028, U+2029, U+202F, U+205F and U+3000.
pub open spec fn is_white_space(c: char) -> bool {
    let v = c as u32;
    ||| 0x9 <= v <= 0xd
    ||| v == 0x20
    ||| v == 0x85
    ||| v == 0xa0
    ||| v == 0x1680
    ||| 0x2000 <= v <= 0x200a
    ||| v == 0x2028
    ||| v == 0x2029
    ||| v == 0x202f
    ||| v == 0x205f
    ||| v == 0x3000
}

/// Every character of `s` is whitespace, i.e. `s.trim()` is empty.
pub open spec fn all_white(s: Seq<char>) -> bool {
    forall|i: int| 0 <= i < s.len() ==> is_white_space(#[trigger] s[i])
}

/// `pat` occurs in `text` starting at index `i`.
pub open spec fn occurs_at(text: Seq<char>, pat: Seq<char>, i: int) -> bool {
    &&& 0 <= i
    &&& i + pat.len() <= text.len()
    &&& text.subrange(i, i + pat.len()) == pat
}

/// `pat` occurs somewhere in `text` (`str::contains`).
pub open spec fn contains(text: Seq<char>, pat: Seq<char>) -> bool {
    exists|i: int| occurs_at(text, pat, i)
}

/// The leftmost occurrence of `pat` in `text` that starts at or after `start`.
pub open spec fn find_from(text: Seq<char>, pat: Seq<char>, start: int) -> Option<int>
    decreases text.len() + 1 - start,
{
    if start < 0 || start + pat.len() > text.len() {
        None
    } else if occurs_at(text, pat, start) {
        Some(start)
    } else {
        find_from(text, pat, start + 1)
    }
}

pub proof fn lemma_find_from(text: Seq<char>, pat: Seq<char>, start: int)
    requires
        0 <= start,
    ensures
        find_from(text, pat, start) matches Some(j) ==> {
            &&& start <= j
            &&& occurs_at(text, pat, j)
            &&& forall|k: int| start <= k < j ==> !occurs_at(text, pat, k)
        },
        find_from(text, pat, start) is None ==> forall|k: int|
            start <= k ==> !occurs_at(text, pat, k),
    decreases text.len() + 1 - start,
{
    if start + pat.len() > text.len() {
    } else if occurs_at(text, pat, start) {
    } else {
        lemma_find_from(text, pat, start + 1);
    }
}

pub proof fn lemma_byte_len_concat(a: Seq<char>, b: Seq<char>)
    ensures
        byte_len(a + b) == byte_len(a) + byte_len(b),
    decreases a.len(),
{
    if a.len() == 0 {
        assert(a + b =~= b);
    } else {
        assert((a + b).drop_first() =~= a.drop_first() + b);
        lemma_byte_len_concat(a.drop_first(), b);
    }
}

pub proof fn lemma_byte_len_push(a: Seq<char>, c: char)
    ensures
        byte_len(a.push(c)) == byte_len(a) + char_width(c),
{
    lemma_byte_len_concat(a, seq![c]);
    assert(a.push(c) =~= a + seq![c]);
    assert(seq![c].drop_first() =~= Seq::<char>::empty());
    assert(byte_len(Seq::<char>::empty()) == 0);
    assert(byte_len(seq![c]) == char_width(c) + byte_len(seq![c].drop_first()));
}

pub proof fn lemma_byte_len_subrange(s: Seq<char>, i: int, j: int)
    requires
        0 <= i <= j <= s.len(),
    ensures
        byte_len(s.subrange(i, j)) <= byte_len(s),
        byte_len(s.subrange(0, i)) + byte_len(s.subrange(i, j)) + byte_len(s.subrange(j, s.len() as int))
            == byte_len(s),
{
    let a = s.subrange(0, i);
    let b = s.subrange(i, j);
    let c = s.subrange(j, s.len() as int);
    assert(s =~= a + b + c);
    lemma_byte_len_concat(a + b, c);
    lemma_byte_len_concat(a, b);
}

/// `byte_len` is the length of vstd's UTF-8 encoding, so it agrees with `str::len`.
pub proof fn lemma_byte_len_is_utf8_len(s: Seq<char>)
    ensures
        byte_len(s) == encode_utf8(s).len(),
    decreases s.len(),
{
    if s.len() > 0 {
        lemma_byte_len_is_utf8_len(s.drop_first());
        char_is_scalar(s[0]);
    }
}

pub proof fn lemma_flatten_push(pieces: Seq<Seq<char>>, p: Seq<char>)
    ensures
        flatten(pieces.push(p)) == flatten(pieces) + p,
{
    assert(pieces.push(p).drop_last() =~= pieces);
}

pub proof fn lemma_flatten_concat(a: Seq<Seq<char>>, b: Seq<Seq<char>>)
    ensures
        flatten(a + b) == flatten(a) + flatten(b),
    decreases b.len(),
{
    if b.len() == 0 {
        assert(a + b =~= a);
        assert(flatten(b) =~= Seq::<char>::empty());
        assert(flatten(a) + flatten(b) =~= flatten(a));
    } else {
        assert((a + b).drop_last() =~= a + b.drop_last());
        lemma_flatten_concat(a, b.drop_last());
        assert((a + b).last() == b.last());
        assert(flatten(a + b) =~= flatten(a) + flatten(b));
    }
}

/// The characters of `s`, in order.
pub fn chars_of(s: &str) -> (r: Vec<char>)
    ensures
        r@ == s@,
{
    let mut out: Vec<char> = Vec::new();
    for c in it: s.chars()
        invariant
            out@ == it.seq().take(it.index()),
            it.seq() == s@,
    {
        out.push(c);
    }
    out
}

/// Number of bytes in the UTF-8 encoding of `c` (`char::len_utf8`).
pub fn char_byte_width(c: char) -> (r: usize)
    ensures
        r == char_width(c),
{
    let v = c as u32;
    if v <= 0x7f {
        1
    } else if v <= 0x7ff {
        2
    } else if v <= 0xffff {
        3
    } else {
        4
    }
}

/// Number of bytes in the UTF-8 encoding of `s`.
pub fn byte_len_of(s: &[char]) -> (r: usize)
    requires
        byte_len(s@) <= usize::MAX,
    ensures
        r == byte_len(s@),
{
    let mut total: usize = 0;
    let mut i: usize = 0;
    while i < s.len()
        invariant
            i <= s@.len(),
            total == byte_len(s@.take(i as int)),
            byte_len(s@) <= usize::MAX,
        decreases s@.len() - i,
    {
        proof {
            assert(s@.take(i + 1) =~= s@.take(i as int).push(s@[i as int]));
            lemma_byte_len_push(s@.take(i as int), s@[i as int]);
            assert(s@.take(i + 1) =~= s@.subrange(0, i + 1));
            lemma_byte_len_subrange(s@, 0, i + 1);
            assert(s@.subrange(0, 0) =~= Seq::<char>::empty());
        }
        total = total + char_byte_width(s[i]);
        i = i + 1;
    }
    assert(s@.take(s@.len() as int) =~= s@);
    total
}

/// `char::is_whitespace`: whether `c` has the Unicode `White_Space` property.
/// The contract claims that the result is `is_white_space(c)`, the code points
/// that have the property.
#[verifier::external_body]
pub fn char_is_whitespace(c: char) -> (r: bool)
    ensures
        r == is_white_space(c),
{
    c.is_whitespace()
}

/// Whether every character of `s` is whitespace (`s.trim().is_empty()`).
pub fn is_all_white(s: &[char]) -> (r: bool)
    ensures
        r == all_white(s@),
{
    let mut i: usize = 0;
    while i < s.len()
        invariant
            i <= s@.len(),
            forall|k: int| 0 <= k < i ==> is_white_space(#[trigger] s@[k]),
        decreases s@.len() - i,
    {
        if !char_is_whitespace(s[i]) {
            return false;
        }
        i = i + 1;
    }
    true
}

/// Whether `pat` occurs in `text` at index `i`.
pub fn occurs_at_exec(text: &[char], pat: &[char], i: usize) -> (r: bool)
    ensures
        r == occurs_at(text@, pat@, i as int),
{
    if i > text.len() || pat.len() > text.len() - i {
        return false;
    }
    let tl = text.len();
    let mut k: usize = 0;
    while k < pat.len()
        invariant
            tl == text@.len(),
            i + pat@.len() <= text@.len(),
            k <= pat@.len(),
            forall|m: int| 0 <= m < k ==> text@[i + m] == pat@[m],
        decreases pat@.len() - k,
    {
        assert(i + k < text@.len());
        if text[i + k] != pat[k] {
            assert(text@.subrange(i as int, i + pat@.len())[k as int] != pat@[k as int]);
            return false;
        }
        k = k + 1;
    }
    assert(text@.subrange(i as int, i + pat@.len()) =~= pat@);
    true
}

/// The leftmost occurrence of `pat` in `text` at or after `start`.
pub fn find_from_exec(text: &[char], pat: &[char], start: usize) -> (r: Option<usize>)
    ensures
        r matches Some(j) ==> find_from(text@, pat@, start as int) == Some(j as int),
        r is None ==> find_from(text@, pat@, start as int) is None,
{
    let mut i = start;
    if pat.len() > text.len() {
        return None;
    }
    let last = text.len() - pat.len();
    while i <= last
        invariant
            start <= i,
            last + pat@.len() == text@.len(),
            find_from(text@, pat@, start as int) == find_from(text@, pat@, i as int),
        decreases last + 1 - i,
    {
        if occurs_at_exec(text, pat, i) {
            return Some(i);
        }
        if i == last {
            assert(find_from(text@, pat@, i + 1) is None);
            return None;
        }
        i = i + 1;
    }
    None
}

/// `String::push`: appends `c` to `s`. The contract claims that the
/// characters of `s` gain `c` at their end and are otherwise unchanged.
#[verifier::external_body]
pub fn push_char(s: &mut String, c: char)
    ensures
        final(s)@ == old(s)@.push(c),
{
    s.push(c);
}

/// The string whose characters are `chars`.
pub fn string_from_chars(chars: &[char]) -> (r: String)
    ensures
        r@ == chars@,
{
    let mut out = String::new();
    let mut i: usize = 0;
    while i < chars.len()
        invariant
            i <= chars@.len(),
            out@ == chars@.take(i as int),
        decreases chars@.len() - i,
    {
        push_char(&mut out, chars[i]);
        assert(chars@.take(i + 1) =~= chars@.take(i as int).push(chars@[i as int]));
        i = i + 1;
    }
    assert(chars@.take(chars@.len() as int) =~= chars@);
    out
}

/// Whether the characters of `a` are exactly those of `b`.
pub fn chars_equal(a: &[char], b: &str) -> (r: bool)
    ensures
        r == (a@ == b@),
{
    let n = b.unicode_len();
    if a.len() != n {
        return false;
    }
    let mut i: usize = 0;
    while i < n
        invariant
            n == b@.len(),
            a@.len() == n,
            i <= n,
            forall|k: int| 0 <= k < i ==> a@[k] == b@[k],
        decreases n - i,
    {
        if a[i] != b.get_char(i) {
            return false;
        }
        i = i + 1;
    }
    assert(a@ =~= b@);
    true
}

} // verus!
