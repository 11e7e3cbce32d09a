//! Text as a sequence of characters.
//!
//! A `str` or `String` is modelled by its view, a `Seq<char>`. The functions
//! here are the vocabulary in which the rest of the library states what it does
//! with text: cutting it at characters, splitting, trimming, joining, and
//! reading and writing decimal numbers.
use vstd::prelude::*;
use vstd::utf8::*;

verus! {

broadcast use group_utf8_lib;

// ---------------------------------------------------------------------------
// Characters and their encoding
// ---------------------------------------------------------------------------

/// `String::push` of std: the character becomes the last one of the string.
pub assume_specification[ String::push ](s: &mut String, c: char)
    ensures
        final(s)@ == old(s)@.push(c),
;

/// `String::from_utf8` of std: the text that the bytes encode, where they are
/// valid UTF-8, and nothing where they are not.
#[verifier::external_body]
pub(crate) fn utf8_text(bytes: Vec<u8>) -> (r: Option<String>)
    ensures
        match r {
            Some(s) => valid_utf8(bytes@) && encode_utf8(s@) == bytes@,
            None => !valid_utf8(bytes@),
        },
{
    String::from_utf8(bytes).ok()
}

/// The text that `String::from_utf8_lossy` makes of bytes.
pub uninterp spec fn utf8_lossy(bytes: Seq<u8>) -> Seq<char>;

/// `String::from_utf8_lossy` of std: of valid UTF-8 it is the text that the bytes
/// encode; otherwise each invalid sequence is replaced by U+FFFD, which is left
/// unsaid here.
#[verifier::external_body]
pub(crate) fn utf8_lossy_text(bytes: &[u8]) -> (r: String)
    ensures
        r@ == utf8_lossy(bytes@),
        valid_utf8(bytes@) ==> encode_utf8(r@) == bytes@,
{
    String::from_utf8_lossy(bytes).into_owned()
}

/// The text that `str::to_lowercase` makes of a text.
pub uninterp spec fn lowercase(s: Seq<char>) -> Seq<char>;

/// `str::to_lowercase` of std, which goes by the Unicode property Lowercase: of
/// ASCII text it puts the capital letters in lower case and keeps the rest.
#[verifier::external_body]
pub(crate) fn lowercase_text(s: &str) -> (r: String)
    ensures
        r@ == lowercase(s@),
        is_ascii_chars(s@) ==> r@ == ascii_lowered(s@),
{
    s.to_lowercase()
}

/// The views of a list of strings.
pub open spec fn texts(v: Seq<String>) -> Seq<Seq<char>> {
    Seq::new(v.len(), |i: int| v[i]@)
}

/// The views of a list of string slices.
pub open spec fn slices(v: Seq<&str>) -> Seq<Seq<char>> {
    Seq::new(v.len(), |i: int| v[i]@)
}

/// The characters of `s`.
pub fn chars_of(s: &str) -> (v: Vec<char>)
    ensures
        v@ == s@,
{
    let mut v: Vec<char> = Vec::new();
    for c in it: s.chars()
        invariant
            v@ == it.seq().take(it.index()),
            it.seq() == s@,
    {
        v.push(c);
    }
    v
}

/// The string made of the characters `from..to` of `v`.
pub fn text_of(v: &Vec<char>, from: usize, to: usize) -> (s: String)
    requires
        from <= to <= v@.len(),
    ensures
        s@ == v@.subrange(from as int, to as int),
{
    let mut s: String = String::new();
    let mut i: usize = from;
    while i < to
        invariant
            from <= i <= to <= v@.len(),
            s@ == v@.subrange(from as int, i as int),
        decreases to - i,
    {
        s.push(v[i]);
        i = i + 1;
    }
    s
}

/// Encoding a concatenation is concatenating the encodings.
pub proof fn lemma_encode_concat(a: Seq<char>, b: Seq<char>)
    ensures
        encode_utf8(a + b) == encode_utf8(a) + encode_utf8(b),
    decreases a.len(),
{
    if a.len() == 0 {
        assert(a + b == b);
        assert(encode_utf8(a) + encode_utf8(b) == encode_utf8(b));
    } else {
        lemma_encode_concat(a.drop_first(), b);
        assert((a + b).drop_first() == a.drop_first() + b);
        assert((a + b)[0] == a[0]);
        assert(encode_utf8(a + b) == encode_utf8(a) + encode_utf8(b));
    }
}

/// The end of the encoding of a prefix is a character boundary of the whole.
pub proof fn lemma_prefix_boundary(a: Seq<char>, b: Seq<char>)
    ensures
        is_char_boundary(encode_utf8(a + b), encode_utf8(a).len() as int),
    decreases a.len(),
{
    let whole = encode_utf8(a + b);
    assert(valid_utf8(whole));
    if a.len() > 0 {
        lemma_prefix_boundary(a.drop_first(), b);
        assert((a + b).drop_first() == a.drop_first() + b);
        assert((a + b)[0] == a[0]);
        encode_utf8_first_scalar(a + b);
        lemma_encode_concat(a, b);
        assert(pop_first_scalar(whole) == encode_utf8(a.drop_first() + b));
    }
}

/// Two texts with one encoding are one text.
pub proof fn lemma_encode_injective(a: Seq<char>, b: Seq<char>)
    requires
        encode_utf8(a) == encode_utf8(b),
    ensures
        a == b,
{
    assert(decode_utf8(encode_utf8(a)) == a);
    assert(decode_utf8(encode_utf8(b)) == b);
}

/// Number of bytes in the encoding of `c`.
pub open spec fn width(c: char) -> nat {
    encode_utf8(seq![c]).len()
}

/// Number of bytes in the encoding of the first `k` characters of `s`.
pub open spec fn offset(s: Seq<char>, k: int) -> nat {
    encode_utf8(s.take(k)).len()
}

pub proof fn lemma_offset_step(s: Seq<char>, k: int)
    requires
        0 <= k < s.len(),
    ensures
        offset(s, k + 1) == offset(s, k) + width(s[k]),
        width(s[k]) >= 1,
{
    assert(s.take(k + 1) == s.take(k) + seq![s[k]]);
    lemma_encode_concat(s.take(k), seq![s[k]]);
}

pub proof fn lemma_offset_bound(s: Seq<char>, k: int)
    requires
        0 <= k <= s.len(),
    ensures
        offset(s, k) <= encode_utf8(s).len(),
        offset(s, 0) == 0,
        offset(s, s.len() as int) == encode_utf8(s).len(),
{
    assert(s == s.take(k) + s.skip(k));
    lemma_encode_concat(s.take(k), s.skip(k));
    assert(s.take(s.len() as int) == s);
    assert(s.take(0) == Seq::<char>::empty());
}

/// A text has no more characters than bytes.
pub proof fn lemma_encode_len(s: Seq<char>)
    ensures
        s.len() <= encode_utf8(s).len(),
    decreases s.len(),
{
    if s.len() > 0 {
        lemma_encode_len(s.drop_first());
    }
}

/// Number of bytes that UTF-8 takes for `c`.
pub fn char_width(c: char) -> (n: usize)
    ensures
        n == width(c),
        1 <= n <= 4,
{
    proof {
        reveal_with_fuel(encode_utf8, 2);
        assert(encode_utf8(seq![c]) =~= encode_scalar(c as u32));
    }
    let u: u32 = c as u32;
    if u <= 0x7F {
        1
    } else if u <= 0x7FF {
        2
    } else if u <= 0xFFFF {
        3
    } else {
        4
    }
}

/// Cuts `s` in two at the byte `at`, where its first `k` characters end.
pub(crate) fn cut<'a>(s: &'a str, at: usize, Ghost(k): Ghost<int>) -> (r: (&'a str, &'a str))
    requires
        0 <= k <= s@.len(),
        at == offset(s@, k),
    ensures
        r.0@ == s@.take(k),
        r.1@ == s@.skip(k),
{
    proof {
        assert(s@ == s@.take(k) + s@.skip(k));
        lemma_prefix_boundary(s@.take(k), s@.skip(k));
        lemma_encode_concat(s@.take(k), s@.skip(k));
    }
    let r = s.split_at(at);
    proof {
        let a = encode_utf8(s@.take(k));
        let b = encode_utf8(s@.skip(k));
        assert((a + b).subrange(0, at as int) == a);
        assert((a + b).subrange(at as int, (a + b).len() as int) == b);
        lemma_encode_injective(r.0@, s@.take(k));
        lemma_encode_injective(r.1@, s@.skip(k));
    }
    r
}

/// The part of `s` between the bytes `from` and `to`, where its first `j` and
/// its first `k` characters end.
pub(crate) fn part<'a>(s: &'a str, from: usize, to: usize, Ghost(j): Ghost<int>, Ghost(k): Ghost<int>)
    -> (r: &'a str)
    requires
        0 <= j <= k <= s@.len(),
        from == offset(s@, j),
        to == offset(s@, k),
    ensures
        r@ == s@.subrange(j, k),
{
    let (head, _) = cut(s, to, Ghost(k));
    proof {
        assert(s@.take(k).take(j) == s@.take(j));
    }
    let (_, r) = cut(head, from, Ghost(j));
    proof {
        assert(s@.take(k).skip(j) == s@.subrange(j, k));
    }
    r
}

/// Whether two strings hold the same text.
pub fn str_eq(a: &str, b: &str) -> (r: bool)
    ensures
        r == (a@ == b@),
{
    let x = a.as_bytes();
    let y = b.as_bytes();
    if x.len() != y.len() {
        return false;
    }
    let mut i: usize = 0;
    while i < x.len()
        invariant
            x@ == encode_utf8(a@),
            y@ == encode_utf8(b@),
            x@.len() == y@.len(),
            i <= x@.len(),
            forall|k: int| 0 <= k < i ==> x@[k] == y@[k],
        decreases x@.len() - i,
    {
        if x[i] != y[i] {
            return false;
        }
        i = i + 1;
    }
    proof {
        assert(x@ == y@);
        lemma_encode_injective(a@, b@);
    }
    true
}

// ---------------------------------------------------------------------------
// ASCII case
// ---------------------------------------------------------------------------

/// `c` with an ASCII capital letter in lower case.
pub open spec fn ascii_lower(c: char) -> char {
    if 'A' <= c <= 'Z' {
        ((c as u32) + 32) as char
    } else {
        c
    }
}

pub fn to_ascii_lower(c: char) -> (r: char)
    ensures
        r == ascii_lower(c),
{
    if 'A' <= c && c <= 'Z' {
        (c as u8 + 32) as char
    } else {
        c
    }
}

/// `s` with its ASCII capital letters in lower case.
pub open spec fn ascii_lowered(s: Seq<char>) -> Seq<char> {
    Seq::new(s.len(), |i: int| ascii_lower(s[i]))
}

pub fn ascii_lower_text(s: &str) -> (r: String)
    ensures
        r@ == ascii_lowered(s@),
{
    let v = chars_of(s);
    let mut r: String = String::new();
    let mut i: usize = 0;
    while i < v.len()
        invariant
            v@ == s@,
            i <= v@.len(),
            r@ == ascii_lowered(s@).take(i as int),
        decreases v@.len() - i,
    {
        r.push(to_ascii_lower(v[i]));
        proof {
            assert(r@ =~= ascii_lowered(s@).take(i + 1));
        }
        i = i + 1;
    }
    proof {
        assert(ascii_lowered(s@).take(s@.len() as int) =~= ascii_lowered(s@));
    }
    r
}

// ---------------------------------------------------------------------------
// White space and trimming
// ---------------------------------------------------------------------------

/// Whether `c` has the Unicode property White_Space.
pub open spec fn white_space(c: char) -> bool {
    ||| '\u{9}' <= c <= '\u{d}'
    ||| c == ' '
    ||| c == '\u{85}'
    ||| c == '\u{a0}'
    ||| c == '\u{1680}'
    ||| '\u{2000}' <= c <= '\u{200a}'
    ||| c == '\u{2028}'
    ||| c == '\u{2029}'
    ||| c == '\u{202f}'
    ||| c == '\u{205f}'
    ||| c == '\u{3000}'
}

pub fn is_white_space(c: char) -> (r: bool)
    ensures
        r == white_space(c),
{
    ('\u{9}' <= c && c <= '\u{d}') || c == ' ' || c == '\u{85}' || c == '\u{a0}' || c == '\u{1680}'
        || ('\u{2000}' <= c && c <= '\u{200a}') || c == '\u{2028}' || c == '\u{2029}' || c
        == '\u{202f}' || c == '\u{205f}' || c == '\u{3000}'
}

/// `s` without the white space at its start.
pub open spec fn trim_start(s: Seq<char>) -> Seq<char>
    decreases s.len(),
{
    if s.len() > 0 && white_space(s[0]) {
        trim_start(s.drop_first())
    } else {
        s
    }
}

/// `s` without the white space at its end.
pub open spec fn trim_end(s: Seq<char>) -> Seq<char>
    decreases s.len(),
{
    if s.len() > 0 && white_space(s.last()) {
        trim_end(s.drop_last())
    } else {
        s
    }
}

/// `s` without the white space at either end.
pub open spec fn trimmed(s: Seq<char>) -> Seq<char> {
    trim_end(trim_start(s))
}

/// `s` without the white space at either end.
pub fn trim(s: &str) -> (r: String)
    ensures
        r@ == trimmed(s@),
{
    let v = chars_of(s);
    let mut i: usize = 0;
    assert(s@.skip(0) == s@);
    while i < v.len() && is_white_space(v[i])
        invariant
            v@ == s@,
            i <= v@.len(),
            trim_start(s@.skip(i as int)) == trim_start(s@),
        decreases v@.len() - i,
    {
        proof {
            assert(s@.skip(i as int).drop_first() == s@.skip(i + 1));
        }
        i = i + 1;
    }
    let mut j: usize = v.len();
    let ghost left = s@.skip(i as int);
    assert(left == trim_start(s@));
    assert(s@.subrange(i as int, j as int) == left);
    while j > i && is_white_space(v[j - 1])
        invariant
            v@ == s@,
            i <= j <= v@.len(),
            trim_end(s@.subrange(i as int, j as int)) == trim_end(left),
        decreases j,
    {
        proof {
            let t = s@.subrange(i as int, j as int);
            assert(t.drop_last() == s@.subrange(i as int, j - 1));
            assert(t.last() == s@[j - 1]);
        }
        j = j - 1;
    }
    proof {
        let t = s@.subrange(i as int, j as int);
        assert(t.len() > 0 ==> t.last() == s@[j - 1]);
    }
    text_of(&v, i, j)
}

/// `s` without the copies of `c` at its start.
pub open spec fn strip_start(s: Seq<char>, c: char) -> Seq<char>
    decreases s.len(),
{
    if s.len() > 0 && s[0] == c {
        strip_start(s.drop_first(), c)
    } else {
        s
    }
}

/// `s` without the copies of `c` at its end.
pub open spec fn strip_end(s: Seq<char>, c: char) -> Seq<char>
    decreases s.len(),
{
    if s.len() > 0 && s.last() == c {
        strip_end(s.drop_last(), c)
    } else {
        s
    }
}

/// Number of copies of `c` that `v[from..to]` starts with, added to `from`.
pub(crate) fn skip_start(v: &Vec<char>, from: usize, to: usize, c: char) -> (i: usize)
    requires
        from <= to <= v@.len(),
    ensures
        from <= i <= to,
        v@.subrange(i as int, to as int) == strip_start(v@.subrange(from as int, to as int), c),
{
    let mut i: usize = from;
    while i < to && v[i] == c
        invariant
            from <= i <= to <= v@.len(),
            strip_start(v@.subrange(i as int, to as int), c) == strip_start(
                v@.subrange(from as int, to as int),
                c,
            ),
        decreases to - i,
    {
        proof {
            assert(v@.subrange(i as int, to as int).drop_first() == v@.subrange(
                i + 1,
                to as int,
            ));
        }
        i = i + 1;
    }
    i
}

/// Where `v[from..to]` ends once the copies of `c` at its end are left out.
pub(crate) fn skip_end(v: &Vec<char>, from: usize, to: usize, c: char) -> (j: usize)
    requires
        from <= to <= v@.len(),
    ensures
        from <= j <= to,
        v@.subrange(from as int, j as int) == strip_end(v@.subrange(from as int, to as int), c),
{
    let mut j: usize = to;
    while j > from && v[j - 1] == c
        invariant
            from <= j <= to <= v@.len(),
            strip_end(v@.subrange(from as int, j as int), c) == strip_end(
                v@.subrange(from as int, to as int),
                c,
            ),
        decreases j,
    {
        proof {
            let t = v@.subrange(from as int, j as int);
            assert(t.drop_last() == v@.subrange(from as int, j - 1));
            assert(t.last() == v@[j - 1]);
        }
        j = j - 1;
    }
    proof {
        let t = v@.subrange(from as int, j as int);
        assert(t.len() > 0 ==> t.last() == v@[j - 1]);
    }
    j
}

// ---------------------------------------------------------------------------
// Searching and splitting
// ---------------------------------------------------------------------------

/// Whether `s` starts with `pat`.
pub open spec fn has_prefix(s: Seq<char>, pat: Seq<char>) -> bool {
    pat.len() <= s.len() && s.take(pat.len() as int) == pat
}

/// Whether `s` ends with `pat`.
pub open spec fn has_suffix(s: Seq<char>, pat: Seq<char>) -> bool {
    pat.len() <= s.len() && s.skip(s.len() - pat.len()) == pat
}

/// Where `pat` first occurs in `s`.
pub open spec fn find(s: Seq<char>, pat: Seq<char>) -> Option<nat>
    decreases s.len(),
{
    if has_prefix(s, pat) {
        Some(0)
    } else if s.len() == 0 {
        None
    } else {
        match find(s.drop_first(), pat) {
            Some(k) => Some(k + 1),
            None => None,
        }
    }
}

/// What stands before and after the first `pat` in `s`.
pub open spec fn split_once(s: Seq<char>, pat: Seq<char>) -> Option<(Seq<char>, Seq<char>)> {
    match find(s, pat) {
        Some(k) => Some((s.take(k as int), s.skip((k + pat.len()) as int))),
        None => None,
    }
}

/// Where `c` last occurs in `s`.
pub open spec fn rfind(s: Seq<char>, c: char) -> Option<nat>
    decreases s.len(),
{
    if s.len() == 0 {
        None
    } else if s.last() == c {
        Some((s.len() - 1) as nat)
    } else {
        rfind(s.drop_last(), c)
    }
}

/// Where `b` holds no `c`, the last `c` of `a`, `c` and `b` together stands behind `a`.
pub proof fn lemma_rfind_after(a: Seq<char>, b: Seq<char>, c: char)
    requires
        forall|i: int| 0 <= i < b.len() ==> #[trigger] b[i] != c,
    ensures
        rfind(a + seq![c] + b, c) == Some(a.len()),
    decreases b.len(),
{
    let s = a + seq![c] + b;
    if b.len() > 0 {
        let t = b.drop_last();
        assert(s.drop_last() =~= a + seq![c] + t);
        assert(s.last() == b[b.len() - 1]);
        lemma_rfind_after(a, t, c);
    } else {
        assert(s.last() == c);
    }
}

/// Nothing after the last `c` is one, and where there is none, nothing is.
pub proof fn lemma_rfind_is_last(s: Seq<char>, c: char)
    ensures
        match rfind(s, c) {
            Some(k) => k < s.len() && s[k as int] == c && forall|i: int|
                k < i < s.len() ==> #[trigger] s[i] != c,
            None => forall|i: int| 0 <= i < s.len() ==> #[trigger] s[i] != c,
        },
    decreases s.len(),
{
    if s.len() > 0 && s.last() != c {
        lemma_rfind_is_last(s.drop_last(), c);
        let t = s.drop_last();
        assert forall|i: int| 0 <= i < t.len() implies t[i] == #[trigger] s[i] by {}
    }
}

/// Position of the first `c` in `s`; its length where there is none.
pub open spec fn first_of(s: Seq<char>, c: char) -> nat
    decreases s.len(),
{
    if s.len() == 0 || s[0] == c {
        0
    } else {
        1 + first_of(s.drop_first(), c)
    }
}

pub proof fn lemma_first_of(s: Seq<char>, c: char)
    ensures
        first_of(s, c) <= s.len(),
        forall|i: int| 0 <= i < first_of(s, c) ==> #[trigger] s[i] != c,
        first_of(s, c) < s.len() ==> s[first_of(s, c) as int] == c,
    decreases s.len(),
{
    if s.len() > 0 && s[0] != c {
        let t = s.drop_first();
        lemma_first_of(t, c);
        assert forall|i: int| 0 <= i < first_of(s, c) implies #[trigger] s[i] != c by {
            if i > 0 {
                assert(s[i] == t[i - 1]);
            }
        }
    }
}

/// The first `c` of what is left from `start` stands at `i`, or there is none
/// and `i` is the end.
pub proof fn lemma_first_of_is(s: Seq<char>, c: char, start: int, i: int)
    requires
        0 <= start <= i <= s.len(),
        forall|k: int| start <= k < i ==> #[trigger] s[k] != c,
        i < s.len() ==> s[i] == c,
    ensures
        first_of(s.skip(start), c) == i - start,
{
    let rest = s.skip(start);
    lemma_first_of(rest, c);
    let k = first_of(rest, c) as int;
    if k < i - start {
        assert(rest[k] == s[start + k]);
    }
    if k > i - start {
        assert(rest[i - start] == s[i]);
    }
}

/// Where the first `c` stands in `v` from `from` on; the end where there is none.
pub(crate) fn first_at(v: &Vec<char>, from: usize, c: char) -> (i: usize)
    requires
        from <= v@.len(),
    ensures
        from <= i <= v@.len(),
        first_of(v@.skip(from as int), c) == i - from,
        i < v@.len() ==> v@[i as int] == c,
        forall|k: int| from <= k < i ==> #[trigger] v@[k] != c,
{
    let mut i: usize = from;
    while i < v.len() && v[i] != c
        invariant
            from <= i <= v@.len(),
            forall|k: int| from <= k < i ==> #[trigger] v@[k] != c,
        decreases v@.len() - i,
    {
        i = i + 1;
    }
    proof {
        lemma_first_of_is(v@, c, from as int, i as int);
    }
    i
}

/// Whether `v[from..to]` starts with the characters of `pat`.
pub(crate) fn prefix_at(v: &Vec<char>, from: usize, to: usize, pat: &Vec<char>) -> (r: bool)
    requires
        from <= to <= v@.len(),
    ensures
        r == has_prefix(v@.subrange(from as int, to as int), pat@),
{
    let ghost s = v@.subrange(from as int, to as int);
    if pat.len() > to - from {
        return false;
    }
    let mut i: usize = 0;
    while i < pat.len()
        invariant
            s == v@.subrange(from as int, to as int),
            from <= to <= v@.len(),
            pat@.len() <= to - from,
            i <= pat@.len(),
            forall|k: int| 0 <= k < i ==> s[k] == pat@[k],
        decreases pat@.len() - i,
    {
        if v[from + i] != pat[i] {
            proof {
                assert(s[i as int] != pat@[i as int]);
                assert(s.take(pat@.len() as int)[i as int] == s[i as int]);
            }
            return false;
        }
        i = i + 1;
    }
    proof {
        assert(s.take(pat@.len() as int) == pat@);
    }
    true
}

/// Where `pat` first occurs in `v[from..to]`, counted from `from`.
pub(crate) fn find_at(v: &Vec<char>, from: usize, to: usize, pat: &Vec<char>) -> (r: Option<usize>)
    requires
        from <= to <= v@.len(),
    ensures
        match r {
            Some(k) => find(v@.subrange(from as int, to as int), pat@) == Some(k as nat) && k
                + pat@.len() <= to - from,
            None => find(v@.subrange(from as int, to as int), pat@) is None,
        },
{
    let ghost s = v@.subrange(from as int, to as int);
    let mut i: usize = 0;
    proof {
        assert(s.skip(0) == s);
    }
    loop
        invariant
            s == v@.subrange(from as int, to as int),
            from <= to <= v@.len(),
            i <= to - from,
            find(s, pat@) == match find(s.skip(i as int), pat@) {
                Some(k) => Some((k + i) as nat),
                None => None,
            },
        decreases to - from - i,
    {
        proof {
            assert(s.skip(i as int) == v@.subrange(from + i, to as int));
        }
        if prefix_at(v, from + i, to, pat) {
            return Some(i);
        }
        if i == to - from {
            return None;
        }
        proof {
            assert(s.skip(i as int).drop_first() == s.skip(i + 1));
        }
        i = i + 1;
    }
}

/// Where `c` last occurs in `v[from..to]`, counted from `from`.
pub(crate) fn rfind_at(v: &Vec<char>, from: usize, to: usize, c: char) -> (r: Option<usize>)
    requires
        from <= to <= v@.len(),
    ensures
        match r {
            Some(k) => rfind(v@.subrange(from as int, to as int), c) == Some(k as nat) && k < to
                - from,
            None => rfind(v@.subrange(from as int, to as int), c) is None,
        },
{
    let ghost s = v@.subrange(from as int, to as int);
    let mut j: usize = to;
    while j > from
        invariant
            s == v@.subrange(from as int, to as int),
            from <= j <= to <= v@.len(),
            rfind(s, c) == rfind(v@.subrange(from as int, j as int), c),
        decreases j,
    {
        let ghost t = v@.subrange(from as int, j as int);
        proof {
            assert(t.last() == v@[j - 1]);
            assert(t.drop_last() == v@.subrange(from as int, j - 1));
        }
        if v[j - 1] == c {
            return Some(j - 1 - from);
        }
        j = j - 1;
    }
    None
}

/// Whether `s` starts with `pat`.
pub fn starts_with(s: &str, pat: &str) -> (r: bool)
    ensures
        r == has_prefix(s@, pat@),
{
    let v = chars_of(s);
    let p = chars_of(pat);
    proof {
        assert(v@.subrange(0, v@.len() as int) == s@);
    }
    prefix_at(&v, 0, v.len(), &p)
}

/// Whether `s` ends with `pat`.
pub fn ends_with(s: &str, pat: &str) -> (r: bool)
    ensures
        r == has_suffix(s@, pat@),
{
    let v = chars_of(s);
    let p = chars_of(pat);
    if p.len() > v.len() {
        return false;
    }
    let from: usize = v.len() - p.len();
    proof {
        let t = v@.subrange(from as int, v@.len() as int);
        assert(t == s@.skip(from as int));
        assert(t.take(p@.len() as int) == t);
    }
    prefix_at(&v, from, v.len(), &p)
}

/// Whether one of `list` is the text `s`.
pub open spec fn listed(list: Seq<&str>, s: Seq<char>) -> bool {
    exists|i: int| 0 <= i < list.len() && (#[trigger] list[i])@ == s
}

/// Whether one of `list` is the text `s`.
pub fn contains_text(list: &[&str], s: &str) -> (r: bool)
    ensures
        r == listed(list@, s@),
{
    let mut i: usize = 0;
    while i < list.len()
        invariant
            i <= list@.len(),
            forall|k: int| 0 <= k < i ==> (#[trigger] list@[k])@ != s@,
        decreases list@.len() - i,
    {
        if str_eq(list[i], s) {
            return true;
        }
        i = i + 1;
    }
    false
}

/// To be listed is to be among the views.
pub proof fn lemma_listed(list: Seq<&str>, s: Seq<char>)
    ensures
        listed(list, s) == slices(list).contains(s),
{
    if listed(list, s) {
        let i = choose|i: int| 0 <= i < list.len() && (#[trigger] list[i])@ == s;
        assert(slices(list)[i] == s);
    }
    if slices(list).contains(s) {
        let i = choose|i: int| 0 <= i < list.len() && slices(list)[i] == s;
        assert(list[i]@ == s);
    }
}

// ---------------------------------------------------------------------------
// Joining
// ---------------------------------------------------------------------------

/// The texts in order, with `sep` between each two neighbours.
pub open spec fn join(parts: Seq<Seq<char>>, sep: Seq<char>) -> Seq<char>
    decreases parts.len(),
{
    if parts.len() == 0 {
        Seq::empty()
    } else if parts.len() == 1 {
        parts[0]
    } else {
        join(parts.drop_last(), sep) + sep + parts.last()
    }
}

/// The strings `from..to` of `list`, joined by `sep`.
pub fn join_slices(list: &Vec<&str>, from: usize, to: usize, sep: &str) -> (r: String)
    requires
        from <= to <= list@.len(),
    ensures
        r@ == join(slices(list@).subrange(from as int, to as int), sep@),
{
    let ghost parts = slices(list@).subrange(from as int, to as int);
    let mut r: String = String::new();
    let mut i: usize = from;
    while i < to
        invariant
            from <= i <= to <= list@.len(),
            parts == slices(list@).subrange(from as int, to as int),
            r@ == join(parts.take(i - from), sep@),
        decreases to - i,
    {
        proof {
            let t = parts.take(i - from + 1);
            assert(t.drop_last() == parts.take(i - from));
            assert(t.last() == list@[i as int]@);
            if i == from {
                assert(Seq::<char>::empty() + list@[i as int]@ == list@[i as int]@);
            }
        }
        if i > from {
            r.append(sep);
        }
        r.append(list[i]);
        i = i + 1;
    }
    proof {
        assert(parts.take(to - from) == parts);
    }
    r
}

/// The strings of `list`, joined by `sep`.
pub fn join_texts(list: &Vec<String>, sep: &str) -> (r: String)
    ensures
        r@ == join(texts(list@), sep@),
{
    let ghost parts = texts(list@);
    let mut r: String = String::new();
    let mut i: usize = 0;
    while i < list.len()
        invariant
            i <= list@.len(),
            parts == texts(list@),
            r@ == join(parts.take(i as int), sep@),
        decreases list@.len() - i,
    {
        proof {
            let t = parts.take(i + 1);
            assert(t.drop_last() == parts.take(i as int));
            assert(t.last() == list@[i as int]@);
            if i == 0 {
                assert(Seq::<char>::empty() + list@[i as int]@ == list@[i as int]@);
            }
        }
        if i > 0 {
            r.append(sep);
        }
        r.append(list[i].as_str());
        i = i + 1;
    }
    proof {
        assert(parts.take(list@.len() as int) == parts);
    }
    r
}

/// A join with one more text in front.
pub proof fn lemma_join_front(parts: Seq<Seq<char>>, sep: Seq<char>)
    requires
        parts.len() >= 2,
    ensures
        join(parts, sep) == parts[0] + sep + join(parts.drop_first(), sep),
    decreases parts.len(),
{
    if parts.len() == 2 {
        reveal_with_fuel(join, 2);
    } else {
        lemma_join_front(parts.drop_last(), sep);
        assert(parts.drop_last().drop_first() == parts.drop_first().drop_last());
        assert(join(parts, sep) =~= parts[0] + sep + join(parts.drop_first(), sep));
    }
}

// ---------------------------------------------------------------------------
// Numbers
// ---------------------------------------------------------------------------

/// The decimal digit `d`.
pub open spec fn digit(d: nat) -> char {
    (48 + d) as char
}

/// `n` in decimal, without leading zeros.
pub open spec fn decimal(n: nat) -> Seq<char>
    decreases n,
{
    if n < 10 {
        seq![digit(n)]
    } else {
        decimal(n / 10).push(digit(n % 10))
    }
}

/// `n` in decimal, without leading zeros.
pub fn decimal_text(n: u64) -> (r: String)
    ensures
        r@ == decimal(n as nat),
    decreases n,
{
    if n < 10 {
        let mut r: String = String::new();
        r.push((48u8 + n as u8) as char);
        r
    } else {
        let mut r = decimal_text(n / 10);
        r.push((48u8 + (n % 10) as u8) as char);
        r
    }
}

/// Whether `s` holds nothing but decimal digits.
pub open spec fn all_digits(s: Seq<char>) -> bool {
    forall|i: int| 0 <= i < s.len() ==> '0' <= #[trigger] s[i] <= '9'
}

/// The number that the digits `s` write.
pub open spec fn digits_value(s: Seq<char>) -> nat
    decreases s.len(),
{
    if s.len() == 0 {
        0
    } else {
        (digits_value(s.drop_last()) * 10 + (s.last() as int - 48)) as nat
    }
}

/// The unsigned number that `s` writes, if it is at most `max`: at least one
/// digit, optionally after a `+`, and nothing else.
pub open spec fn number(s: Seq<char>, max: nat) -> Option<nat> {
    let digits = if s.len() > 0 && s[0] == '+' {
        s.drop_first()
    } else {
        s
    };
    if digits.len() > 0 && all_digits(digits) && digits_value(digits) <= max {
        Some(digits_value(digits))
    } else {
        None
    }
}

proof fn lemma_digits_value_grows(s: Seq<char>, k: int)
    requires
        all_digits(s),
        0 <= k <= s.len(),
    ensures
        digits_value(s.take(k)) <= digits_value(s),
    decreases s.len(),
{
    if k < s.len() {
        lemma_digits_value_grows(s.drop_last(), k);
        assert(s.drop_last().take(k) == s.take(k));
    } else {
        assert(s.take(k) == s);
    }
}

/// Reads an unsigned number of at most `max`.
pub fn parse_number(s: &str, max: u64) -> (r: Option<u64>)
    ensures
        match r {
            Some(n) => number(s@, max as nat) == Some(n as nat),
            None => number(s@, max as nat) is None,
        },
{
    let v = chars_of(s);
    let from: usize = if v.len() > 0 && v[0] == '+' {
        1
    } else {
        0
    };
    let ghost digits = s@.skip(from as int);
    proof {
        assert(from == 0 ==> digits == s@);
        assert(from == 1 ==> digits == s@.drop_first());
    }
    if v.len() == from {
        return None;
    }
    let mut n: u64 = 0;
    let mut i: usize = from;
    while i < v.len()
        invariant
            v@ == s@,
            from <= i <= v@.len(),
            digits == s@.skip(from as int),
            forall|k: int| 0 <= k < i - from ==> '0' <= #[trigger] digits[k] <= '9',
            n == digits_value(digits.take(i - from)),
            n <= max,
            number(s@, max as nat) == if digits.len() > 0 && all_digits(digits) && digits_value(
                digits,
            ) <= max {
                Some(digits_value(digits))
            } else {
                None
            },
        decreases v@.len() - i,
    {
        let c = v[i];
        let ghost k = (i - from) as int;
        assert(digits[k] == c);
        if !('0' <= c && c <= '9') {
            return None;
        }
        let d: u64 = (c as u32 - 48) as u64;
        proof {
            assert(digits.take(k + 1).drop_last() == digits.take(k));
            assert(digits_value(digits.take(k + 1)) == n * 10 + d);
            if all_digits(digits) {
                lemma_digits_value_grows(digits, k + 1);
            }
        }
        if n > (u64::MAX - d) / 10 {
            return None;
        }
        n = n * 10 + d;
        if n > max {
            return None;
        }
        i = i + 1;
    }
    proof {
        assert(digits.take(digits.len() as int) == digits);
    }
    Some(n)
}

/// Reading what was written gives the number back.
pub proof fn lemma_number_of_decimal(n: nat, max: nat)
    requires
        n <= max,
    ensures
        number(decimal(n), max) == Some(n),
{
    lemma_decimal_digits(n);
}

/// The decimal form of `n` is made of digits, at least one, and writes `n`.
pub proof fn lemma_decimal_digits(n: nat)
    ensures
        decimal(n).len() > 0,
        all_digits(decimal(n)),
        digits_value(decimal(n)) == n,
    decreases n,
{
    if n < 10 {
        reveal_with_fuel(digits_value, 2);
        assert(seq![digit(n)].drop_last() == Seq::<char>::empty());
    } else {
        lemma_decimal_digits(n / 10);
        let s = decimal(n / 10).push(digit(n % 10));
        assert(s.drop_last() == decimal(n / 10));
    }
}

/// White space is tab to carriage return, space, next line, no-break space, and the
/// space, line and paragraph separators of Unicode.
pub proof fn law_white_space(c: char)
    ensures
        white_space(c) <==> (c == '\t' || c == '\n' || c == '\u{b}' || c == '\u{c}' || c == '\r' || c
            == ' ' || c == '\u{85}' || c == '\u{a0}' || c == '\u{1680}' || 0x2000 <= c as int <= 0x200a
            || c == '\u{2028}' || c == '\u{2029}' || c == '\u{202f}' || c == '\u{205f}' || c
            == '\u{3000}'),
{
}

/// Trimming takes white space away at both ends, all of it, and nothing else.
pub proof fn law_trimmed(s: Seq<char>) -> (p: (int, int))
    ensures
        0 <= p.0 <= p.1 <= s.len(),
        trimmed(s) == s.subrange(p.0, p.1),
        forall|i: int| 0 <= i < p.0 || p.1 <= i < s.len() ==> white_space(#[trigger] s[i]),
        trimmed(s).len() > 0 ==> !white_space(trimmed(s).first()) && !white_space(trimmed(s).last()),
{
    let a = lemma_trim_start(s);
    let t = trim_start(s);
    let b = lemma_trim_end(t);
    assert(t.take(b) =~= s.subrange(a, a + b));
    assert forall|i: int| 0 <= i < a || a + b <= i < s.len() implies white_space(
        #[trigger] s[i],
    ) by {
        if i >= a + b {
            assert(s[i] == t[i - a]);
        }
    }
    (a, a + b)
}

proof fn lemma_trim_start(s: Seq<char>) -> (a: int)
    ensures
        0 <= a <= s.len(),
        trim_start(s) == s.skip(a),
        forall|i: int| 0 <= i < a ==> white_space(#[trigger] s[i]),
        a < s.len() ==> !white_space(s[a]),
    decreases s.len(),
{
    if s.len() > 0 && white_space(s[0]) {
        let t = s.drop_first();
        let a = lemma_trim_start(t);
        assert(t.skip(a) =~= s.skip(a + 1));
        assert forall|i: int| 0 <= i < a + 1 implies white_space(#[trigger] s[i]) by {
            if i > 0 {
                assert(s[i] == t[i - 1]);
            }
        }
        a + 1
    } else {
        assert(s.skip(0) =~= s);
        0
    }
}

proof fn lemma_trim_end(s: Seq<char>) -> (b: int)
    ensures
        0 <= b <= s.len(),
        trim_end(s) == s.take(b),
        forall|i: int| b <= i < s.len() ==> white_space(#[trigger] s[i]),
        b > 0 ==> !white_space(s[b - 1]),
    decreases s.len(),
{
    if s.len() > 0 && white_space(s.last()) {
        let t = s.drop_last();
        let b = lemma_trim_end(t);
        assert(t.take(b) =~= s.take(b));
        assert forall|i: int| b <= i < s.len() implies white_space(#[trigger] s[i]) by {
            if i < t.len() {
                assert(s[i] == t[i]);
            }
        }
        b
    } else {
        assert(s.take(s.len() as int) =~= s);
        s.len() as int
    }
}

/// Stripping a character at the ends takes every copy of it there, and nothing else.
pub proof fn law_stripped(s: Seq<char>, c: char) -> (p: (int, int))
    ensures
        0 <= p.0 <= s.len(),
        strip_start(s, c) == s.skip(p.0),
        forall|i: int| 0 <= i < p.0 ==> #[trigger] s[i] == c,
        p.0 < s.len() ==> s[p.0] != c,
        0 <= p.1 <= s.len(),
        strip_end(s, c) == s.take(p.1),
        forall|i: int| p.1 <= i < s.len() ==> #[trigger] s[i] == c,
        p.1 > 0 ==> s[p.1 - 1] != c,
{
    (lemma_strip_start(s, c), lemma_strip_end(s, c))
}

proof fn lemma_strip_start(s: Seq<char>, c: char) -> (a: int)
    ensures
        0 <= a <= s.len(),
        strip_start(s, c) == s.skip(a),
        forall|i: int| 0 <= i < a ==> #[trigger] s[i] == c,
        a < s.len() ==> s[a] != c,
    decreases s.len(),
{
    if s.len() > 0 && s[0] == c {
        let t = s.drop_first();
        let a = lemma_strip_start(t, c);
        assert(t.skip(a) =~= s.skip(a + 1));
        assert forall|i: int| 0 <= i < a + 1 implies #[trigger] s[i] == c by {
            if i > 0 {
                assert(s[i] == t[i - 1]);
            }
        }
        a + 1
    } else {
        assert(s.skip(0) =~= s);
        0
    }
}

proof fn lemma_strip_end(s: Seq<char>, c: char) -> (b: int)
    ensures
        0 <= b <= s.len(),
        strip_end(s, c) == s.take(b),
        forall|i: int| b <= i < s.len() ==> #[trigger] s[i] == c,
        b > 0 ==> s[b - 1] != c,
    decreases s.len(),
{
    if s.len() > 0 && s.last() == c {
        let t = s.drop_last();
        let b = lemma_strip_end(t, c);
        assert(t.take(b) =~= s.take(b));
        assert forall|i: int| b <= i < s.len() implies #[trigger] s[i] == c by {
            if i < t.len() {
                assert(s[i] == t[i]);
            }
        }
        b
    } else {
        assert(s.take(s.len() as int) =~= s);
        s.len() as int
    }
}

/// A pattern is found where it first occurs, if it occurs at all, and a text split
/// there is what stands before and after.
pub proof fn law_found_first(s: Seq<char>, pat: Seq<char>)
    ensures
        match find(s, pat) {
            Some(k) => {
                &&& k + pat.len() <= s.len()
                &&& s.subrange(k as int, k as int + pat.len()) == pat
                &&& split_once(s, pat) is Some
                &&& s == split_once(s, pat).unwrap().0 + pat + split_once(s, pat).unwrap().1
                &&& split_once(s, pat).unwrap().0.len() == k
                &&& forall|j: int|
                    0 <= j < k ==> #[trigger] s.subrange(j, j + pat.len()) != pat
            },
            None => {
                &&& split_once(s, pat) is None
                &&& forall|j: int|
                    0 <= j <= s.len() - pat.len() ==> #[trigger] s.subrange(j, j + pat.len()) != pat
            },
        },
    decreases s.len(),
{
    assert(s.take(pat.len() as int) =~= s.subrange(0, 0int + pat.len()));
    if has_prefix(s, pat) {
        assert(s =~= s.take(0) + pat + s.skip(pat.len() as int));
    } else if s.len() > 0 {
        let t = s.drop_first();
        law_found_first(t, pat);
        let end = match find(t, pat) {
            Some(k) => k as int + 1,
            None => s.len() - pat.len() + 1,
        };
        assert forall|j: int| 0 <= j < end implies #[trigger] s.subrange(j, j + pat.len())
            != pat by {
            if j > 0 {
                assert(j + pat.len() <= s.len());
                assert(s.subrange(j, j + pat.len()) =~= t.subrange(j - 1, j - 1 + pat.len()));
            }
        }
        if find(t, pat) is Some {
            let k = find(t, pat).unwrap() as int;
            assert(s.subrange(k + 1, k + 1 + pat.len()) =~= t.subrange(k, k + pat.len()));
            assert(s =~= s.take(k + 1) + pat + s.skip(k + 1 + pat.len()));
        }
    }
}

/// A join of texts holds them in order with one separator between neighbours: the
/// join of none is empty, that of one is the text, and two lists are joined by joining
/// each and setting the separator between.
pub proof fn law_join(a: Seq<Seq<char>>, b: Seq<Seq<char>>, x: Seq<char>, sep: Seq<char>)
    requires
        a.len() > 0,
        b.len() > 0,
    ensures
        join(Seq::empty(), sep) == Seq::<char>::empty(),
        join(seq![x], sep) == x,
        join(a + b, sep) == join(a, sep) + sep + join(b, sep),
    decreases b.len(),
{
    if b.len() == 1 {
        assert((a + b).drop_last() =~= a);
    } else {
        law_join(a, b.drop_last(), x, sep);
        assert((a + b).drop_last() =~= a + b.drop_last());
        assert(join(a + b, sep) =~= join(a, sep) + sep + join(b, sep));
    }
}

/// Putting a text in lower case changes the letters `A` to `Z`, each to its small
/// letter, and nothing else.
pub proof fn law_ascii_lowered(s: Seq<char>, i: int)
    requires
        0 <= i < s.len(),
    ensures
        ascii_lowered(s).len() == s.len(),
        !('A' <= s[i] <= 'Z') ==> ascii_lowered(s)[i] == s[i],
        'A' <= s[i] <= 'Z' ==> ascii_lowered(s)[i] as int - 'a' as int == s[i] as int - 'A' as int,
{
}

/// A number is at least one digit, with or without a `+` in front, and its value is
/// read from the left: each further digit counts once and what stands before it ten
/// times.
pub proof fn law_number(s: Seq<char>, max: nat)
    ensures
        number(s, max) is Some ==> {
            let digits = if s[0] == '+' {
                s.skip(1)
            } else {
                s
            };
            digits.len() > 0 && number(s, max).unwrap() <= max && forall|i: int|
                0 <= i < digits.len() ==> '0' <= #[trigger] digits[i] <= '9'
        },
        forall|n: nat| n <= max ==> number(#[trigger] decimal(n), max) == Some(n),
        forall|n: nat| n <= max ==> number(seq!['+'] + #[trigger] decimal(n), max) == Some(n),
        forall|n: nat| n > max ==> number(#[trigger] decimal(n), max) is None,
        number(Seq::empty(), max) is None,
        number("+"@, max) is None,
{
    reveal_strlit("+");
    assert("+"@.drop_first() =~= Seq::empty());
    assert forall|n: nat| true implies {
        &&& n <= max ==> number(#[trigger] decimal(n), max) == Some(n)
        &&& n <= max ==> number(seq!['+'] + decimal(n), max) == Some(n)
        &&& n > max ==> number(decimal(n), max) is None
    } by {
        let d = decimal(n);
        lemma_number_of_decimal(n, n + max);
        lemma_decimal_digits(n);
        assert(d.len() > 0 && d[0] != '+');
        assert((seq!['+'] + d).drop_first() =~= d);
    }
    if number(s, max) is Some && s[0] == '+' {
        assert(s.skip(1) =~= s.drop_first());
    }
}

/// A text starts with another where that is a prefix of it, and ends with another where
/// that is a suffix.
pub proof fn law_prefixes_and_suffixes(s: Seq<char>, pat: Seq<char>)
    ensures
        has_prefix(s, pat) <==> pat.is_prefix_of(s),
        has_suffix(s, pat) <==> pat.is_suffix_of(s),
{
    if pat.len() <= s.len() {
        assert(s.take(pat.len() as int) =~= s.subrange(0, pat.len() as int));
        assert(s.skip(s.len() - pat.len()) =~= s.subrange(s.len() - pat.len(), s.len() as int));
    }
}

/// A number is written with the digits `0` to `9`, without zeros at its start, so that
/// the digits read from the left give it back.
pub proof fn law_decimal(n: nat, i: int)
    requires
        0 <= i < decimal(n).len(),
    ensures
        n < 10 ==> decimal(n) == seq!["0123456789"@[n as int]],
        n >= 10 ==> decimal(n) == decimal(n / 10) + decimal(n % 10),
        '0' <= decimal(n)[i] <= '9',
        n > 0 ==> decimal(n)[0] != '0',
{
    reveal_strlit("0123456789");
    lemma_decimal_digits(n);
    if n >= 10 {
        assert(decimal(n) =~= decimal(n / 10) + decimal(n % 10));
    }
    lemma_no_leading_zero(n);
    assert(n < 10 ==> n == 0 || n == 1 || n == 2 || n == 3 || n == 4 || n == 5 || n == 6 || n == 7
        || n == 8 || n == 9);
}

proof fn lemma_no_leading_zero(n: nat)
    ensures
        decimal(n).len() > 0,
        n > 0 ==> decimal(n)[0] != '0',
    decreases n,
{
    if n >= 10 {
        lemma_no_leading_zero(n / 10);
    }
}

} // verus!
