//! Character-level text handling shared by the rest of the library:
//! splitting into lines, trimming whitespace, lowercasing, substring search
//! and decimal rendering, each stated over `Seq<char>`.
use vstd::prelude::*;

verus! {

// ----------------------------------------------------------------------
// Building strings
// ----------------------------------------------------------------------

/// Appends one character to a string: `String::push`.
/// Claimed: the string afterwards is the old one followed by `c`.
#[verifier::external_body]
pub(crate) fn push_char(s: &mut String, c: char)
    ensures
        final(s)@ == old(s)@.push(c),
{
    s.push(c);
}

/// The characters of `s`, in order.
pub fn chars_of(s: &str) -> (r: Vec<char>)
    ensures
        r@ == s@,
{
    let mut r: Vec<char> = Vec::new();
    for c in it: s.chars()
        invariant
            r@ == it.seq().take(it.index() as int),
            it.seq() == s@,
    {
        r.push(c);
    }
    r
}

/// Appends `cs[lo..hi]` to `out`.
pub fn push_range(out: &mut String, cs: &[char], lo: usize, hi: usize)
    requires
        lo <= hi <= cs@.len(),
    ensures
        final(out)@ == old(out)@ + cs@.subrange(lo as int, hi as int),
{
    let mut i: usize = lo;
    while i < hi
        invariant
            lo <= i <= hi <= cs@.len(),
            out@ == old(out)@ + cs@.subrange(lo as int, i as int),
        decreases hi - i,
    {
        push_char(out, cs[i]);
        assert(cs@.subrange(lo as int, i + 1) =~= cs@.subrange(lo as int, i as int).push(cs@[i as int]));
        i += 1;
    }
}

/// A string holding `cs[lo..hi]`.
pub fn string_from_range(cs: &[char], lo: usize, hi: usize) -> (r: String)
    requires
        lo <= hi <= cs@.len(),
    ensures
        r@ == cs@.subrange(lo as int, hi as int),
{
    let mut r = String::new();
    push_range(&mut r, cs, lo, hi);
    assert(r@ =~= cs@.subrange(lo as int, hi as int));
    r
}

/// Whether two strings hold the same characters.
pub fn same_text(a: &str, b: &str) -> (r: bool)
    ensures
        r == (a@ == b@),
{
    let x = chars_of(a);
    let y = chars_of(b);
    if x.len() != y.len() {
        return false;
    }
    let mut i: usize = 0;
    while i < x.len()
        invariant
            x@ == a@,
            y@ == b@,
            x@.len() == y@.len(),
            i <= x@.len(),
            forall|j: int| 0 <= j < i ==> x@[j] == y@[j],
        decreases x.len() - i,
    {
        if x[i] != y[i] {
            return false;
        }
        i += 1;
    }
    assert(x@ =~= y@);
    true
}

// ----------------------------------------------------------------------
// Lines
// ----------------------------------------------------------------------

/// Pieces of `s` cut after every newline: the finished pieces (each ending
/// in `'\n'`) and the unfinished tail that holds no newline.
pub open spec fn newline_pieces_state(s: Seq<char>) -> (Seq<Seq<char>>, Seq<char>)
    decreases s.len(),
{
    if s.len() == 0 {
        (Seq::empty(), Seq::empty())
    } else {
        let prev = newline_pieces_state(s.drop_last());
        if s.last() == '\n' {
            (prev.0.push(prev.1.push('\n')), Seq::empty())
        } else {
            (prev.0, prev.1.push(s.last()))
        }
    }
}

/// `s` cut after every `'\n'`, each newline kept at the end of its piece;
/// a final piece without newline is kept when it is not empty
/// (`str::split_inclusive('\n')`).
pub open spec fn split_inclusive_newline(s: Seq<char>) -> Seq<Seq<char>> {
    let st = newline_pieces_state(s);
    if st.1.len() == 0 {
        st.0
    } else {
        st.0.push(st.1)
    }
}

/// A piece with its line ending removed: a final `"\n"` or `"\r\n"`.
pub open spec fn strip_line_ending(p: Seq<char>) -> Seq<char> {
    if p.len() > 0 && p.last() == '\n' {
        let q = p.drop_last();
        if q.len() > 0 && q.last() == '\r' {
            q.drop_last()
        } else {
            q
        }
    } else {
        p
    }
}

/// The lines of `s` as `str::lines` gives them.
pub open spec fn lines(s: Seq<char>) -> Seq<Seq<char>> {
    split_inclusive_newline(s).map_values(|p: Seq<char>| strip_line_ending(p))
}

/// Cuts `chars` after every newline (see `split_inclusive_newline`).
pub fn newline_pieces(chars: &[char]) -> (r: Vec<Vec<char>>)
    ensures
        r.deep_view() == split_inclusive_newline(chars@),
{
    let mut done: Vec<Vec<char>> = Vec::new();
    let mut tail: Vec<char> = Vec::new();
    let mut i: usize = 0;
    while i < chars.len()
        invariant
            i <= chars@.len(),
            done.deep_view() == newline_pieces_state(chars@.take(i as int)).0,
            tail@ == newline_pieces_state(chars@.take(i as int)).1,
        decreases chars.len() - i,
    {
        assert(chars@.take(i + 1).drop_last() =~= chars@.take(i as int));
        let c = chars[i];
        if c == '\n' {
            tail.push(c);
            assert(tail.deep_view() =~= tail@);
            let ghost before = done.deep_view();
            done.push(tail);
            assert(done.deep_view() =~= before.push(newline_pieces_state(chars@.take(i as int)).1.push('\n')));
            tail = Vec::new();
            assert(tail@ =~= Seq::<char>::empty());
        } else {
            tail.push(c);
        }
        i += 1;
    }
    assert(chars@.take(chars@.len() as int) =~= chars@);
    if tail.len() > 0 {
        assert(tail.deep_view() =~= tail@);
        let ghost before = done.deep_view();
        done.push(tail);
        assert(done.deep_view() =~= before.push(newline_pieces_state(chars@).1));
    }
    done
}

/// The length of `p` without its line ending.
pub fn line_content_len(p: &[char]) -> (n: usize)
    ensures
        n <= p@.len(),
        p@.take(n as int) == strip_line_ending(p@),
{
    let len = p.len();
    if len > 0 && p[len - 1] == '\n' {
        if len > 1 && p[len - 2] == '\r' {
            assert(p@.take(len - 2) =~= p@.drop_last().drop_last());
            len - 2
        } else {
            assert(p@.take(len - 1) =~= p@.drop_last());
            len - 1
        }
    } else {
        assert(p@.take(len as int) =~= p@);
        len
    }
}

// ----------------------------------------------------------------------
// Whitespace
// ----------------------------------------------------------------------

/// Unicode `White_Space` (`char::is_whitespace`).
pub open spec fn is_whitespace_spec(c: char) -> bool {
    ||| ('\u{9}' <= c && c <= '\u{d}')
    ||| c == ' '
    ||| c == '\u{85}'
    ||| c == '\u{a0}'
    ||| c == '\u{1680}'
    ||| ('\u{2000}' <= c && c <= '\u{200a}')
    ||| c == '\u{2028}'
    ||| c == '\u{2029}'
    ||| c == '\u{202f}'
    ||| c == '\u{205f}'
    ||| c == '\u{3000}'
}

/// Whether `c` is Unicode whitespace.
pub fn is_whitespace(c: char) -> (r: bool)
    ensures
        r == is_whitespace_spec(c),
{
    ('\u{9}' <= c && c <= '\u{d}') || c == ' ' || c == '\u{85}' || c == '\u{a0}' || c
        == '\u{1680}' || ('\u{2000}' <= c && c <= '\u{200a}') || c == '\u{2028}' || c
        == '\u{2029}' || c == '\u{202f}' || c == '\u{205f}' || c == '\u{3000}'
}

/// `s` without its leading whitespace.
pub open spec fn trim_start(s: Seq<char>) -> Seq<char>
    decreases s.len(),
{
    if s.len() > 0 && is_whitespace_spec(s[0]) {
        trim_start(s.drop_first())
    } else {
        s
    }
}

/// `s` without its trailing whitespace.
pub open spec fn trim_end(s: Seq<char>) -> Seq<char>
    decreases s.len(),
{
    if s.len() > 0 && is_whitespace_spec(s.last()) {
        trim_end(s.drop_last())
    } else {
        s
    }
}

/// `s` without leading and trailing whitespace (`str::trim`).
pub open spec fn trim(s: Seq<char>) -> Seq<char> {
    trim_end(trim_start(s))
}

proof fn lemma_trim_start_shape(s: Seq<char>) -> (a: int)
    ensures
        0 <= a <= s.len(),
        trim_start(s) == s.skip(a),
        forall|i: int| 0 <= i < a ==> is_whitespace_spec(#[trigger] s[i]),
        a < s.len() ==> !is_whitespace_spec(s[a]),
    decreases s.len(),
{
    if s.len() > 0 && is_whitespace_spec(s[0]) {
        let a1 = lemma_trim_start_shape(s.drop_first());
        assert(s.drop_first().skip(a1) =~= s.skip(a1 + 1));
        assert forall|i: int| 0 <= i < a1 + 1 implies is_whitespace_spec(#[trigger] s[i]) by {
            if i > 0 {
                assert(s[i] == s.drop_first()[i - 1]);
            }
        }
        a1 + 1
    } else {
        assert(s.skip(0) =~= s);
        0
    }
}

proof fn lemma_trim_end_shape(s: Seq<char>) -> (b: int)
    ensures
        0 <= b <= s.len(),
        trim_end(s) == s.take(b),
        forall|i: int| b <= i < s.len() ==> is_whitespace_spec(#[trigger] s[i]),
        b > 0 ==> !is_whitespace_spec(s[b - 1]),
    decreases s.len(),
{
    if s.len() > 0 && is_whitespace_spec(s.last()) {
        let b1 = lemma_trim_end_shape(s.drop_last());
        assert(s.drop_last().take(b1) =~= s.take(b1));
        assert forall|i: int| b1 <= i < s.len() implies is_whitespace_spec(#[trigger] s[i]) by {
            if i < s.len() - 1 {
                assert(s[i] == s.drop_last()[i]);
            }
        }
        b1
    } else {
        assert(s.take(s.len() as int) =~= s);
        s.len() as int
    }
}

/// Trimming keeps a run of the text whose first and last characters are not
/// whitespace, and drops only whitespace before and after it.
pub proof fn lemma_trim_shape(s: Seq<char>)
    ensures
        exists|a: int, b: int|
            {
                &&& 0 <= a <= b <= s.len()
                &&& trim(s) == s.subrange(a, b)
                &&& forall|i: int| 0 <= i < a ==> is_whitespace_spec(#[trigger] s[i])
                &&& forall|i: int| b <= i < s.len() ==> is_whitespace_spec(#[trigger] s[i])
            },
        trim(s).len() > 0 ==> !is_whitespace_spec(trim(s)[0]) && !is_whitespace_spec(
            trim(s).last(),
        ),
{
    let a = lemma_trim_start_shape(s);
    let t = s.skip(a);
    let b = lemma_trim_end_shape(t);
    assert(trim(s) == t.take(b));
    assert(t.take(b) =~= s.subrange(a, a + b));
    assert forall|i: int| a + b <= i < s.len() implies is_whitespace_spec(#[trigger] s[i]) by {
        assert(s[i] == t[i - a]);
    }
    assert(0 <= a <= a + b <= s.len() && trim(s) == s.subrange(a, a + b));
    if b > 0 {
        assert(trim(s)[0] == t[0]);
        assert(trim(s).last() == t[b - 1]);
    }
}

/// The bounds `(a, b)` of `trim(cs[lo..hi])` inside `cs`.
pub fn trim_bounds(cs: &[char], lo: usize, hi: usize) -> (r: (usize, usize))
    requires
        lo <= hi <= cs@.len(),
    ensures
        lo <= r.0 <= r.1 <= hi,
        cs@.subrange(r.0 as int, r.1 as int) == trim(cs@.subrange(lo as int, hi as int)),
{
    let mut a: usize = lo;
    while a < hi && is_whitespace(cs[a])
        invariant
            lo <= a <= hi <= cs@.len(),
            trim_start(cs@.subrange(lo as int, hi as int)) == trim_start(
                cs@.subrange(a as int, hi as int),
            ),
        decreases hi - a,
    {
        assert(cs@.subrange(a as int, hi as int).drop_first() =~= cs@.subrange(a + 1, hi as int));
        a += 1;
    }
    let mut b: usize = hi;
    while b > a && is_whitespace(cs[b - 1])
        invariant
            lo <= a <= b <= hi <= cs@.len(),
            trim_end(cs@.subrange(a as int, hi as int)) == trim_end(
                cs@.subrange(a as int, b as int),
            ),
        decreases b - a,
    {
        assert(cs@.subrange(a as int, b as int).drop_last() =~= cs@.subrange(a as int, b - 1));
        b -= 1;
    }
    (a, b)
}

/// `s` with its leading and trailing whitespace removed.
pub fn trim_str(s: &str) -> (r: String)
    ensures
        r@ == trim(s@),
{
    let cs = chars_of(s);
    let (a, b) = trim_bounds(cs.as_slice(), 0, cs.len());
    assert(cs@.subrange(0, cs@.len() as int) =~= s@);
    string_from_range(cs.as_slice(), a, b)
}

// ----------------------------------------------------------------------
// Case, search and numbers
// ----------------------------------------------------------------------

/// `c` with `A`..`Z` mapped to `a`..`z` (`char::to_ascii_lowercase`).
pub open spec fn ascii_lower_spec(c: char) -> char {
    if 'A' <= c && c <= 'Z' {
        ((c as int) + 32) as char
    } else {
        c
    }
}

/// `s` with its ASCII capitals lowercased (`str::to_ascii_lowercase`).
pub open spec fn ascii_lowercase(s: Seq<char>) -> Seq<char> {
    s.map_values(|c: char| ascii_lower_spec(c))
}

/// The ASCII lowercase form of one character.
pub fn ascii_lower(c: char) -> (r: char)
    ensures
        r == ascii_lower_spec(c),
{
    if 'A' <= c && c <= 'Z' {
        let b: u8 = c as u8;
        assert(b as int == c as int);
        (b + 32) as char
    } else {
        c
    }
}

/// The ASCII lowercase form of a sequence of characters.
pub fn lowercase_chars(cs: &[char]) -> (r: Vec<char>)
    ensures
        r@ == ascii_lowercase(cs@),
{
    let mut r: Vec<char> = Vec::new();
    let mut i: usize = 0;
    while i < cs.len()
        invariant
            i <= cs@.len(),
            r@ == ascii_lowercase(cs@.take(i as int)),
        decreases cs.len() - i,
    {
        r.push(ascii_lower(cs[i]));
        i += 1;
        assert(r@ =~= ascii_lowercase(cs@.take(i as int)));
    }
    assert(cs@.take(cs@.len() as int) =~= cs@);
    r
}

/// `needle` stands in `s` starting at index `i`.
pub open spec fn occurs_at(s: Seq<char>, needle: Seq<char>, i: int) -> bool {
    &&& 0 <= i
    &&& i + needle.len() <= s.len()
    &&& s.subrange(i, i + needle.len()) == needle
}

/// `needle` stands somewhere in `s` (`str::contains`).
pub open spec fn contains_text(s: Seq<char>, needle: Seq<char>) -> bool {
    exists|i: int| #[trigger] occurs_at(s, needle, i)
}

/// Whether `needle` stands somewhere in `s`.
pub fn contains_chars(s: &[char], needle: &[char]) -> (r: bool)
    ensures
        r == contains_text(s@, needle@),
{
    if needle.len() > s.len() {
        assert(forall|i: int| !#[trigger] occurs_at(s@, needle@, i));
        return false;
    }
    let slen = s.len();
    let last = slen - needle.len();
    let mut i: usize = 0;
    while i <= last
        invariant
            slen == s@.len(),
            last == s@.len() - needle@.len(),
            i <= last + 1,
            forall|k: int| 0 <= k < i ==> !#[trigger] occurs_at(s@, needle@, k),
        decreases last + 1 - i,
    {
        let mut j: usize = 0;
        while j < needle.len() && s[i + j] == needle[j]
            invariant
                i <= last,
                slen == s@.len(),
                last == s@.len() - needle@.len(),
                j <= needle@.len(),
                forall|k: int| 0 <= k < j ==> s@[i + k] == needle@[k],
            decreases needle.len() - j,
        {
            j += 1;
        }
        if j == needle.len() {
            assert(s@.subrange(i as int, i + needle@.len()) =~= needle@);
            assert(occurs_at(s@, needle@, i as int));
            return true;
        }
        assert(s@.subrange(i as int, i + needle@.len())[j as int] != needle@[j as int]);
        i += 1;
    }
    assert forall|k: int| !#[trigger] occurs_at(s@, needle@, k) by {
        if 0 <= k && k + needle@.len() <= s@.len() {
            assert(k < i);
        }
    }
    false
}

/// The decimal digit `d` as a character.
pub open spec fn digit_char(d: int) -> char {
    (d + 48) as char
}

/// The decimal representation of `n`, without sign or leading zeros.
pub open spec fn decimal(n: nat) -> Seq<char>
    decreases n,
{
    if n < 10 {
        seq![digit_char(n as int)]
    } else {
        decimal(n / 10).push(digit_char((n % 10) as int))
    }
}

/// Appends the decimal representation of `n` to `out`.
pub fn push_decimal(out: &mut String, n: u64)
    ensures
        final(out)@ == old(out)@ + decimal(n as nat),
    decreases n,
{
    if n >= 10 {
        push_decimal(out, n / 10);
    }
    let d: u8 = (n % 10) as u8;
    push_char(out, (d + 48) as char);
    assert(out@ =~= old(out)@ + decimal(n as nat));
}

} // verus!
