//! The tags the renderer writes, and what can be said of text in which every
//! `<` begins one of them: such text is closed under concatenation, and the
//! occurrences of a tag in a concatenation are those of its parts.
use vstd::prelude::*;
use crate::escape::{escape_html, is_markup_char, lemma_escaped_text_has_no_markup};
use crate::text::occurs_at;

verus! {

/// The number of tags the renderer writes.
pub open spec fn tag_count() -> int {
    11
}

/// The renderer's tags, numbered from 0.
pub open spec fn tag(k: int) -> Seq<char> {
    if k == 0 {
        "<b>"@
    } else if k == 1 {
        "</b>"@
    } else if k == 2 {
        "<i>"@
    } else if k == 3 {
        "</i>"@
    } else if k == 4 {
        "<code>"@
    } else if k == 5 {
        "</code>"@
    } else if k == 6 {
        "<code class=\"language-"@
    } else if k == 7 {
        "<pre>"@
    } else if k == 8 {
        "</pre>"@
    } else if k == 9 {
        "<a href=\""@
    } else {
        "</a>"@
    }
}

/// One of the renderer's tags starts at index `i` of `s`.
pub open spec fn begins_tag(s: Seq<char>, i: int) -> bool {
    exists|k: int| 0 <= k < tag_count() && #[trigger] occurs_at(s, tag(k), i)
}

/// Every `<` in `s` begins one of the renderer's tags.
pub open spec fn tags_ok(s: Seq<char>) -> bool {
    forall|i: int| 0 <= i < s.len() && #[trigger] s[i] == '<' ==> begins_tag(s, i)
}

/// `s` holds no `<`.
pub open spec fn no_lt(s: Seq<char>) -> bool {
    forall|i: int| 0 <= i < s.len() ==> #[trigger] s[i] != '<'
}

/// The number of indices of `s` below `n` at which `t` occurs.
pub open spec fn count_below(s: Seq<char>, t: Seq<char>, n: int) -> nat
    decreases n,
{
    if n <= 0 {
        0
    } else {
        count_below(s, t, n - 1) + if occurs_at(s, t, n - 1) {
            1nat
        } else {
            0nat
        }
    }
}

/// The number of occurrences of `t` in `s`.
pub open spec fn count(s: Seq<char>, t: Seq<char>) -> nat {
    count_below(s, t, s.len() as int)
}

/// Each tag starts with its only `<`, and is at least three characters long.
pub proof fn lemma_tag_shape(k: int)
    requires
        0 <= k < tag_count(),
    ensures
        tag(k).len() >= 3,
        tag(k)[0] == '<',
        forall|j: int| 1 <= j < tag(k).len() ==> #[trigger] tag(k)[j] != '<',
{
    reveal_strlit("<b>");
    reveal_strlit("</b>");
    reveal_strlit("<i>");
    reveal_strlit("</i>");
    reveal_strlit("<code>");
    reveal_strlit("</code>");
    reveal_strlit("<code class=\"language-");
    reveal_strlit("<pre>");
    reveal_strlit("</pre>");
    reveal_strlit("<a href=\"");
    reveal_strlit("</a>");
}

proof fn lemma_tag_key(j: int, k: int)
    requires
        0 <= j < tag_count(),
        0 <= k < tag_count(),
        tag(j)[1] == tag(k)[1],
        tag(j)[2] == tag(k)[2],
        tag(j).len() >= 6 && tag(k).len() >= 6 ==> tag(j)[5] == tag(k)[5],
    ensures
        j == k,
{
    reveal_strlit("<b>");
    reveal_strlit("</b>");
    reveal_strlit("<i>");
    reveal_strlit("</i>");
    reveal_strlit("<code>");
    reveal_strlit("</code>");
    reveal_strlit("<code class=\"language-");
    reveal_strlit("<pre>");
    reveal_strlit("</pre>");
    reveal_strlit("<a href=\"");
    reveal_strlit("</a>");
}

/// Two tags that both start at the same place are the same tag.
pub proof fn lemma_tags_prefix_free(s: Seq<char>, i: int, j: int, k: int)
    requires
        0 <= j < tag_count(),
        0 <= k < tag_count(),
        occurs_at(s, tag(j), i),
        occurs_at(s, tag(k), i),
    ensures
        j == k,
{
    lemma_tag_shape(j);
    lemma_tag_shape(k);
    let sj = s.subrange(i, i + tag(j).len());
    let sk = s.subrange(i, i + tag(k).len());
    assert(sj[1] == s[i + 1] && sk[1] == s[i + 1]);
    assert(sj[2] == s[i + 2] && sk[2] == s[i + 2]);
    if tag(j).len() >= 6 && tag(k).len() >= 6 {
        assert(sj[5] == s[i + 5] && sk[5] == s[i + 5]);
    }
    lemma_tag_key(j, k);
}

/// Text without `<` has no tag in it.
pub proof fn lemma_plain(e: Seq<char>)
    requires
        no_lt(e),
    ensures
        tags_ok(e),
        forall|k: int| 0 <= k < tag_count() ==> #[trigger] count(e, tag(k)) == 0,
{
    assert forall|k: int| 0 <= k < tag_count() implies #[trigger] count(e, tag(k)) == 0 by {
        lemma_tag_shape(k);
        lemma_count_below_plain(e, tag(k), e.len() as int);
    }
}

proof fn lemma_count_below_plain(e: Seq<char>, t: Seq<char>, n: int)
    requires
        no_lt(e),
        t.len() > 0,
        t[0] == '<',
        n <= e.len(),
    ensures
        count_below(e, t, n) == 0,
    decreases n,
{
    if n > 0 {
        lemma_count_below_plain(e, t, n - 1);
        if occurs_at(e, t, n - 1) {
            assert(e.subrange(n - 1, n - 1 + t.len())[0] == e[n - 1]);
        }
    }
}

/// Escaped text has no tag in it.
pub proof fn lemma_escaped_plain(s: Seq<char>)
    ensures
        no_lt(escape_html(s)),
        tags_ok(escape_html(s)),
        forall|k: int| 0 <= k < tag_count() ==> #[trigger] count(escape_html(s), tag(k)) == 0,
{
    lemma_escaped_text_has_no_markup(s);
    assert forall|i: int| 0 <= i < escape_html(s).len() implies #[trigger] escape_html(s)[i]
        != '<' by {
        assert(!is_markup_char(escape_html(s)[i]));
    }
    lemma_plain(escape_html(s));
}

proof fn lemma_count_below_single(s: Seq<char>, t: Seq<char>, n: int)
    requires
        s.len() > 0,
        t.len() > 0,
        t[0] == '<',
        forall|j: int| 1 <= j < s.len() ==> #[trigger] s[j] != '<',
        1 <= n <= s.len(),
    ensures
        count_below(s, t, n) == if occurs_at(s, t, 0) {
            1nat
        } else {
            0nat
        },
    decreases n,
{
    if n > 1 {
        lemma_count_below_single(s, t, n - 1);
        if occurs_at(s, t, n - 1) {
            assert(s.subrange(n - 1, n - 1 + t.len())[0] == s[n - 1]);
        }
    } else {
        assert(count_below(s, t, 0) == 0);
    }
}

/// A tag on its own: its one `<` begins it, and it holds itself once and no
/// other tag.
pub proof fn lemma_single_tag(k: int)
    requires
        0 <= k < tag_count(),
    ensures
        tags_ok(tag(k)),
        forall|m: int| 0 <= m < tag_count() ==> #[trigger] count(tag(k), tag(m)) == if m == k {
            1nat
        } else {
            0nat
        },
{
    lemma_tag_shape(k);
    let s = tag(k);
    assert(s.subrange(0, s.len() as int) =~= s);
    assert(occurs_at(s, tag(k), 0));
    assert(begins_tag(s, 0));
    assert forall|m: int| 0 <= m < tag_count() implies #[trigger] count(tag(k), tag(m)) == if m
        == k {
        1nat
    } else {
        0nat
    } by {
        lemma_tag_shape(m);
        lemma_count_below_single(s, tag(m), s.len() as int);
        if m != k && occurs_at(s, tag(m), 0) {
            lemma_tags_prefix_free(s, 0, m, k);
        }
    }
}

proof fn lemma_begins_tag_in_concat(a: Seq<char>, b: Seq<char>, i: int)
    requires
        0 <= i < (a + b).len(),
        i < a.len() ==> begins_tag(a, i),
        i >= a.len() ==> begins_tag(b, i - a.len()),
    ensures
        begins_tag(a + b, i),
{
    if i < a.len() {
        let k = choose|k: int| 0 <= k < tag_count() && #[trigger] occurs_at(a, tag(k), i);
        assert((a + b).subrange(i, i + tag(k).len()) =~= a.subrange(i, i + tag(k).len()));
        assert(occurs_at(a + b, tag(k), i));
    } else {
        let k = choose|k: int|
            0 <= k < tag_count() && #[trigger] occurs_at(b, tag(k), i - a.len());
        assert((a + b).subrange(i, i + tag(k).len()) =~= b.subrange(
            i - a.len(),
            i - a.len() + tag(k).len(),
        ));
        assert(occurs_at(a + b, tag(k), i));
    }
}

/// Where `t` occurs in `a + b` when every `<` of `a` begins a tag: within
/// `a`, or within `b`, never across the join.
proof fn lemma_occurs_in_concat(a: Seq<char>, b: Seq<char>, k: int, p: int)
    requires
        tags_ok(a),
        0 <= k < tag_count(),
        0 <= p,
    ensures
        p < a.len() ==> occurs_at(a + b, tag(k), p) == occurs_at(a, tag(k), p),
        p >= a.len() ==> occurs_at(a + b, tag(k), p) == occurs_at(b, tag(k), p - a.len()),
{
    let t = tag(k);
    lemma_tag_shape(k);
    if p < a.len() {
        if p + t.len() <= a.len() {
            assert((a + b).subrange(p, p + t.len()) =~= a.subrange(p, p + t.len()));
        } else if occurs_at(a + b, t, p) {
            assert((a + b).subrange(p, p + t.len())[0] == (a + b)[p]);
            assert(a[p] == '<');
            let j = choose|j: int| 0 <= j < tag_count() && #[trigger] occurs_at(a, tag(j), p);
            assert((a + b).subrange(p, p + tag(j).len()) =~= a.subrange(p, p + tag(j).len()));
            assert(occurs_at(a + b, tag(j), p));
            lemma_tags_prefix_free(a + b, p, j, k);
        }
    } else {
        if p + t.len() <= (a + b).len() {
            assert((a + b).subrange(p, p + t.len()) =~= b.subrange(
                p - a.len(),
                p - a.len() + t.len(),
            ));
        }
    }
}

proof fn lemma_count_below_prefix(a: Seq<char>, b: Seq<char>, k: int, n: int)
    requires
        tags_ok(a),
        0 <= k < tag_count(),
        0 <= n <= a.len(),
    ensures
        count_below(a + b, tag(k), n) == count_below(a, tag(k), n),
    decreases n,
{
    if n > 0 {
        lemma_count_below_prefix(a, b, k, n - 1);
        lemma_occurs_in_concat(a, b, k, n - 1);
    }
}

proof fn lemma_count_below_suffix(a: Seq<char>, b: Seq<char>, k: int, m: int)
    requires
        tags_ok(a),
        0 <= k < tag_count(),
        0 <= m <= b.len(),
    ensures
        count_below(a + b, tag(k), a.len() + m) == count_below(a, tag(k), a.len() as int)
            + count_below(b, tag(k), m),
    decreases m,
{
    if m == 0 {
        lemma_count_below_prefix(a, b, k, a.len() as int);
    } else {
        lemma_count_below_suffix(a, b, k, m - 1);
        lemma_occurs_in_concat(a, b, k, a.len() + m - 1);
    }
}

/// Joining two texts in which every `<` begins a tag gives such a text, and
/// the tags of the join are those of its parts.
pub proof fn lemma_cat(a: Seq<char>, b: Seq<char>)
    requires
        tags_ok(a),
        tags_ok(b),
    ensures
        tags_ok(a + b),
        forall|k: int|
            0 <= k < tag_count() ==> #[trigger] count(a + b, tag(k)) == count(a, tag(k)) + count(
                b,
                tag(k),
            ),
{
    assert forall|i: int| 0 <= i < (a + b).len() && #[trigger] (a + b)[i] == '<' implies begins_tag(
        a + b,
        i,
    ) by {
        if i < a.len() {
            assert(a[i] == '<');
        } else {
            assert(b[i - a.len()] == '<');
        }
        lemma_begins_tag_in_concat(a, b, i);
    }
    assert forall|k: int| 0 <= k < tag_count() implies #[trigger] count(a + b, tag(k)) == count(
        a,
        tag(k),
    ) + count(b, tag(k)) by {
        lemma_count_below_suffix(a, b, k, b.len() as int);
    }
}

} // verus!
