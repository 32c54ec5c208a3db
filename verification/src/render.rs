//! Rendering of the agent's Markdown replies as Telegram HTML, and splitting
//! of long replies into messages of bounded length.
use vstd::prelude::*;
use crate::escape::{encode_safe, escape_html, lemma_escape_concat};
use crate::html_tags::{
    count, lemma_cat, lemma_escaped_plain, lemma_plain, lemma_single_tag, no_lt, tag, tag_count,
    tags_ok,
};
use crate::text::{
    chars_of, line_content_len, lines, newline_pieces, newline_pieces_state, push_char, push_range,
    split_inclusive_newline,
    strip_line_ending, string_from_range, trim, trim_bounds,
};

verus! {

// ----------------------------------------------------------------------
// Searching
// ----------------------------------------------------------------------

/// `k` is the first index of `c` in `s`.
pub open spec fn is_first_index(s: Seq<char>, c: char, k: int) -> bool {
    &&& 0 <= k < s.len()
    &&& s[k] == c
    &&& forall|j: int| 0 <= j < k ==> s[j] != c
}

/// The first index of `c` in `s`, if `c` occurs (`position`).
pub open spec fn first_index(s: Seq<char>, c: char) -> Option<int> {
    if exists|k: int| is_first_index(s, c, k) {
        Some(choose|k: int| is_first_index(s, c, k))
    } else {
        None
    }
}

proof fn lemma_first_index_is(s: Seq<char>, c: char, k: int)
    requires
        is_first_index(s, c, k),
    ensures
        first_index(s, c) == Some(k),
{
    let k2 = choose|k2: int| is_first_index(s, c, k2);
    assert(is_first_index(s, c, k2));
    if k2 < k {
        assert(s[k2] != c);
    } else if k < k2 {
        assert(s[k] != c);
    }
}

proof fn lemma_first_index_none(s: Seq<char>, c: char)
    requires
        forall|j: int| 0 <= j < s.len() ==> s[j] != c,
    ensures
        first_index(s, c) is None,
{
    if exists|k: int| is_first_index(s, c, k) {
        let k = choose|k: int| is_first_index(s, c, k);
        assert(s[k] == c);
    }
}

/// The first index `k >= from` with `cs[k] == c`.
fn find_char(cs: &[char], from: usize, c: char) -> (r: Option<usize>)
    requires
        from <= cs@.len(),
    ensures
        match r {
            Some(k) => {
                &&& from <= k < cs@.len()
                &&& cs@[k as int] == c
                &&& first_index(cs@.skip(from as int), c) == Some(k - from)
            },
            None => first_index(cs@.skip(from as int), c) is None,
        },
{
    let mut k: usize = from;
    while k < cs.len()
        invariant
            from <= k <= cs@.len(),
            forall|j: int| from <= j < k ==> cs@[j] != c,
        decreases cs.len() - k,
    {
        if cs[k] == c {
            proof {
                lemma_first_index_is(cs@.skip(from as int), c, k - from);
            }
            return Some(k);
        }
        k += 1;
    }
    proof {
        lemma_first_index_none(cs@.skip(from as int), c);
    }
    None
}

// ----------------------------------------------------------------------
// Inline markup
// ----------------------------------------------------------------------

/// The link that `s` (which starts at a `[`) opens, written as HTML, with the
/// number of characters it takes: `[label](url)`.
pub open spec fn link_html(s: Seq<char>) -> Option<(Seq<char>, int)> {
    match first_index(s, ']') {
        None => None,
        Some(cl) => if cl + 1 < s.len() && s[cl + 1] == '(' {
            match first_index(s.skip(cl + 2), ')') {
                None => None,
                Some(ue) => Some(
                    (
                        "<a href=\""@ + escape_html(s.subrange(cl + 2, cl + 2 + ue)) + "\">"@
                            + escape_html(s.subrange(1, cl)) + "</a>"@,
                        cl + 2 + ue + 1,
                    ),
                ),
            }
        } else {
            None
        },
    }
}

/// The tags that close whatever markup is still open at the end of a line.
pub open spec fn closing_tags(bold: bool, italic: bool, code: bool) -> Seq<char> {
    (if code {
        "</code>"@
    } else {
        Seq::empty()
    }) + (if italic {
        "</i>"@
    } else {
        Seq::empty()
    }) + (if bold {
        "</b>"@
    } else {
        Seq::empty()
    })
}

/// The HTML for `cs[idx..]`, with bold, italic and code markup open as the
/// flags say: `**` toggles bold, a backtick toggles code, outside code a `*`
/// or `_` toggles italics and `[label](url)` becomes a link, and every other
/// character is escaped.
pub open spec fn inline_html(cs: Seq<char>, idx: int, bold: bool, italic: bool, code: bool) -> Seq<
    char,
>
    decreases cs.len() - idx,
{
    if idx < 0 || idx >= cs.len() {
        closing_tags(bold, italic, code)
    } else if idx + 1 < cs.len() && cs[idx] == '*' && cs[idx + 1] == '*' {
        (if bold {
            "</b>"@
        } else {
            "<b>"@
        }) + inline_html(cs, idx + 2, !bold, italic, code)
    } else if cs[idx] == '`' {
        (if code {
            "</code>"@
        } else {
            "<code>"@
        }) + inline_html(cs, idx + 1, bold, italic, !code)
    } else if !code && (cs[idx] == '*' || cs[idx] == '_') {
        (if italic {
            "</i>"@
        } else {
            "<i>"@
        }) + inline_html(cs, idx + 1, bold, !italic, code)
    } else if !code && cs[idx] == '[' && link_html(cs.skip(idx)) is Some {
        link_html(cs.skip(idx)).unwrap().0 + inline_html(
            cs,
            idx + link_html(cs.skip(idx)).unwrap().1,
            bold,
            italic,
            code,
        )
    } else {
        escape_html(seq![cs[idx]]) + inline_html(cs, idx + 1, bold, italic, code)
    }
}

/// The HTML for one line of ordinary text.
pub open spec fn line_html(line: Seq<char>) -> Seq<char> {
    inline_html(line, 0, false, false, false)
}

/// The link that starts at `chars[start]`, rendered, with the number of
/// characters it takes.
fn try_render_link(chars: &[char], start: usize) -> (r: Option<(String, usize)>)
    requires
        start < chars@.len(),
        chars@[start as int] == '[',
    ensures
        match r {
            None => link_html(chars@.skip(start as int)) is None,
            Some((h, n)) => link_html(chars@.skip(start as int)) == Some((h@, n as int)),
        },
{
    let ghost s = chars@.skip(start as int);
    let len = chars.len();
    let closing = match find_char(chars, start, ']') {
        Some(k) => k,
        None => return None,
    };
    if !(closing + 1 < len && chars[closing + 1] == '(') {
        return None;
    }
    let url_stop = match find_char(chars, closing + 2, ')') {
        Some(k) => k,
        None => {
            assert(s.skip(closing - start + 2) =~= chars@.skip(closing + 2));
            return None;
        },
    };
    assert(s.skip(closing - start + 2) =~= chars@.skip(closing + 2));
    assert(closing > start) by {
        assert(s[0] == '[');
    }
    let url = string_from_range(chars, closing + 2, url_stop);
    let label = string_from_range(chars, start + 1, closing);
    assert(url@ =~= s.subrange(closing - start + 2, url_stop - start));
    assert(label@ =~= s.subrange(1, closing - start));
    let mut h = String::new();
    h.append("<a href=\"");
    let eu = encode_safe(url.as_str());
    h.append(eu.as_str());
    h.append("\">");
    let el = encode_safe(label.as_str());
    h.append(el.as_str());
    h.append("</a>");
    assert(h@ =~= "<a href=\""@ + escape_html(s.subrange(closing - start + 2, url_stop - start))
        + "\">"@ + escape_html(s.subrange(1, closing - start)) + "</a>"@);
    Some((h, url_stop + 1 - start))
}

/// One step of inline rendering at `line[idx]`: the HTML it gives, the index
/// after it and the new bold, italic and code flags.
fn inline_step(line: &[char], idx: usize, bold: bool, italic: bool, code: bool) -> (r: (
    String,
    usize,
    bool,
    bool,
    bool,
))
    requires
        idx < line@.len(),
    ensures
        idx < r.1 <= line@.len(),
        inline_html(line@, idx as int, bold, italic, code) == r.0@ + inline_html(
            line@,
            r.1 as int,
            r.2,
            r.3,
            r.4,
        ),
{
    let len = line.len();
    let mut piece = String::new();
    if idx + 1 < len && line[idx] == '*' && line[idx + 1] == '*' {
        piece.append(if bold {
            "</b>"
        } else {
            "<b>"
        });
        return (piece, idx + 2, !bold, italic, code);
    }
    if line[idx] == '`' {
        piece.append(if code {
            "</code>"
        } else {
            "<code>"
        });
        return (piece, idx + 1, bold, italic, !code);
    }
    if !code && (line[idx] == '*' || line[idx] == '_') {
        piece.append(if italic {
            "</i>"
        } else {
            "<i>"
        });
        return (piece, idx + 1, bold, !italic, code);
    }
    if !code && line[idx] == '[' {
        if let Some((rendered, consumed)) = try_render_link(line, idx) {
            return (rendered, idx + consumed, bold, italic, code);
        }
    }
    push_char(&mut piece, line[idx]);
    let escaped = encode_safe(piece.as_str());
    (escaped, idx + 1, bold, italic, code)
}

/// One line of ordinary text rendered as HTML.
fn render_inline(line: &[char]) -> (r: String)
    ensures
        r@ == line_html(line@),
{
    let mut output = String::new();
    let mut idx: usize = 0;
    let mut bold = false;
    let mut italic = false;
    let mut code = false;
    let len = line.len();
    while idx < len
        invariant
            len == line@.len(),
            idx <= len,
            line_html(line@) == output@ + inline_html(line@, idx as int, bold, italic, code),
        decreases len - idx,
    {
        let (piece, next, b, i, c) = inline_step(line, idx, bold, italic, code);
        let ghost before = output@;
        output.append(piece.as_str());
        assert(output@ + inline_html(line@, next as int, b, i, c) =~= before + (piece@
            + inline_html(line@, next as int, b, i, c)));
        idx = next;
        bold = b;
        italic = i;
        code = c;
    }
    let ghost body = output@;
    if code {
        output.append("</code>");
    }
    if italic {
        output.append("</i>");
    }
    if bold {
        output.append("</b>");
    }
    assert(output@ =~= body + closing_tags(bold, italic, code));
    output
}

// ----------------------------------------------------------------------
// Whole messages
// ----------------------------------------------------------------------

/// `line` opens or closes a fenced code block.
pub open spec fn is_fence(line: Seq<char>) -> bool {
    &&& line.len() >= 3
    &&& line[0] == '`'
    &&& line[1] == '`'
    &&& line[2] == '`'
}

/// The tag that opens a code block in the language `lang` (none if empty).
pub open spec fn code_block_open_tag(lang: Seq<char>) -> Seq<char> {
    if lang.len() == 0 {
        "<pre><code>"@
    } else {
        "<pre><code class=\"language-"@ + escape_html(lang) + "\">"@
    }
}

/// The output so far and whether a code block is open, after one more line.
pub open spec fn render_step(state: (Seq<char>, bool), line: Seq<char>) -> (Seq<char>, bool) {
    let out = state.0;
    let in_code = state.1;
    if is_fence(line) {
        if in_code {
            ((out + "</code></pre>"@).push('\n'), false)
        } else {
            ((out + code_block_open_tag(trim(line.skip(3)))).push('\n'), true)
        }
    } else if in_code {
        ((out + escape_html(line)).push('\n'), true)
    } else {
        (
            (if out.len() > 0 {
                out.push('\n')
            } else {
                out
            }) + line_html(line),
            false,
        )
    }
}

/// The output and the code-block flag after the lines `ls`.
pub open spec fn render_lines(ls: Seq<Seq<char>>) -> (Seq<char>, bool)
    decreases ls.len(),
{
    if ls.len() == 0 {
        (Seq::empty(), false)
    } else {
        render_step(render_lines(ls.drop_last()), ls.last())
    }
}

/// The HTML for a whole Markdown message: its lines rendered in turn, a code
/// block left open closed at the end, and `&nbsp;` for an empty result.
pub open spec fn markdown_html(input: Seq<char>) -> Seq<char> {
    let st = render_lines(lines(input));
    let closed = if st.1 {
        st.0 + "</code></pre>"@
    } else {
        st.0
    };
    if closed.len() == 0 {
        "&nbsp;"@
    } else {
        closed
    }
}

/// Appends the HTML for `line` (the first `n` characters of `piece`) to
/// `output`, and gives the new code-block flag.
fn render_line(output: &mut String, in_code: bool, piece: &[char], n: usize) -> (r: bool)
    requires
        n <= piece@.len(),
    ensures
        render_step((old(output)@, in_code), piece@.take(n as int)) == (final(output)@, r),
{
    let ghost line = piece@.take(n as int);
    let ghost before = output@;
    if n >= 3 && piece[0] == '`' && piece[1] == '`' && piece[2] == '`' {
        if in_code {
            output.append("</code></pre>");
            push_char(output, '\n');
            return false;
        }
        let (a, b) = trim_bounds(piece, 3, n);
        assert(piece@.subrange(3, n as int) =~= line.skip(3));
        if a == b {
            output.append("<pre><code>");
        } else {
            let lang = string_from_range(piece, a, b);
            let escaped = encode_safe(lang.as_str());
            output.append("<pre><code class=\"language-");
            output.append(escaped.as_str());
            output.append("\">");
        }
        assert(output@ =~= before + code_block_open_tag(trim(line.skip(3))));
        push_char(output, '\n');
        return true;
    }
    if in_code {
        let text = string_from_range(piece, 0, n);
        assert(text@ =~= line);
        let escaped = encode_safe(text.as_str());
        output.append(escaped.as_str());
        push_char(output, '\n');
        return true;
    }
    if !output.as_str().is_empty() {
        push_char(output, '\n');
    }
    let ghost sep = output@;
    let rendered = render_inline(vstd::slice::slice_subrange(piece, 0, n));
    output.append(rendered.as_str());
    assert(piece@.subrange(0, n as int) =~= line);
    false
}

/// Renders the Markdown of an agent's reply as Telegram HTML: fenced code
/// blocks become `<pre><code>` blocks with their text escaped, other lines
/// get bold, italic, inline code and links, and an empty reply becomes
/// `&nbsp;`.
pub fn render_markdown_to_html(input: &str) -> (r: String)
    ensures
        r@ == markdown_html(input@),
        r@.len() > 0,
        tags_ok(r@),
        count(r@, "<pre>"@) == count(r@, "</pre>"@),
{
    proof {
        lemma_markdown_tags(input@);
    }
    let chars = chars_of(input);
    let pieces = newline_pieces(chars.as_slice());
    let ghost ls = lines(input@);
    assert(ls.len() == pieces@.len());
    let mut output = String::new();
    let mut in_code = false;
    let mut k: usize = 0;
    while k < pieces.len()
        invariant
            k <= pieces@.len(),
            pieces.deep_view() == split_inclusive_newline(input@),
            ls == lines(input@),
            ls.len() == pieces@.len(),
            render_lines(ls.take(k as int)) == (output@, in_code),
        decreases pieces.len() - k,
    {
        let piece = &pieces[k];
        assert(piece.deep_view() =~= piece@);
        assert(pieces.deep_view()[k as int] == piece.deep_view());
        let n = line_content_len(piece.as_slice());
        assert(ls[k as int] == strip_line_ending(piece@));
        assert(ls.take(k + 1).drop_last() =~= ls.take(k as int));
        in_code = render_line(&mut output, in_code, piece.as_slice(), n);
        k += 1;
    }
    assert(ls.take(pieces@.len() as int) =~= ls);
    if in_code {
        output.append("</code></pre>");
    }
    if output.as_str().is_empty() {
        let mut empty = String::new();
        empty.append("&nbsp;");
        proof {
            reveal_strlit("&nbsp;");
        }
        return empty;
    }
    output
}

// ----------------------------------------------------------------------
// Laws of inline rendering
// ----------------------------------------------------------------------

/// `s` holds no backtick and no two `*` in a row.
pub open spec fn plain_code_text(s: Seq<char>) -> bool {
    &&& forall|k: int| 0 <= k < s.len() ==> #[trigger] s[k] != '`'
    &&& forall|k: int| 0 <= k < s.len() - 1 ==> !(#[trigger] s[k] == '*' && s[k + 1] == '*')
}

proof fn lemma_code_span_run(cs: Seq<char>, idx: int, j: int, bold: bool, italic: bool)
    requires
        0 <= idx <= j < cs.len(),
        cs[j] == '`',
        forall|k: int| idx <= k < j ==> #[trigger] cs[k] != '`',
        forall|k: int| idx <= k < j ==> !(#[trigger] cs[k] == '*' && cs[k + 1] == '*'),
    ensures
        inline_html(cs, idx, bold, italic, true) == escape_html(cs.subrange(idx, j)) + inline_html(
            cs,
            j,
            bold,
            italic,
            true,
        ),
    decreases j - idx,
{
    if idx == j {
        assert(cs.subrange(idx, j) =~= Seq::<char>::empty());
        assert(escape_html(Seq::<char>::empty()) =~= Seq::<char>::empty());
        assert(escape_html(cs.subrange(idx, j)) + inline_html(cs, j, bold, italic, true)
            =~= inline_html(cs, j, bold, italic, true));
    } else {
        lemma_code_span_run(cs, idx + 1, j, bold, italic);
        assert(!(cs[idx] == '*' && cs[idx + 1] == '*'));
        assert(cs.subrange(idx, j) =~= seq![cs[idx]] + cs.subrange(idx + 1, j));
        lemma_escape_concat(seq![cs[idx]], cs.subrange(idx + 1, j));
        assert(inline_html(cs, idx, bold, italic, true) == escape_html(seq![cs[idx]])
            + inline_html(cs, idx + 1, bold, italic, true));
        assert(escape_html(seq![cs[idx]]) + (escape_html(cs.subrange(idx + 1, j)) + inline_html(
            cs,
            j,
            bold,
            italic,
            true,
        )) =~= escape_html(cs.subrange(idx, j)) + inline_html(cs, j, bold, italic, true));
    }
}

/// Inside an inline code span no markup is made: the text between the
/// backticks is only escaped, whatever `*`, `_` or `[` it holds (short of a
/// `**`, which still toggles bold).
pub proof fn lemma_code_span_is_verbatim(s: Seq<char>)
    requires
        plain_code_text(s),
    ensures
        line_html(seq!['`'] + s + seq!['`']) == "<code>"@ + escape_html(s) + "</code>"@,
{
    let cs = seq!['`'] + s + seq!['`'];
    let j: int = s.len() as int + 1;
    assert(cs[0] == '`');
    assert forall|k: int| 1 <= k < j implies #[trigger] cs[k] != '`' by {
        assert(cs[k] == s[k - 1]);
    }
    assert forall|k: int| 1 <= k < j implies !(#[trigger] cs[k] == '*' && cs[k + 1] == '*') by {
        assert(cs[k] == s[k - 1]);
        if k + 1 < j {
            assert(cs[k + 1] == s[k]);
        }
    }
    lemma_code_span_run(cs, 1, j, false, false);
    assert(cs.subrange(1, j) =~= s);
    assert(inline_html(cs, j + 1, false, false, false) == closing_tags(false, false, false));
    assert(closing_tags(false, false, false) =~= Seq::<char>::empty());
    assert(line_html(cs) =~= "<code>"@ + escape_html(s) + "</code>"@);
}

/// `c` plays a part in inline markup.
pub open spec fn is_inline_markup(c: char) -> bool {
    c == '*' || c == '_' || c == '`' || c == '['
}

proof fn lemma_plain_run(cs: Seq<char>, idx: int)
    requires
        0 <= idx <= cs.len(),
        forall|k: int| idx <= k < cs.len() ==> !is_inline_markup(#[trigger] cs[k]),
    ensures
        inline_html(cs, idx, false, false, false) == escape_html(cs.subrange(idx, cs.len() as int)),
    decreases cs.len() - idx,
{
    if idx == cs.len() {
        assert(cs.subrange(idx, cs.len() as int) =~= Seq::<char>::empty());
        assert(closing_tags(false, false, false) =~= Seq::<char>::empty());
        assert(escape_html(Seq::<char>::empty()) =~= Seq::<char>::empty());
    } else {
        lemma_plain_run(cs, idx + 1);
        assert(!is_inline_markup(cs[idx]));
        assert(cs.subrange(idx, cs.len() as int) =~= seq![cs[idx]] + cs.subrange(
            idx + 1,
            cs.len() as int,
        ));
        lemma_escape_concat(seq![cs[idx]], cs.subrange(idx + 1, cs.len() as int));
    }
}

/// A line without `*`, `_`, backticks or `[` is only escaped.
pub proof fn lemma_plain_line(line: Seq<char>)
    requires
        forall|k: int| 0 <= k < line.len() ==> !is_inline_markup(#[trigger] line[k]),
    ensures
        line_html(line) == escape_html(line),
{
    lemma_plain_run(line, 0);
    assert(line.subrange(0, line.len() as int) =~= line);
}

/// The lines of a code block as they appear in it: each escaped and ended
/// by a newline, empty ones included.
pub open spec fn escaped_block(bs: Seq<Seq<char>>) -> Seq<char> {
    bs.map_values(|l: Seq<char>| escape_html(l) + seq!['\n']).flatten()
}

/// A fenced code block shows each of its lines, empty ones included, as
/// its escaped text and one newline, after the opening tags and a newline.
pub proof fn lemma_code_block_lines(ls0: Seq<Seq<char>>, fence: Seq<char>, bs: Seq<Seq<char>>)
    requires
        !render_lines(ls0).1,
        is_fence(fence),
        forall|k: int| 0 <= k < bs.len() ==> !is_fence(#[trigger] bs[k]),
    ensures
        render_lines(ls0.push(fence) + bs) == (
            render_lines(ls0).0 + code_block_open_tag(trim(fence.skip(3))) + seq!['\n']
                + escaped_block(bs),
            true,
        ),
    decreases bs.len(),
{
    broadcast use Seq::lemma_flatten_push;

    let head = render_lines(ls0).0 + code_block_open_tag(trim(fence.skip(3))) + seq!['\n'];
    if bs.len() == 0 {
        assert(ls0.push(fence) + bs =~= ls0.push(fence));
        assert(ls0.push(fence).drop_last() =~= ls0);
        assert(escaped_block(bs) =~= Seq::<char>::empty());
        assert(render_lines(ls0.push(fence)).0 =~= head + escaped_block(bs));
    } else {
        let prev = bs.drop_last();
        let l = bs.last();
        assert forall|k: int| 0 <= k < prev.len() implies !is_fence(#[trigger] prev[k]) by {
            assert(prev[k] == bs[k]);
        }
        lemma_code_block_lines(ls0, fence, prev);
        assert((ls0.push(fence) + bs).drop_last() =~= ls0.push(fence) + prev);
        assert((ls0.push(fence) + bs).last() == l);
        assert(!is_fence(bs[bs.len() - 1]));
        let f = |x: Seq<char>| escape_html(x) + seq!['\n'];
        assert(bs.map_values(f) =~= prev.map_values(f).push(f(l)));
        assert(escaped_block(bs) == escaped_block(prev) + f(l));
        assert((head + escaped_block(prev) + escape_html(l)).push('\n') =~= head + (escaped_block(
            prev,
        ) + f(l)));
    }
}

// ----------------------------------------------------------------------
// What rendered HTML is made of
// ----------------------------------------------------------------------

/// Putting the tag numbered `k` in front of `rest`.
proof fn lemma_tag_then(k: int, rest: Seq<char>)
    requires
        0 <= k < tag_count(),
        tags_ok(rest),
    ensures
        tags_ok(tag(k) + rest),
        forall|m: int|
            0 <= m < tag_count() ==> #[trigger] count(tag(k) + rest, tag(m)) == count(rest, tag(m))
                + if m == k {
                1nat
            } else {
                0nat
            },
{
    lemma_single_tag(k);
    lemma_cat(tag(k), rest);
}

/// Putting text without `<` in front of `rest`.
proof fn lemma_plain_then(e: Seq<char>, rest: Seq<char>)
    requires
        no_lt(e),
        tags_ok(rest),
    ensures
        tags_ok(e + rest),
        forall|m: int|
            0 <= m < tag_count() ==> #[trigger] count(e + rest, tag(m)) == count(rest, tag(m)),
{
    lemma_plain(e);
    lemma_cat(e, rest);
}

/// Appending text without `<` to `out`.
proof fn lemma_then_plain(out: Seq<char>, e: Seq<char>)
    requires
        tags_ok(out),
        no_lt(e),
    ensures
        tags_ok(out + e),
        forall|m: int|
            0 <= m < tag_count() ==> #[trigger] count(out + e, tag(m)) == count(out, tag(m)),
{
    lemma_plain(e);
    lemma_cat(out, e);
}

/// A rendered link holds one opening and one closing link tag, and every
/// `<` in it begins one of them.
proof fn lemma_link_tags(s: Seq<char>)
    requires
        link_html(s) is Some,
    ensures
        tags_ok(link_html(s).unwrap().0),
        forall|m: int|
            0 <= m < tag_count() ==> #[trigger] count(link_html(s).unwrap().0, tag(m)) == if m
                == 9 || m == 10 {
                1nat
            } else {
                0nat
            },
{
    let cl = first_index(s, ']').unwrap();
    let ue = first_index(s.skip(cl + 2), ')').unwrap();
    let url = escape_html(s.subrange(cl + 2, cl + 2 + ue));
    let label = escape_html(s.subrange(1, cl));
    reveal_strlit("\">");
    let mid: Seq<char> = "\">"@;
    assert(no_lt(mid));
    lemma_escaped_plain(s.subrange(cl + 2, cl + 2 + ue));
    lemma_escaped_plain(s.subrange(1, cl));
    lemma_single_tag(9);
    lemma_single_tag(10);
    lemma_plain(mid);
    lemma_cat(tag(9), url);
    lemma_cat(tag(9) + url, mid);
    lemma_cat(tag(9) + url + mid, label);
    lemma_cat(tag(9) + url + mid + label, tag(10));
}

/// The tags of inline HTML rendered from a given markup state: every `<`
/// begins a tag; each closing tag of bold, italics and code follows its
/// opening one except the one that closes markup open at the start; links
/// come in pairs of tags; no code block, language or `<pre>` tag appears.
pub open spec fn inline_tags_balanced(out: Seq<char>, bold: bool, italic: bool, code: bool) -> bool {
    &&& tags_ok(out)
    &&& count(out, tag(1)) == count(out, tag(0)) + if bold {
        1nat
    } else {
        0nat
    }
    &&& count(out, tag(3)) == count(out, tag(2)) + if italic {
        1nat
    } else {
        0nat
    }
    &&& count(out, tag(5)) == count(out, tag(4)) + if code {
        1nat
    } else {
        0nat
    }
    &&& count(out, tag(6)) == 0
    &&& count(out, tag(7)) == 0
    &&& count(out, tag(8)) == 0
    &&& count(out, tag(9)) == count(out, tag(10))
}

proof fn lemma_inline_tags(cs: Seq<char>, idx: int, bold: bool, italic: bool, code: bool)
    ensures
        inline_tags_balanced(inline_html(cs, idx, bold, italic, code), bold, italic, code),
    decreases cs.len() - idx,
{
    if idx < 0 || idx >= cs.len() {
        let c: Seq<char> = if code {
            "</code>"@
        } else {
            Seq::empty()
        };
        let i: Seq<char> = if italic {
            "</i>"@
        } else {
            Seq::empty()
        };
        let b: Seq<char> = if bold {
            "</b>"@
        } else {
            Seq::empty()
        };
        assert(no_lt(Seq::<char>::empty()));
        lemma_plain(Seq::<char>::empty());
        lemma_single_tag(5);
        lemma_single_tag(3);
        lemma_single_tag(1);
        lemma_cat(c, i);
        lemma_cat(c + i, b);
    } else if idx + 1 < cs.len() && cs[idx] == '*' && cs[idx + 1] == '*' {
        lemma_inline_tags(cs, idx + 2, !bold, italic, code);
        lemma_tag_then(if bold {
            1
        } else {
            0
        }, inline_html(cs, idx + 2, !bold, italic, code));
    } else if cs[idx] == '`' {
        lemma_inline_tags(cs, idx + 1, bold, italic, !code);
        lemma_tag_then(if code {
            5
        } else {
            4
        }, inline_html(cs, idx + 1, bold, italic, !code));
    } else if !code && (cs[idx] == '*' || cs[idx] == '_') {
        lemma_inline_tags(cs, idx + 1, bold, !italic, code);
        lemma_tag_then(if italic {
            3
        } else {
            2
        }, inline_html(cs, idx + 1, bold, !italic, code));
    } else if !code && cs[idx] == '[' && link_html(cs.skip(idx)) is Some {
        let n = link_html(cs.skip(idx)).unwrap().1;
        lemma_inline_tags(cs, idx + n, bold, italic, code);
        lemma_link_tags(cs.skip(idx));
        lemma_cat(link_html(cs.skip(idx)).unwrap().0, inline_html(cs, idx + n, bold, italic, code));
    } else {
        lemma_inline_tags(cs, idx + 1, bold, italic, code);
        lemma_escaped_plain(seq![cs[idx]]);
        lemma_plain_then(escape_html(seq![cs[idx]]), inline_html(cs, idx + 1, bold, italic, code));
    }
}

/// In a rendered line of ordinary text every `<` begins one of the
/// renderer's tags, and bold, italic and code tags each open as often as
/// they close.
pub proof fn lemma_line_tags_balanced(line: Seq<char>)
    ensures
        tags_ok(line_html(line)),
        count(line_html(line), "<b>"@) == count(line_html(line), "</b>"@),
        count(line_html(line), "<i>"@) == count(line_html(line), "</i>"@),
        count(line_html(line), "<code>"@) == count(line_html(line), "</code>"@),
        count(line_html(line), "<a href=\""@) == count(line_html(line), "</a>"@),
{
    lemma_inline_tags(line, 0, false, false, false);
}

/// The number of fence lines among `ls`.
pub open spec fn fence_lines(ls: Seq<Seq<char>>) -> nat
    decreases ls.len(),
{
    if ls.len() == 0 {
        0
    } else {
        fence_lines(ls.drop_last()) + if is_fence(ls.last()) {
            1nat
        } else {
            0nat
        }
    }
}

proof fn lemma_push_newline(out: Seq<char>)
    requires
        tags_ok(out),
    ensures
        tags_ok(out.push('\n')),
        forall|m: int|
            0 <= m < tag_count() ==> #[trigger] count(out.push('\n'), tag(m)) == count(out, tag(m)),
{
    assert(out.push('\n') =~= out + seq!['\n']);
    assert(no_lt(seq!['\n']));
    lemma_then_plain(out, seq!['\n']);
}

proof fn lemma_block_tags()
    ensures
        "</code></pre>"@ == tag(5) + tag(8),
        "<pre><code>"@ == tag(7) + tag(4),
        "<pre><code class=\"language-"@ == tag(7) + tag(6),
{
    reveal_strlit("</code></pre>");
    reveal_strlit("</code>");
    reveal_strlit("</pre>");
    reveal_strlit("<pre><code>");
    reveal_strlit("<pre>");
    reveal_strlit("<code>");
    reveal_strlit("<pre><code class=\"language-");
    reveal_strlit("<code class=\"language-");
    assert("</code></pre>"@ =~= tag(5) + tag(8));
    assert("<pre><code>"@ =~= tag(7) + tag(4));
    assert("<pre><code class=\"language-"@ =~= tag(7) + tag(6));
}

/// The output after the lines `ls`: every `<` begins a tag; `<pre>` opens
/// as often as `</pre>` closes, but for a code block still open; a code
/// block is open after an odd number of fence lines.
proof fn lemma_render_lines_tags(ls: Seq<Seq<char>>)
    ensures
        tags_ok(render_lines(ls).0),
        count(render_lines(ls).0, tag(7)) == count(render_lines(ls).0, tag(8)) + if render_lines(
            ls,
        ).1 {
            1nat
        } else {
            0nat
        },
        render_lines(ls).1 == (fence_lines(ls) % 2 == 1),
    decreases ls.len(),
{
    if ls.len() > 0 {
        lemma_render_lines_tags(ls.drop_last());
        let out = render_lines(ls.drop_last()).0;
        let in_code = render_lines(ls.drop_last()).1;
        let line = ls.last();
        lemma_block_tags();
        if is_fence(line) {
            if in_code {
                lemma_single_tag(5);
                lemma_single_tag(8);
                lemma_cat(tag(5), tag(8));
                lemma_cat(out, tag(5) + tag(8));
                lemma_push_newline(out + "</code></pre>"@);
            } else {
                let lang = trim(line.skip(3));
                lemma_single_tag(7);
                if lang.len() == 0 {
                    lemma_single_tag(4);
                    lemma_cat(tag(7), tag(4));
                    lemma_cat(out, tag(7) + tag(4));
                } else {
                    reveal_strlit("\">");
                    let close: Seq<char> = "\">"@;
                    assert(no_lt(close));
                    lemma_plain(close);
                    lemma_single_tag(6);
                    lemma_escaped_plain(lang);
                    lemma_cat(tag(7), tag(6));
                    lemma_cat(tag(7) + tag(6), escape_html(lang));
                    lemma_cat(tag(7) + tag(6) + escape_html(lang), close);
                    lemma_cat(out, tag(7) + tag(6) + escape_html(lang) + close);
                    assert(out + (tag(7) + tag(6) + escape_html(lang) + close) =~= out
                        + code_block_open_tag(lang));
                }
                lemma_push_newline(out + code_block_open_tag(lang));
            }
        } else if in_code {
            lemma_escaped_plain(line);
            lemma_then_plain(out, escape_html(line));
            lemma_push_newline(out + escape_html(line));
        } else {
            let head = if out.len() > 0 {
                out.push('\n')
            } else {
                out
            };
            lemma_push_newline(out);
            lemma_inline_tags(line, 0, false, false, false);
            lemma_cat(head, line_html(line));
        }
    }
}

/// In a rendered message every `<` begins one of the renderer's tags (all
/// text taken from the input is escaped), `<pre>` opens as often as
/// `</pre>` closes, and after an odd number of fence lines the message ends
/// by closing the code block left open.
pub proof fn lemma_markdown_tags(input: Seq<char>)
    ensures
        tags_ok(markdown_html(input)),
        count(markdown_html(input), "<pre>"@) == count(markdown_html(input), "</pre>"@),
        fence_lines(lines(input)) % 2 == 1 ==> markdown_html(input) == render_lines(lines(input)).0
            + "</code></pre>"@,
        fence_lines(lines(input)) % 2 == 1 ==> {
            &&& markdown_html(input).len() >= "</code></pre>"@.len()
            &&& markdown_html(input).subrange(
                markdown_html(input).len() - "</code></pre>"@.len(),
                markdown_html(input).len() as int,
            ) == "</code></pre>"@
        },
{
    let ls = lines(input);
    lemma_render_lines_tags(ls);
    let out = render_lines(ls).0;
    lemma_block_tags();
    reveal_strlit("&nbsp;");
    reveal_strlit("</code></pre>");
    let closed = if render_lines(ls).1 {
        out + "</code></pre>"@
    } else {
        out
    };
    lemma_single_tag(5);
    lemma_single_tag(8);
    lemma_cat(tag(5), tag(8));
    lemma_cat(out, tag(5) + tag(8));
    if closed.len() == 0 {
        let nbsp: Seq<char> = "&nbsp;"@;
        assert(no_lt(nbsp));
        lemma_plain(nbsp);
    }
    if render_lines(ls).1 {
        assert(closed.subrange(closed.len() - "</code></pre>"@.len(), closed.len() as int)
            =~= "</code></pre>"@);
    }
}

// ----------------------------------------------------------------------
// Splitting long messages
// ----------------------------------------------------------------------

/// A line too long for one message cut into pieces of `max` characters: the
/// full pieces, and the rest that is still being filled.
pub open spec fn chop_line(line: Seq<char>, max: nat) -> (Seq<Seq<char>>, Seq<char>)
    decreases line.len(),
{
    if line.len() == 0 {
        (Seq::empty(), Seq::empty())
    } else {
        let prev = chop_line(line.drop_last(), max);
        if prev.1.len() >= max {
            (prev.0.push(prev.1), seq![line.last()])
        } else {
            (prev.0, prev.1.push(line.last()))
        }
    }
}

/// The finished chunks and the chunk being filled, after one more line: the
/// line joins the current chunk if both fit, else the current chunk is
/// finished and the line starts the next one, cut up if it is too long.
pub open spec fn split_step(state: (Seq<Seq<char>>, Seq<char>), line: Seq<char>, max: nat) -> (
    Seq<Seq<char>>,
    Seq<char>,
) {
    let chunks = state.0;
    let current = state.1;
    if current.len() + line.len() <= max {
        (chunks, current + line)
    } else {
        let flushed = if current.len() > 0 {
            chunks.push(current)
        } else {
            chunks
        };
        if line.len() <= max {
            (flushed, line)
        } else {
            let parts = chop_line(line, max);
            (flushed + parts.0, parts.1)
        }
    }
}

/// The state after the lines `pieces` (each with its newline).
pub open spec fn split_pieces(pieces: Seq<Seq<char>>, max: nat) -> (Seq<Seq<char>>, Seq<char>)
    decreases pieces.len(),
{
    if pieces.len() == 0 {
        (Seq::empty(), Seq::empty())
    } else {
        split_step(split_pieces(pieces.drop_last(), max), pieces.last(), max)
    }
}

/// The messages that `input` is split into for a limit of `max` characters:
/// the input itself when it fits, else whole lines packed together as far as
/// they fit, lines longer than the limit cut into pieces.
pub open spec fn split_text_chunks(input: Seq<char>, max: nat) -> Seq<Seq<char>> {
    if input.len() <= max {
        seq![input]
    } else {
        let st = split_pieces(split_inclusive_newline(input), max);
        if st.1.len() > 0 {
            st.0.push(st.1)
        } else {
            st.0
        }
    }
}

/// Every chunk has between 1 and `max` characters.
pub open spec fn chunks_within(chunks: Seq<Seq<char>>, max: nat) -> bool {
    forall|i: int| 0 <= i < chunks.len() ==> 1 <= #[trigger] chunks[i].len() <= max
}

proof fn lemma_newline_pieces_state(s: Seq<char>)
    ensures
        newline_pieces_state(s).0.flatten() + newline_pieces_state(s).1 == s,
        forall|i: int|
            0 <= i < newline_pieces_state(s).0.len() ==> #[trigger] newline_pieces_state(
                s,
            ).0[i].len() > 0,
    decreases s.len(),
{
    broadcast use Seq::lemma_flatten_push;

    if s.len() == 0 {
        assert(newline_pieces_state(s).0.flatten() + newline_pieces_state(s).1 =~= s);
    } else {
        lemma_newline_pieces_state(s.drop_last());
        let prev = newline_pieces_state(s.drop_last());
        assert(prev.0.flatten() + prev.1 == s.drop_last());
        assert(s =~= s.drop_last().push(s.last()));
        if s.last() == '\n' {
            assert(prev.0.push(prev.1.push('\n')).flatten() =~= prev.0.flatten() + prev.1.push('\n'));
            assert(prev.0.flatten() + prev.1.push('\n') =~= (prev.0.flatten() + prev.1).push('\n'));
        } else {
            assert(prev.0.flatten() + prev.1.push(s.last()) =~= (prev.0.flatten() + prev.1).push(s.last()));
        }
        assert(newline_pieces_state(s).0.flatten() + newline_pieces_state(s).1 =~= s);
    }
}

proof fn lemma_split_inclusive_newline(s: Seq<char>)
    ensures
        split_inclusive_newline(s).flatten() == s,
        forall|i: int|
            0 <= i < split_inclusive_newline(s).len() ==> #[trigger] split_inclusive_newline(
                s,
            )[i].len() > 0,
{
    broadcast use Seq::lemma_flatten_push;

    lemma_newline_pieces_state(s);
    let st = newline_pieces_state(s);
    if st.1.len() == 0 {
        assert(st.0.flatten() + st.1 =~= st.0.flatten());
    }
}

proof fn lemma_chop_line(line: Seq<char>, max: nat)
    ensures
        chop_line(line, max).0.flatten() + chop_line(line, max).1 == line,
        line.len() > 0 ==> chop_line(line, max).1.len() >= 1,
        max >= 1 ==> chop_line(line, max).1.len() <= max,
        max >= 1 ==> forall|i: int|
            0 <= i < chop_line(line, max).0.len() ==> #[trigger] chop_line(line, max).0[i].len()
                == max,
    decreases line.len(),
{
    broadcast use Seq::lemma_flatten_push;

    if line.len() == 0 {
        assert(chop_line(line, max).0.flatten() + chop_line(line, max).1 =~= line);
    } else {
        lemma_chop_line(line.drop_last(), max);
        let prev = chop_line(line.drop_last(), max);
        assert(line =~= line.drop_last().push(line.last()));
        if prev.1.len() >= max {
            assert(prev.0.push(prev.1).flatten() + seq![line.last()] =~= prev.0.flatten() + prev.1
                + seq![line.last()]);
            assert(prev.0.flatten() + prev.1 + seq![line.last()] =~= (prev.0.flatten() + prev.1).push(line.last()));
        } else {
            assert(prev.0.flatten() + prev.1.push(line.last()) =~= (prev.0.flatten() + prev.1).push(line.last()));
        }
        assert(chop_line(line, max).0.flatten() + chop_line(line, max).1 =~= line);
    }
}

proof fn lemma_split_pieces(pieces: Seq<Seq<char>>, max: nat)
    requires
        forall|i: int| 0 <= i < pieces.len() ==> #[trigger] pieces[i].len() > 0,
    ensures
        split_pieces(pieces, max).0.flatten() + split_pieces(pieces, max).1 == pieces.flatten(),
        max >= 1 ==> chunks_within(split_pieces(pieces, max).0, max),
        max >= 1 ==> split_pieces(pieces, max).1.len() <= max,
    decreases pieces.len(),
{
    broadcast use Seq::lemma_flatten_push;

    if pieces.len() == 0 {
        assert(split_pieces(pieces, max).0.flatten() + split_pieces(pieces, max).1
            =~= pieces.flatten());
    } else {
        let rest = pieces.drop_last();
        let line = pieces.last();
        assert(pieces =~= rest.push(line));
        assert(forall|i: int| 0 <= i < rest.len() ==> #[trigger] rest[i] == pieces[i]);
        lemma_split_pieces(rest, max);
        let prev = split_pieces(rest, max);
        assert(prev.0.flatten() + prev.1 == rest.flatten());
        assert(pieces.flatten() == rest.flatten() + line);
        if prev.1.len() + line.len() <= max {
            assert(prev.0.flatten() + (prev.1 + line) =~= prev.0.flatten() + prev.1 + line);
        } else {
            let flushed = if prev.1.len() > 0 {
                prev.0.push(prev.1)
            } else {
                prev.0
            };
            assert(flushed.flatten() =~= prev.0.flatten() + prev.1);
            if line.len() <= max {
            } else {
                lemma_chop_line(line, max);
                let parts = chop_line(line, max);
                vstd::seq_lib::lemma_flatten_concat(flushed, parts.0);
                assert((flushed + parts.0).flatten() + parts.1 =~= flushed.flatten() + (
                parts.0.flatten() + parts.1));
                if max >= 1 {
                    assert forall|i: int| 0 <= i < (flushed + parts.0).len() implies 1 <= #[trigger] (
                    flushed + parts.0)[i].len() <= max by {
                        if i < flushed.len() {
                            assert((flushed + parts.0)[i] == flushed[i]);
                        } else {
                            assert((flushed + parts.0)[i] == parts.0[i - flushed.len()]);
                        }
                    }
                }
            }
        }
    }
}

/// What `split_text_chunks` keeps: joined again, the chunks give back the
/// input; with a limit of at least one character, no chunk exceeds it and
/// no chunk of a non-empty input is empty.
pub proof fn lemma_split_text_chunks(input: Seq<char>, max: nat)
    ensures
        split_text_chunks(input, max).flatten() == input,
        max >= 1 ==> forall|i: int|
            0 <= i < split_text_chunks(input, max).len() ==> #[trigger] split_text_chunks(
                input,
                max,
            )[i].len() <= max,
        max >= 1 && input.len() > 0 ==> chunks_within(split_text_chunks(input, max), max),
{
    broadcast use Seq::lemma_flatten_push;
    broadcast use Seq::lemma_flatten_singleton;

    if input.len() <= max {
        assert(seq![input].len() == 1);
    } else {
        let pieces = split_inclusive_newline(input);
        lemma_split_inclusive_newline(input);
        lemma_split_pieces(pieces, max);
        let st = split_pieces(pieces, max);
        if st.1.len() == 0 {
            assert(st.0.flatten() + st.1 =~= st.0.flatten());
        }
    }
}

/// Where part `k` of `parts` starts once the parts are joined.
pub open spec fn offset(parts: Seq<Seq<char>>, k: int) -> int {
    parts.take(k).flatten().len() as int
}

/// Cutting the text that `pieces` (its lines) join into at `b` splits no
/// line of at most `max` characters.
pub open spec fn keeps_short_lines(pieces: Seq<Seq<char>>, b: int, max: nat) -> bool {
    forall|k: int|
        0 <= k < pieces.len() && #[trigger] pieces[k].len() <= max ==> !(offset(pieces, k) < b
            < offset(pieces, k + 1))
}

proof fn lemma_offset_step(parts: Seq<Seq<char>>, k: int)
    requires
        0 <= k < parts.len(),
    ensures
        offset(parts, k + 1) == offset(parts, k) + parts[k].len(),
{
    broadcast use Seq::lemma_flatten_push;

    assert(parts.take(k + 1) =~= parts.take(k).push(parts[k]));
}

proof fn lemma_offset_mono(parts: Seq<Seq<char>>, k1: int, k2: int)
    requires
        0 <= k1 <= k2 <= parts.len(),
    ensures
        offset(parts, k1) <= offset(parts, k2),
    decreases k2 - k1,
{
    if k1 < k2 {
        lemma_offset_mono(parts, k1, k2 - 1);
        lemma_offset_step(parts, k2 - 1);
    }
}

proof fn lemma_offset_end(parts: Seq<Seq<char>>)
    ensures
        offset(parts, parts.len() as int) == parts.flatten().len(),
{
    assert(parts.take(parts.len() as int) =~= parts);
}

/// A cut at the start of a line, or anywhere up to the end of a line too
/// long for one message, keeps every short line whole.
proof fn lemma_cut_is_kept(pieces: Seq<Seq<char>>, n: int, b: int, max: nat)
    requires
        0 <= n <= pieces.len(),
        b == offset(pieces, n) || (n < pieces.len() && pieces[n].len() > max && offset(pieces, n)
            <= b < offset(pieces, n + 1)),
    ensures
        keeps_short_lines(pieces, b, max),
{
    assert forall|k: int|
        0 <= k < pieces.len() && #[trigger] pieces[k].len() <= max implies !(offset(pieces, k) < b
        < offset(pieces, k + 1)) by {
        if k < n {
            lemma_offset_mono(pieces, k + 1, n);
        } else if k > n {
            lemma_offset_mono(pieces, n + 1, k);
            lemma_offset_mono(pieces, n, n + 1);
        }
    }
}

proof fn lemma_offset_push(a: Seq<Seq<char>>, x: Seq<char>, j: int)
    requires
        0 <= j <= a.len() + 1,
    ensures
        j <= a.len() ==> offset(a.push(x), j) == offset(a, j),
        j == a.len() + 1 ==> offset(a.push(x), j) == a.flatten().len() + x.len(),
{
    broadcast use Seq::lemma_flatten_push;

    if j <= a.len() {
        assert(a.push(x).take(j) =~= a.take(j));
    } else {
        assert(a.push(x).take(j) =~= a.push(x));
    }
}

proof fn lemma_offset_append(a: Seq<Seq<char>>, p: Seq<Seq<char>>, j: int)
    requires
        0 <= j <= a.len() + p.len(),
    ensures
        j <= a.len() ==> offset(a + p, j) == offset(a, j),
        j > a.len() ==> offset(a + p, j) == a.flatten().len() + offset(p, j - a.len()),
{
    if j <= a.len() {
        assert((a + p).take(j) =~= a.take(j));
    } else {
        assert((a + p).take(j) =~= a + p.take(j - a.len()));
        vstd::seq_lib::lemma_flatten_concat(a, p.take(j - a.len()));
    }
}

/// After the first `n` lines, the finished chunks end only at cuts that keep
/// every short line whole.
proof fn lemma_split_cuts(pieces: Seq<Seq<char>>, n: int, max: nat)
    requires
        0 <= n <= pieces.len(),
        forall|i: int| 0 <= i < pieces.len() ==> #[trigger] pieces[i].len() > 0,
    ensures
        split_pieces(pieces.take(n), max).0.flatten().len() + split_pieces(pieces.take(n), max).1.len()
            == offset(pieces, n),
        forall|j: int|
            1 <= j <= split_pieces(pieces.take(n), max).0.len() ==> keeps_short_lines(
                pieces,
                #[trigger] offset(split_pieces(pieces.take(n), max).0, j),
                max,
            ),
    decreases n,
{
    let taken = pieces.take(n);
    assert forall|i: int| 0 <= i < taken.len() implies #[trigger] taken[i].len() > 0 by {
        assert(taken[i] == pieces[i]);
    }
    lemma_split_pieces(taken, max);
    if n > 0 {
        lemma_split_cuts(pieces, n - 1, max);
        assert(taken.drop_last() =~= pieces.take(n - 1));
        assert(taken.last() == pieces[n - 1]);
        lemma_offset_step(pieces, n - 1);
        let st = split_pieces(pieces.take(n - 1), max);
        let line = pieces[n - 1];
        let after = split_pieces(taken, max);
        assert(after == split_step(st, line, max));
        if st.1.len() + line.len() > max {
            let flushed = if st.1.len() > 0 {
                st.0.push(st.1)
            } else {
                st.0
            };
            assert(st.0.push(st.1).flatten() =~= st.0.flatten() + st.1) by {
                st.0.lemma_flatten_push(st.1);
            }
            assert(flushed.flatten().len() == offset(pieces, n - 1));
            assert forall|j: int| 1 <= j <= flushed.len() implies keeps_short_lines(
                pieces,
                #[trigger] offset(flushed, j),
                max,
            ) by {
                if st.1.len() > 0 {
                    lemma_offset_push(st.0, st.1, j);
                    if j == st.0.len() + 1 {
                        lemma_cut_is_kept(pieces, n - 1, offset(flushed, j), max);
                    }
                }
            }
            if line.len() > max {
                let parts = chop_line(line, max);
                lemma_chop_line(line, max);
                assert(after.0 == flushed + parts.0);
                assert forall|j: int| 1 <= j <= after.0.len() implies keeps_short_lines(
                    pieces,
                    #[trigger] offset(after.0, j),
                    max,
                ) by {
                    lemma_offset_append(flushed, parts.0, j);
                    if j > flushed.len() {
                        let i = j - flushed.len();
                        lemma_offset_mono(parts.0, i, parts.0.len() as int);
                        lemma_offset_end(parts.0);
                        lemma_offset_mono(parts.0, 0, i);
                        assert(offset(parts.0, 0) == 0) by {
                            assert(parts.0.take(0) =~= Seq::<Seq<char>>::empty());
                        }
                        lemma_cut_is_kept(pieces, n - 1, offset(after.0, j), max);
                    }
                }
            }
        }
    } else {
        assert(taken =~= Seq::<Seq<char>>::empty());
        assert(offset(pieces, 0) == 0) by {
            assert(pieces.take(0) =~= Seq::<Seq<char>>::empty());
        }
    }
}

/// A message split into chunks is cut only between lines or inside a line
/// longer than the limit: every line of at most `max` characters lies
/// wholly within one chunk.
pub proof fn lemma_split_keeps_short_lines(input: Seq<char>, max: nat)
    ensures
        forall|j: int|
            0 < j < split_text_chunks(input, max).len() ==> keeps_short_lines(
                split_inclusive_newline(input),
                #[trigger] offset(split_text_chunks(input, max), j),
                max,
            ),
{
    if input.len() > max {
        let ps = split_inclusive_newline(input);
        lemma_split_inclusive_newline(input);
        lemma_split_cuts(ps, ps.len() as int, max);
        assert(ps.take(ps.len() as int) =~= ps);
        let st = split_pieces(ps, max);
        let chunks = split_text_chunks(input, max);
        assert forall|j: int| 0 < j < chunks.len() implies keeps_short_lines(
            ps,
            #[trigger] offset(chunks, j),
            max,
        ) by {
            if st.1.len() > 0 {
                lemma_offset_push(st.0, st.1, j);
            }
            assert(offset(chunks, j) == offset(st.0, j));
        }
    }
}

/// Appends to `chunks` the full pieces of `line` cut at `max` characters and
/// gives the rest (see `chop_line`).
fn chop_long_line(chunks: &mut Vec<String>, line: &[char], max: usize) -> (r: String)
    ensures
        final(chunks).deep_view() == old(chunks).deep_view() + chop_line(line@, max as nat).0,
        r@ == chop_line(line@, max as nat).1,
{
    let mut partial = String::new();
    let mut partial_len: usize = 0;
    let mut j: usize = 0;
    while j < line.len()
        invariant
            j <= line@.len(),
            partial_len == partial@.len(),
            partial_len <= j,
            chunks.deep_view() == old(chunks).deep_view() + chop_line(line@.take(j as int), max as nat).0,
            partial@ == chop_line(line@.take(j as int), max as nat).1,
        decreases line.len() - j,
    {
        assert(line@.take(j + 1).drop_last() =~= line@.take(j as int));
        if partial_len >= max {
            let ghost before = chunks.deep_view();
            let ghost full = partial@;
            chunks.push(partial);
            assert(chunks.deep_view() =~= before.push(full));
            assert(before.push(full) =~= old(chunks).deep_view() + chop_line(line@.take(j as int), max as nat).0.push(full));
            partial = String::new();
            partial_len = 0;
        }
        push_char(&mut partial, line[j]);
        partial_len += 1;
        j += 1;
        assert(partial@ =~= chop_line(line@.take(j as int), max as nat).1);
    }
    assert(line@.take(line@.len() as int) =~= line@);
    partial
}

/// Splits a reply into messages of at most `max_chars` characters (see
/// `split_text_chunks`); the text is kept whole when it fits.
pub fn split_text(input: &str, max_chars: usize) -> (r: Vec<String>)
    ensures
        r.deep_view() == split_text_chunks(input@, max_chars as nat),
        r.deep_view().flatten() == input@,
        max_chars >= 1 ==> forall|i: int|
            0 <= i < r@.len() ==> #[trigger] r.deep_view()[i].len() <= max_chars,
        max_chars >= 1 && input@.len() > 0 ==> chunks_within(r.deep_view(), max_chars as nat),
        forall|j: int|
            0 < j < r@.len() ==> keeps_short_lines(
                split_inclusive_newline(input@),
                #[trigger] offset(r.deep_view(), j),
                max_chars as nat,
            ),
{
    proof {
        lemma_split_text_chunks(input@, max_chars as nat);
        lemma_split_keeps_short_lines(input@, max_chars as nat);
    }
    let chars = chars_of(input);
    if chars.len() <= max_chars {
        let whole = string_from_range(chars.as_slice(), 0, chars.len());
        assert(chars@.subrange(0, chars@.len() as int) =~= input@);
        let mut r: Vec<String> = Vec::new();
        r.push(whole);
        assert(r.deep_view() =~= seq![input@]);
        return r;
    }
    let pieces = newline_pieces(chars.as_slice());
    let ghost ps = split_inclusive_newline(input@);
    let ghost m = max_chars as nat;
    let mut chunks: Vec<String> = Vec::new();
    let mut current = String::new();
    let mut current_len: usize = 0;
    let mut k: usize = 0;
    while k < pieces.len()
        invariant
            k <= pieces@.len(),
            pieces.deep_view() == ps,
            ps == split_inclusive_newline(input@),
            m == max_chars as nat,
            current_len == current@.len(),
            (chunks.deep_view(), current@) == split_pieces(ps.take(k as int), m),
        decreases pieces.len() - k,
    {
        let line = &pieces[k];
        assert(line.deep_view() =~= line@);
        assert(pieces.deep_view()[k as int] == line.deep_view());
        assert(ps.take(k + 1).drop_last() =~= ps.take(k as int));
        let ghost st = split_pieces(ps.take(k as int), m);
        let line_len = line.len();
        if line_len <= max_chars && current_len <= max_chars - line_len {
            push_range(&mut current, line.as_slice(), 0, line_len);
            assert(line@.subrange(0, line_len as int) =~= line@);
            current_len += line_len;
            k += 1;
            continue;
        }
        if current_len > 0 {
            let ghost before = chunks.deep_view();
            chunks.push(current);
            assert(chunks.deep_view() =~= before.push(st.1));
            current = String::new();
            current_len = 0;
        }
        if line_len <= max_chars {
            push_range(&mut current, line.as_slice(), 0, line_len);
            assert(line@.subrange(0, line_len as int) =~= line@);
            assert(current@ =~= line@);
            current_len = line_len;
            k += 1;
            continue;
        }
        let rest = chop_long_line(&mut chunks, line.as_slice(), max_chars);
        current = rest;
        current_len = chars_of(current.as_str()).len();
        k += 1;
    }
    assert(ps.take(pieces@.len() as int) =~= ps);
    if current_len > 0 {
        let ghost before = chunks.deep_view();
        let ghost last = current@;
        chunks.push(current);
        assert(chunks.deep_view() =~= before.push(last));
    }
    chunks
}

} // verus!
