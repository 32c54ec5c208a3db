//! HTML escaping of text placed inside elements and attribute values.
use vstd::prelude::*;

verus! {

/// The entity that stands for `c` in escaped HTML, or `c` itself.
pub open spec fn escape_char_spec(c: char) -> Seq<char> {
    if c == '&' {
        "&amp;"@
    } else if c == '<' {
        "&lt;"@
    } else if c == '>' {
        "&gt;"@
    } else if c == '"' {
        "&quot;"@
    } else if c == '\'' {
        "&#x27;"@
    } else if c == '/' {
        "&#x2F;"@
    } else {
        seq![c]
    }
}

/// `s` with each of `&`, `<`, `>`, `"`, `'` and `/` replaced by its entity.
pub open spec fn escape_html(s: Seq<char>) -> Seq<char>
    decreases s.len(),
{
    if s.len() == 0 {
        Seq::empty()
    } else {
        escape_html(s.drop_last()) + escape_char_spec(s.last())
    }
}

/// Escaping distributes over concatenation.
pub proof fn lemma_escape_concat(a: Seq<char>, b: Seq<char>)
    ensures
        escape_html(a + b) == escape_html(a) + escape_html(b),
    decreases b.len(),
{
    if b.len() == 0 {
        assert(a + b =~= a);
        assert(escape_html(a) + escape_html(b) =~= escape_html(a));
    } else {
        assert((a + b).drop_last() =~= a + b.drop_last());
        lemma_escape_concat(a, b.drop_last());
        assert(escape_html(a + b) =~= escape_html(a) + escape_html(b));
    }
}

/// Characters that would open or close markup or a quoted attribute.
pub open spec fn is_markup_char(c: char) -> bool {
    c == '<' || c == '>' || c == '"' || c == '\''
}

/// Escaped text holds none of `<`, `>`, `"` and `'`, so it can neither open
/// an element nor leave an attribute value.
pub proof fn lemma_escaped_text_has_no_markup(s: Seq<char>)
    ensures
        forall|i: int| 0 <= i < escape_html(s).len() ==> !is_markup_char(#[trigger] escape_html(s)[i]),
    decreases s.len(),
{
    reveal_strlit("&amp;");
    reveal_strlit("&lt;");
    reveal_strlit("&gt;");
    reveal_strlit("&quot;");
    reveal_strlit("&#x27;");
    reveal_strlit("&#x2F;");
    if s.len() > 0 {
        lemma_escaped_text_has_no_markup(s.drop_last());
        let prev = escape_html(s.drop_last());
        let tail = escape_char_spec(s.last());
        assert forall|i: int| 0 <= i < escape_html(s).len() implies !is_markup_char(
            #[trigger] escape_html(s)[i],
        ) by {
            if i < prev.len() {
                assert(escape_html(s)[i] == prev[i]);
            } else {
                assert(escape_html(s)[i] == tail[i - prev.len()]);
            }
        }
    }
}

/// `html_escape::encode_safe`, owned.
/// Claimed: the result is `text` with each of `&`, `<`, `>`, `"`, `'`, `/`
/// replaced by `&amp;`, `&lt;`, `&gt;`, `&quot;`, `&#x27;`, `&#x2F;` and every
/// other character kept; the crate rewrites those ASCII bytes one by one.
#[verifier::external_body]
pub(crate) fn encode_safe(text: &str) -> (r: String)
    ensures
        r@ == escape_html(text@),
{
    html_escape::encode_safe(text).into_owned()
}

} // verus!
