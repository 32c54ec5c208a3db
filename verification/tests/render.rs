use telecodex::render::{render_markdown_to_html, split_text};

#[test]
fn renders_code_blocks() {
    let rendered = render_markdown_to_html("hello\n```rs\nfn main() {}\n```");
    assert!(rendered.contains("<pre><code class=\"language-rs\">"));
}

#[test]
fn splits_large_text() {
    let parts = split_text(&"a".repeat(20), 7);
    assert_eq!(parts.len(), 3);
}

#[test]
fn renders_code_block_exactly() {
    let rendered = render_markdown_to_html("hello\n```rs\nfn main() {}\n```");
    assert_eq!(
        rendered,
        "hello<pre><code class=\"language-rs\">\nfn main() {}\n</code></pre>\n"
    );
}

#[test]
fn empty_input_renders_non_breaking_space() {
    assert_eq!(render_markdown_to_html(""), "&nbsp;");
    assert_eq!(render_markdown_to_html("\n"), "&nbsp;");
}

#[test]
fn plain_lines_are_joined_by_newlines() {
    assert_eq!(render_markdown_to_html("one\ntwo\r\nthree"), "one\ntwo\nthree");
}

#[test]
fn special_characters_are_escaped() {
    assert_eq!(
        render_markdown_to_html("a<b & \"c\" 'd' e/f >"),
        "a&lt;b &amp; &quot;c&quot; &#x27;d&#x27; e&#x2F;f &gt;"
    );
}

#[test]
fn bold_italic_and_code_markup() {
    assert_eq!(render_markdown_to_html("**bold** *it* _it_ `x*y`"), "<b>bold</b> <i>it</i> <i>it</i> <code>x*y</code>");
}

#[test]
fn open_markup_is_closed_at_line_end() {
    assert_eq!(render_markdown_to_html("**a *b `c"), "<b>a <i>b <code>c</code></i></b>");
}

#[test]
fn links_are_rendered_with_escaped_parts() {
    assert_eq!(
        render_markdown_to_html("see [docs](https://x.org/a?b=1&c=2) now"),
        "see <a href=\"https:&#x2F;&#x2F;x.org&#x2F;a?b=1&amp;c=2\">docs</a> now"
    );
}

#[test]
fn incomplete_links_stay_text() {
    assert_eq!(render_markdown_to_html("[a] (b)"), "[a] (b)");
    assert_eq!(render_markdown_to_html("[a](b"), "[a](b");
}

#[test]
fn code_block_without_language_and_unclosed() {
    assert_eq!(
        render_markdown_to_html("```\n<x> **y**"),
        "<pre><code>\n&lt;x&gt; **y**\n</code></pre>"
    );
}

#[test]
fn code_block_language_is_trimmed_and_escaped() {
    assert_eq!(
        render_markdown_to_html("```  c<b  \nx\n```"),
        "<pre><code class=\"language-c&lt;b\">\nx\n</code></pre>\n"
    );
}

#[test]
fn text_after_a_code_block_starts_right_after_it() {
    assert_eq!(
        render_markdown_to_html("```\ncode\n```\nafter"),
        "<pre><code>\ncode\n</code></pre>\n\nafter"
    );
}

#[test]
fn short_text_is_one_chunk() {
    assert_eq!(split_text("hello", 5), vec!["hello".to_string()]);
    assert_eq!(split_text("", 0), vec!["".to_string()]);
}

#[test]
fn lines_are_packed_into_chunks() {
    assert_eq!(
        split_text("aa\nbb\ncc\n", 6),
        vec!["aa\nbb\n".to_string(), "cc\n".to_string()]
    );
}

#[test]
fn long_lines_are_cut() {
    let parts = split_text(&"a".repeat(20), 7);
    assert_eq!(parts, vec!["a".repeat(7), "a".repeat(7), "a".repeat(6)]);
    assert_eq!(parts.concat(), "a".repeat(20));
}

#[test]
fn long_line_after_short_line() {
    assert_eq!(
        split_text("ab\ncdefgh", 3),
        vec!["ab\n".to_string(), "cde".to_string(), "fgh".to_string()]
    );
}

#[test]
fn chunks_rejoin_to_input_and_respect_limit() {
    let input = "first line\nsecond, somewhat longer line\n\nx\nyz";
    for max in 1..12 {
        let parts = split_text(input, max);
        assert_eq!(parts.concat(), input);
        for p in &parts {
            let n = p.chars().count();
            assert!(n >= 1 && n <= max);
        }
    }
}

#[test]
fn limit_counts_characters_not_bytes() {
    let parts = split_text("ééé", 2);
    assert_eq!(parts, vec!["éé".to_string(), "é".to_string()]);
}

#[test]
fn zero_limit_keeps_text() {
    assert_eq!(
        split_text("ab", 0),
        vec!["".to_string(), "a".to_string(), "b".to_string()]
    );
}

const TAGS: [&str; 11] = [
    "<b>", "</b>", "<i>", "</i>", "<code>", "</code>", "<code class=\"language-", "<pre>",
    "</pre>", "<a href=\"", "</a>",
];

fn every_lt_begins_a_tag(html: &str) -> bool {
    html.match_indices('<').all(|(i, _)| TAGS.iter().any(|t| html[i..].starts_with(t)))
}

#[test]
fn rendered_tags_are_the_renderers_own_and_balance() {
    let samples = [
        "**a** *b* `c` [d](e)",
        "<script>alert('x')</script>",
        "```py\n<b>not bold</b>\n```\n**x",
        "```\nopen block <i>",
        "[x](<y>) _z",
    ];
    for input in samples {
        let html = render_markdown_to_html(input);
        assert!(every_lt_begins_a_tag(&html), "{html}");
        assert_eq!(html.matches("<pre>").count(), html.matches("</pre>").count(), "{html}");
        let fences = input.lines().filter(|l| l.starts_with("```")).count();
        if fences % 2 == 1 {
            assert!(html.ends_with("</code></pre>"), "{html}");
        }
        for line in input.lines() {
            if !line.starts_with("```") && !input.contains("```") {
                let one = render_markdown_to_html(line);
                assert_eq!(one.matches("<b>").count(), one.matches("</b>").count());
                assert_eq!(one.matches("<i>").count(), one.matches("</i>").count());
                assert_eq!(one.matches("<code>").count(), one.matches("</code>").count());
            }
        }
    }
}
