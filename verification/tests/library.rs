use h2md::{Attr, Error, HtmlNode, Options, convert, convert_document, convert_with};

fn run(input: &str, compressed: bool) -> (Result<(), Error>, String) {
    let mut out = Vec::new();
    let res = convert_with(input.as_bytes(), &mut out, &Options { compressed });
    (res, String::from_utf8(out).expect("output was not valid UTF-8"))
}

fn md(input: &str) -> String {
    let (res, out) = run(input, false);
    assert!(res.is_ok(), "conversion failed for {input:?}");
    out
}

fn mdc(input: &str) -> String {
    let (res, out) = run(input, true);
    assert!(res.is_ok(), "conversion failed for {input:?}");
    out
}

fn chars(s: &str) -> Vec<char> {
    s.chars().collect()
}

fn text(s: &str) -> HtmlNode {
    HtmlNode::Text { contents: chars(s) }
}

fn element(name: &str, attrs: &[(&str, &str)], children: Vec<HtmlNode>) -> HtmlNode {
    HtmlNode::Element {
        name: chars(name),
        attrs: attrs
            .iter()
            .map(|(n, v)| Attr { name: chars(n), value: chars(v) })
            .collect(),
        children,
    }
}

fn nested_divs(levels: usize) -> HtmlNode {
    let mut node = text("x");
    for _ in 0..levels {
        node = element("div", &[], vec![node]);
    }
    node
}

fn render(doc: &HtmlNode, compressed: bool) -> (Result<(), Error>, String) {
    let mut out = Vec::new();
    let res = convert_document(doc, &mut out, &Options { compressed });
    (res, String::from_utf8(out).expect("output was not valid UTF-8"))
}

const SAMPLES: [&str; 12] = [
    "",
    "plain",
    "<h1>T</h1>",
    "<p>a</p><p>b</p>",
    "<ul><li>x</li><li>y</li></ul>",
    "<ol><li>x</li></ol>",
    "<pre>code</pre>",
    "<blockquote><p>q</p></blockquote>",
    "<table><tr><td>a</td></tr></table>",
    "a<br>",
    "<hr>",
    "<strong>x</strong>",
];

#[test]
fn normal_output_ends_with_newline() {
    for input in SAMPLES {
        let out = md(input);
        assert!(out.ends_with('\n'), "{input:?} gave {out:?}");
    }
}

#[test]
fn empty_input_gives_one_newline() {
    assert_eq!(md(""), "\n");
}

#[test]
fn compressed_empty_input_gives_nothing() {
    assert_eq!(mdc(""), "");
}

#[test]
fn compressed_output_has_no_blank_padding() {
    for input in SAMPLES.iter().skip(1) {
        let out = mdc(input);
        assert!(out.ends_with('\n'), "{input:?} gave {out:?}");
        assert!(!out.ends_with("\n\n"), "{input:?} gave {out:?}");
        assert!(!out.starts_with('\n'), "{input:?} gave {out:?}");
    }
}

#[test]
fn compressed_paragraphs_keep_one_blank_line() {
    assert_eq!(mdc("<p>a</p><p>b</p>"), "a\n\nb\n");
}

#[test]
fn document_tree_converts_directly() {
    let doc = HtmlNode::Document { children: vec![element("strong", &[], vec![text("x")])] };
    let (res, out) = render(&doc, false);
    assert!(res.is_ok());
    assert_eq!(out, "**x**\n");
    let (res, out) = render(&doc, true);
    assert!(res.is_ok());
    assert_eq!(out, "**x**\n");
}

#[test]
fn document_tree_appends_to_existing_output() {
    let doc = HtmlNode::Document { children: vec![element("em", &[], vec![text("y")])] };
    let mut out = b"start:".to_vec();
    let res = convert_document(&doc, &mut out, &Options::default());
    assert!(res.is_ok());
    assert_eq!(String::from_utf8(out).unwrap(), "start:*y*\n");
}

#[test]
fn depth_just_below_limit_converts() {
    let doc = HtmlNode::Document { children: vec![nested_divs(198)] };
    let (res, out) = render(&doc, false);
    assert!(res.is_ok());
    assert_eq!(out, "\n\nx\n");
}

#[test]
fn depth_beyond_limit_is_an_error() {
    let doc = HtmlNode::Document { children: vec![nested_divs(199)] };
    let (res, _) = render(&doc, false);
    match res {
        Err(Error::Io(m)) => assert_eq!(m, "HTML nesting exceeds maximum depth of 200"),
        other => panic!("expected a depth error, got {other:?}"),
    }
}

#[test]
fn parsed_nesting_limit() {
    // document, html and body sit above the first div.
    let ok = format!("{}{}", "<div>".repeat(197), "</div>".repeat(197));
    assert!(run(&ok, false).0.is_ok());
    let deep = format!("{}{}", "<div>".repeat(198), "</div>".repeat(198));
    let (res, _) = run(&deep, false);
    let e = res.expect_err("nesting below the limit must fail");
    assert_eq!(e.to_string(), "I/O error: HTML nesting exceeds maximum depth of 200");
}

#[test]
fn skipped_subtree_is_not_walked() {
    let doc = HtmlNode::Document {
        children: vec![element("script", &[], vec![nested_divs(300)]), text("after")],
    };
    let (res, out) = render(&doc, false);
    assert!(res.is_ok());
    assert_eq!(out, "after\n");
}

#[test]
fn parse_error_text() {
    let e = Error::Parse("bad input".to_owned());
    assert_eq!(e.to_string(), "HTML parse error: bad input");
}

#[test]
fn default_options_are_not_compressed() {
    assert!(!Options::default().compressed);
}

#[test]
fn ordered_list_start_with_plus_sign() {
    assert_eq!(md("<ol start=\"+3\"><li>a</li><li>b</li></ol>").trim(), "3. a\n4. b");
}

#[test]
fn ordered_list_start_not_a_number() {
    assert_eq!(md("<ol start=\"abc\"><li>a</li></ol>").trim(), "1. a");
    assert_eq!(md("<ol start=\"-2\"><li>a</li></ol>").trim(), "1. a");
    assert_eq!(md("<ol start=\"4294967296\"><li>a</li></ol>").trim(), "1. a");
}

#[test]
fn ordered_list_start_zero() {
    assert_eq!(md("<ol start=\"0\"><li>a</li><li>b</li></ol>").trim(), "0. a\n1. b");
}

#[test]
fn code_span_delimiter_outruns_backticks() {
    assert_eq!(md("<code>a``b</code>").trim(), "```a``b```");
    assert_eq!(md("<code>`</code>").trim(), "`` ` ``");
    assert_eq!(md("<code>``</code>").trim(), "``` `` ```");
    assert_eq!(md("<code>`a</code>").trim(), "`` `a ``");
}

#[test]
fn link_destination_with_space_is_wrapped() {
    assert_eq!(md("<a href=\"a b\">x</a>").trim(), "[x](<a b>)");
    assert_eq!(md("<a href=\"a<b c\">x</a>").trim(), "[x](<a\\<b c>)");
    assert_eq!(md("<a href=\"plain\">x</a>").trim(), "[x](plain)");
}

#[test]
fn link_without_href_keeps_empty_destination() {
    assert_eq!(md("<a>x</a>").trim(), "[x]()");
}

#[test]
fn compressed_link_collapses_blocks_onto_one_line() {
    assert_eq!(mdc("<a href=\"u\"><p>x</p><p>y</p></a>"), "[x y](u)\n");
}

#[test]
fn table_cell_pipe_is_escaped() {
    let out = md("<table><tr><td>a|b</td></tr></table>");
    assert!(out.contains("| a\\|b |"), "{out:?}");
    assert!(out.contains("| ---- |"), "{out:?}");
}

#[test]
fn table_cell_blocks_flatten_to_one_line() {
    let out = mdc("<table><tr><td>a<br>b</td></tr></table>");
    assert!(out.contains("|a b|"), "{out:?}");
    assert!(out.contains("|-|"), "{out:?}");
}

#[test]
fn table_width_counts_display_columns() {
    let out = md("<table><tr><th>日本語</th></tr></table>");
    assert!(out.contains("| 日本語 |"), "{out:?}");
    assert!(out.contains("| ------ |"), "{out:?}");
}

#[test]
fn text_escapes_markdown_characters() {
    assert_eq!(md("<p>*a* _b_ [c] `d` ~e~ &lt;f</p>").trim(), "\\*a\\* \\_b\\_ \\[c\\] \\`d\\` \\~e\\~ \\<f");
    assert_eq!(md("<p>#x</p>").trim(), "\\#x");
    assert_eq!(md("<p>a #x</p>").trim(), "a #x");
}

#[test]
fn compressed_alt_text_collapses() {
    assert_eq!(mdc("<img src=\"s\" alt=\"a \n b\">"), "![a b](s)\n");
}

#[test]
fn emphasis_switches_to_underscores_around_stars() {
    assert_eq!(md("<em>a*b</em>").trim(), "_a\\*b_");
}

#[test]
fn stripped_content_writes_nothing() {
    let plain = md("<p>a</p><p>b</p>");
    assert_eq!(
        md("<p>a</p><script>var x = 1;</script><style>p { }</style><!-- note --><noscript>n</noscript><p>b</p>"),
        plain
    );
}

#[test]
fn backslash_in_text_is_escaped() {
    assert_eq!(md("<p>a\\b</p>").trim(), "a\\\\b");
}

#[test]
fn convert_is_convert_with_default_options() {
    let input = "<h1>T</h1><p>a <em>b</em></p><ul><li>x</li></ul>";
    let mut a = Vec::new();
    let mut b = Vec::new();
    let ra = convert(input.as_bytes(), &mut a);
    let rb = convert_with(input.as_bytes(), &mut b, &Options::default());
    assert!(ra.is_ok() && rb.is_ok());
    assert_eq!(a, b);
}

#[test]
fn collapsing_whitespace_twice_changes_nothing() {
    let input: Vec<char> = " a \n\t b  c ".chars().collect();
    let once = h2md::text::collapse_whitespace(&input);
    assert_eq!(once.iter().collect::<String>(), "a b c");
    let twice = h2md::text::collapse_whitespace(&once);
    assert_eq!(twice, once);
}

#[test]
fn capture_buffer_round_trip() {
    let mut c = h2md::state::Converter::new(false);
    c.at_line_start = false;
    c.pending_space = true;
    c.trailing_nls = 1;
    let first: Vec<char> = "ab".chars().collect();
    let second: Vec<char> = "\ncd".chars().collect();
    c.enter_redirect();
    c.write_all(&first);
    c.write_all(&second);
    let r = c.leave_redirect().expect("a capture buffer was open");
    assert_eq!(r.buf.iter().collect::<String>(), "ab\ncd");
    assert!(c.sink.is_empty());
    assert!(!c.at_line_start && c.pending_space && c.trailing_nls == 1);
    assert!(c.redirect_stack.is_empty());
}

#[test]
fn column_widths_from_cell_widths() {
    let cw = vec![vec![5usize, 2], vec![1usize]];
    assert_eq!(h2md::table::col_widths_from(&cw, 2), vec![5, 3]);
    assert_eq!(h2md::table::col_widths_from(&cw, 3), vec![5, 3, 3]);
}

#[test]
fn padded_row_from_cell_widths() {
    let cells: Vec<Vec<char>> = vec!["日本".chars().collect(), "25".chars().collect()];
    let line = h2md::table::padded_row_from(&cells, &vec![4, 2], &vec![5, 3], 2);
    assert_eq!(line.iter().collect::<String>(), "| 日本  | 25  |\n");
}

#[test]
fn never_more_than_one_blank_line() {
    let input = "<p></p><h1></h1><div><p>a</p></div><blockquote><p>q</p><p></p></blockquote>\
                 <ul><li><p>x</p></li></ul><table><tr><td>c</td></tr></table><hr><p>b</p>";
    for compressed in [false, true] {
        let (res, out) = run(input, compressed);
        assert!(res.is_ok());
        assert!(!out.contains("\n\n\n"), "{out:?}");
    }
}
