//! What the conversion writes, element by element, as functions of the state.

use vstd::prelude::*;
use crate::chars::{parse_u32_spec, repeat};
use crate::state::{ConvState, ListInfo, RowV, TableV, nl1, nl2};
use crate::table::finish_table;
use crate::tags::{Tag, is_section, is_skipped, tag_of};
use crate::text::{
    collapse_ws, contains_seq, lemma_run_at_most_longest, ends_with, list_indent, longest_run, normalize_cell_spec,
    starts_with, trim_end_nl, trim_end_nl_space,
};
use crate::tree::{
    Attr, HtmlNode, attrs_view, children_of, max_height, node_eq, nodes_eq, same_data,
};

verus! {

/// Deepest level of the document tree that the converter visits; a node below
/// it makes the conversion fail.
pub const MAX_DEPTH: usize = 200;

/// How many more levels can be entered below depth `d`.
pub open spec fn fuel(d: nat) -> nat {
    if d <= MAX_DEPTH {
        (MAX_DEPTH - d) as nat
    } else {
        0
    }
}

/// Whether the children `kids` of a node at depth `d`, and everything below
/// them, lie within [`MAX_DEPTH`].
pub open spec fn fits(kids: Seq<HtmlNode>, d: nat) -> bool {
    kids.len() == 0 || d + 1 + max_height(kids) <= MAX_DEPTH
}

/// The value of the first attribute named `name`.
pub open spec fn find_attr(attrs: Seq<Attr>, name: Seq<char>) -> Option<Seq<char>>
    decreases attrs.len(),
{
    if attrs.len() == 0 {
        None
    } else if attrs[0].name@ == name {
        Some(attrs[0].value@)
    } else {
        find_attr(attrs.drop_first(), name)
    }
}

pub open spec fn language_prefix() -> Seq<char> {
    seq!['l', 'a', 'n', 'g', 'u', 'a', 'g', 'e', '-']
}

/// The language of the first `class` attribute of the form `language-*`.
pub open spec fn class_language(attrs: Seq<Attr>) -> Option<Seq<char>>
    decreases attrs.len(),
{
    if attrs.len() == 0 {
        None
    } else if attrs[0].name@ == seq!['c', 'l', 'a', 's', 's'] && attrs[0].value@.len() >= 9
        && attrs[0].value@.take(9) == language_prefix() {
        Some(attrs[0].value@.skip(9))
    } else {
        class_language(attrs.drop_first())
    }
}

/// The language of a code block: from the first `code` child with a
/// `language-*` class.
pub open spec fn code_language(kids: Seq<HtmlNode>) -> Option<Seq<char>>
    decreases kids.len(),
{
    if kids.len() == 0 {
        None
    } else {
        match kids[0] {
            HtmlNode::Element { name, attrs, .. } => if name@ == seq!['c', 'o', 'd', 'e'] {
                match class_language(attrs@) {
                    Some(l) => Some(l),
                    None => code_language(kids.drop_first()),
                }
            } else {
                code_language(kids.drop_first())
            },
            _ => code_language(kids.drop_first()),
        }
    }
}

/// Levels left for collecting text at depth `d`.
pub open spec fn text_fuel(d: nat) -> nat {
    if d <= MAX_DEPTH + 1 {
        (MAX_DEPTH + 1 - d) as nat
    } else {
        0
    }
}

/// The text under a node at depth `d` (elements only), or `None` when a node
/// lies below [`MAX_DEPTH`].
pub open spec fn collect_text(n: HtmlNode, d: nat) -> Option<Seq<char>>
    decreases text_fuel(d), 0nat, 0nat,
{
    if d > MAX_DEPTH {
        None
    } else {
        match n {
            HtmlNode::Text { contents } => Some(contents@),
            HtmlNode::Element { children, .. } => collect_texts(children@, d + 1),
            _ => Some(seq![]),
        }
    }
}

/// The text under a sequence of nodes at depth `d`.
pub open spec fn collect_texts(kids: Seq<HtmlNode>, d: nat) -> Option<Seq<char>>
    decreases text_fuel(d), 1nat, kids.len(),
{
    if kids.len() == 0 {
        Some(seq![])
    } else {
        match collect_text(kids[0], d) {
            None => None,
            Some(a) => match collect_texts(kids.drop_first(), d) {
                None => None,
                Some(b) => Some(a + b),
            },
        }
    }
}

/// The length of the backtick delimiters of a code span holding `buf`.
pub open spec fn code_delim_len(buf: Seq<char>) -> nat {
    if longest_run(buf) > 0 {
        longest_run(buf) + 1
    } else if starts_with(buf, ' ') || ends_with(buf, ' ') {
        2
    } else {
        1
    }
}

/// The delimiter of a code span is longer than every backtick run in its
/// content, so the content never holds the delimiter and cannot close the
/// span early.
pub proof fn lemma_code_delim_not_in_content(buf: Seq<char>)
    ensures
        code_delim_len(buf) > longest_run(buf),
        !contains_seq(buf, repeat('`', code_delim_len(buf))),
{
    let k = code_delim_len(buf);
    if contains_seq(buf, repeat('`', k)) {
        let i = choose|i: int|
            0 <= i && i + k <= buf.len() && #[trigger] buf.subrange(i, i + k) == repeat('`', k);
        lemma_run_at_most_longest(buf, i, k);
    }
}

/// Whether a code span holding `buf` gets a space inside each delimiter:
/// with a multi-backtick delimiter, when the content is empty or begins or
/// ends with a space or a backtick (so that it is read back unchanged).
pub open spec fn code_padded(buf: Seq<char>) -> bool {
    code_delim_len(buf) > 1 && (starts_with(buf, ' ') || ends_with(buf, ' ') || starts_with(
        buf,
        '`',
    ) || ends_with(buf, '`') || buf.len() == 0)
}

/// Emitting an inline code span holding `buf`.
pub open spec fn code_span(s: ConvState, buf: Seq<char>) -> ConvState {
    let delim = repeat('`', code_delim_len(buf));
    let pad = code_padded(buf);
    let s1 = s.emit(delim);
    let s2 = if pad {
        s1.emit(seq![' '])
    } else {
        s1
    };
    let s3 = s2.emit(buf);
    let s4 = if pad {
        s3.emit(seq![' '])
    } else {
        s3
    };
    s4.emit(delim)
}

/// The index of the first newline in `c` (its length when there is none).
pub open spec fn first_nl(c: Seq<char>) -> nat
    decreases c.len(),
{
    if c.len() == 0 {
        0
    } else if c[0] == '\n' {
        0
    } else {
        1 + first_nl(c.drop_first())
    }
}

/// Emitting one quoted line.
pub open spec fn quote_line(s: ConvState, line: Seq<char>) -> ConvState {
    let s1 = s.emit(seq!['>', ' ']);
    let s2 = if line.len() > 0 {
        s1.raw_write(line)
    } else {
        s1
    };
    s2.emit(nl1())
}

/// Emitting every line of `c` (split at newlines) as a quoted line.
pub open spec fn quote_lines(s: ConvState, c: Seq<char>) -> ConvState
    decreases c.len(),
{
    let k = first_nl(c);
    let s1 = quote_line(s, c.take(k as int));
    if k < c.len() {
        quote_lines(s1, c.skip(k + 1int))
    } else {
        s1
    }
}

/// The number of the first item of a list.
pub open spec fn list_start(ordered: bool, attrs: Seq<Attr>) -> u32 {
    if ordered {
        match find_attr(attrs, seq!['s', 't', 'a', 'r', 't']) {
            Some(v) => match parse_u32_spec(v) {
                Some(n) => n,
                None => 1,
            },
            None => 1,
        }
    } else {
        1
    }
}

/// The next item number (wrapping past `u32::MAX`).
pub open spec fn next_counter(c: u32) -> u32 {
    if c == u32::MAX {
        0
    } else {
        (c + 1) as u32
    }
}

/// Marking the innermost table's header section as open or closed.
pub open spec fn set_in_header(s: ConvState, b: bool) -> ConvState {
    if s.tables.len() > 0 {
        let t = s.tables.last();
        ConvState { tables: s.tables.drop_last().push(TableV { in_header: b, ..t }), ..s }
    } else {
        s
    }
}

/// Closing the innermost table's current row (when it has cells).
pub open spec fn finish_row(s: ConvState) -> ConvState {
    if s.tables.len() > 0 && s.tables.last().current_row.len() > 0 {
        let t = s.tables.last();
        let row = RowV { cells: t.current_row, is_header: t.in_header || t.current_row_has_th };
        ConvState {
            tables: s.tables.drop_last().push(
                TableV {
                    rows: t.rows.push(row),
                    current_row: seq![],
                    current_row_has_th: false,
                    ..t
                },
            ),
            ..s
        }
    } else {
        s
    }
}

/// Adding a cell to the innermost table's current row.
pub open spec fn add_cell(s: ConvState, is_th: bool, cell: Seq<char>) -> ConvState {
    if s.tables.len() > 0 {
        let t = s.tables.last();
        ConvState {
            tables: s.tables.drop_last().push(
                TableV {
                    current_row: t.current_row.push(cell),
                    current_row_has_th: if is_th {
                        true
                    } else {
                        t.current_row_has_th
                    },
                    ..t
                },
            ),
            ..s
        }
    } else {
        s
    }
}

/// An empty table.
pub open spec fn new_table() -> TableV {
    TableV { rows: seq![], current_row: seq![], in_header: false, current_row_has_th: false }
}

/// Walking a node whose parent is at depth `d`: the new state, and false when
/// the walk went below [`MAX_DEPTH`].
pub open spec fn walk_node(s: ConvState, n: HtmlNode, d: nat) -> (ConvState, bool)
    decreases fuel(d), 0nat, 0nat,
{
    if d + 1 > MAX_DEPTH {
        (s, false)
    } else {
        match n {
            HtmlNode::Document { children } => walk_nodes(s, children@, d + 1),
            HtmlNode::Text { contents } => (s.emit_text(contents@), true),
            HtmlNode::Element { name, attrs, children } => render_element(
                s,
                name@,
                attrs@,
                children@,
                d + 1,
            ),
            _ => (s, true),
        }
    }
}

proof fn lemma_skipped_tag(n: Seq<char>)
    requires
        is_skipped(n),
    ensures
        tag_of(n) == Tag::Skip,
{
    if n == seq!['s', 'c', 'r', 'i', 'p', 't'] {
        assert(n.len() == 6 && n[0] == 's' && n[1] == 'c');
        assert(!is_section(n));
    } else if n == seq!['s', 't', 'y', 'l', 'e'] {
        assert(n.len() == 5 && n[0] == 's' && n[1] == 't');
        assert(!is_section(n));
    } else if n == seq!['n', 'o', 's', 'c', 'r', 'i', 'p', 't'] {
        assert(n.len() == 8 && n[0] == 'n' && n[1] == 'o');
        assert(!is_section(n));
    } else if n == seq!['h', 'e', 'a', 'd'] {
        assert(n.len() == 4 && n[0] == 'h' && n[1] == 'e');
        assert(!is_section(n));
    } else if n == seq!['m', 'e', 't', 'a'] {
        assert(n.len() == 4 && n[0] == 'm' && n[1] == 'e');
        assert(!is_section(n));
    } else {
        assert(n.len() == 4 && n[0] == 'l' && n[1] == 'i');
        assert(!is_section(n));
    }
}

/// Stripped content writes nothing: a comment, a doctype, a processing
/// instruction, or a `script`, `style`, `noscript`, `head`, `meta` or `link`
/// element leaves the state as it was, whatever the element contains.
pub proof fn lemma_stripped_nodes(s: ConvState, n: HtmlNode, d: nat)
    requires
        d < MAX_DEPTH,
        n is Comment || n is Doctype || n is ProcessingInstruction || (n matches HtmlNode::Element {
            name,
            ..
        } && is_skipped(name@)),
    ensures
        walk_node(s, n, d) == (s, true),
{
    if let HtmlNode::Element { name, .. } = n {
        lemma_skipped_tag(name@);
    }
}

/// Walking the children, in order, of a node at depth `d`; stops at the first failure.
pub open spec fn walk_nodes(s: ConvState, kids: Seq<HtmlNode>, d: nat) -> (ConvState, bool)
    decreases fuel(d), 2nat, kids.len(),
{
    if kids.len() == 0 {
        (s, true)
    } else {
        let (s1, ok) = walk_node(s, kids[0], d);
        if !ok {
            (s1, false)
        } else {
            walk_nodes(s1, kids.drop_first(), d)
        }
    }
}

/// Walking children as inline content: in compressed mode they are captured
/// and written with their whitespace collapsed onto one line.
pub open spec fn walk_inline(s: ConvState, kids: Seq<HtmlNode>, d: nat) -> (ConvState, bool)
    decreases fuel(d), 4nat, 0nat,
{
    if !s.compressed {
        walk_nodes(s, kids, d)
    } else {
        let (s2, ok) = walk_nodes(s.enter_redirect(), kids, d);
        let (s3, r) = s2.leave_redirect();
        match r {
            None => (s3, ok),
            Some(r) => if !ok {
                (s3, false)
            } else {
                (s3.raw_write(collapse_ws(r.buf)), true)
            },
        }
    }
}

/// Rendering an element at depth `d`.
pub open spec fn render_element(
    s: ConvState,
    name: Seq<char>,
    attrs: Seq<Attr>,
    kids: Seq<HtmlNode>,
    d: nat,
) -> (ConvState, bool)
    decreases fuel(d), 6nat, 0nat,
{
    match tag_of(name) {
        Tag::Heading(l) => render_heading(s, l, kids, d),
        Tag::Paragraph => render_paragraph(s, kids, d),
        Tag::Blockquote => render_blockquote(s, kids, d),
        Tag::Pre => render_pre(s, kids, d),
        Tag::Rule => (render_rule(s), true),
        Tag::Break => (render_break(s), true),
        Tag::Section => walk_nodes(s.ensure_blank_line(), kids, d),
        Tag::List(o) => render_list(s, o, attrs, kids, d),
        Tag::Item => render_item(s, kids, d),
        Tag::Table => render_table(s, kids, d),
        Tag::TableHead => render_thead(s, kids, d),
        Tag::TableRow => render_tr(s, kids, d),
        Tag::Cell(th) => render_cell(s, th, kids, d),
        Tag::Strong => render_inline(s, seq!['*', '*'], kids, d),
        Tag::Emphasis => render_inline(s, seq!['*'], kids, d),
        Tag::Strike => render_inline(s, seq!['~', '~'], kids, d),
        Tag::Code => render_code(s, kids, d),
        Tag::Link => render_link(s, attrs, kids, d),
        Tag::Image => (render_image(s, attrs), true),
        Tag::Skip => (s, true),
        Tag::Other => walk_nodes(s, kids, d),
    }
}

/// A heading: `#` repeated `level` times, a space, the content on one line.
pub open spec fn render_heading(s: ConvState, level: u8, kids: Seq<HtmlNode>, d: nat) -> (
    ConvState,
    bool,
)
    decreases fuel(d), 5nat, 0nat,
{
    let s1 = s.ensure_blank_line().emit(repeat('#', level as nat)).emit(seq![' ']);
    let (s2, ok) = walk_inline(s1, kids, d);
    if !ok {
        (s2, false)
    } else {
        (s2.end_block(), true)
    }
}

/// A paragraph (inside a table, only its content).
pub open spec fn render_paragraph(s: ConvState, kids: Seq<HtmlNode>, d: nat) -> (ConvState, bool)
    decreases fuel(d), 5nat, 0nat,
{
    if s.tables.len() > 0 {
        walk_nodes(s, kids, d)
    } else {
        let (s2, ok) = walk_nodes(s.ensure_blank_line(), kids, d);
        if !ok {
            (s2, false)
        } else {
            (s2.end_block(), true)
        }
    }
}

/// A blockquote: the content is captured, trailing newlines and spaces
/// dropped, and each line written after `> `.
pub open spec fn render_blockquote(s: ConvState, kids: Seq<HtmlNode>, d: nat) -> (ConvState, bool)
    decreases fuel(d), 5nat, 0nat,
{
    let s1 = s.ensure_blank_line().enter_redirect();
    let s2 = ConvState { trailing_nls: 2, ..s1 };
    let (s3, ok) = walk_nodes(s2, kids, d);
    if !ok {
        (s3, false)
    } else {
        let (s4, r) = s3.leave_redirect();
        match r {
            None => (s4, true),
            Some(r) => {
                let content = trim_end_nl_space(r.buf);
                if content.len() == 0 {
                    (s4, true)
                } else {
                    (quote_lines(s4, content).end_block(), true)
                }
            },
        }
    }
}

pub open spec fn fence() -> Seq<char> {
    seq!['`', '`', '`']
}

pub open spec fn closing_fence() -> Seq<char> {
    seq!['\n', '`', '`', '`', '\n']
}

/// Opening a fenced code block: the fence, the language, and a capture
/// buffer for the preformatted content.
pub open spec fn pre_open(s: ConvState, kids: Seq<HtmlNode>) -> ConvState {
    let s1 = s.ensure_blank_line();
    let s2 = s1.emit(fence());
    let s3 = match code_language(kids) {
        Some(l) => s2.emit(l),
        None => s2,
    };
    let s4 = s3.emit(nl1());
    ConvState { in_pre: true, ..s4.enter_redirect() }
}

/// Closing a fenced code block: the captured content without its trailing
/// newlines, then the closing fence.
pub open spec fn pre_close(s: ConvState) -> ConvState {
    let s7 = ConvState { in_pre: false, ..s };
    let (s8, r) = s7.leave_redirect();
    match r {
        None => s8,
        Some(r) => {
            let s9 = s8.raw_write(trim_end_nl(r.buf));
            let s10 = ConvState { trailing_nls: 0, ..s9 };
            ConvState { at_line_start: true, ..s10.emit(closing_fence()) }
        },
    }
}

/// A fenced code block with the language of its `code` child.
pub open spec fn render_pre(s: ConvState, kids: Seq<HtmlNode>, d: nat) -> (ConvState, bool)
    decreases fuel(d), 5nat, 0nat,
{
    let (s6, ok) = walk_nodes(pre_open(s, kids), kids, d);
    if !ok {
        (s6, false)
    } else {
        (pre_close(s6), true)
    }
}

/// A horizontal rule.
pub open spec fn render_rule(s: ConvState) -> ConvState {
    ConvState { at_line_start: true, ..s.ensure_blank_line().emit(seq!['-', '-', '-', '\n']) }
}

/// A line break: two spaces and a newline (a newline inside preformatted
/// content; nothing at the start of a line in compressed mode).
pub open spec fn render_break(s: ConvState) -> ConvState {
    let s1 = if s.in_pre {
        s.emit(nl1())
    } else if s.compressed {
        if !s.at_line_start {
            s.emit(seq![' ', ' ', '\n'])
        } else {
            s
        }
    } else {
        s.emit(seq![' ', ' ', '\n'])
    };
    ConvState { at_line_start: true, ..s1 }
}

/// Opening a list: block spacing, then the list on the stack.
pub open spec fn list_open(s: ConvState, ordered: bool, attrs: Seq<Attr>) -> ConvState {
    let s1 = if s.lists.len() == 0 {
        s.ensure_blank_line()
    } else if !s.at_line_start {
        s.emit(nl1())
    } else {
        s
    };
    ConvState {
        lists: s1.lists.push(ListInfo { ordered, counter: list_start(ordered, attrs) }),
        ..s1
    }
}

/// Closing a list: off the stack, and a newline after the outermost list.
pub open spec fn list_close(s3: ConvState) -> ConvState {
    let s4 = ConvState {
        lists: if s3.lists.len() > 0 {
            s3.lists.drop_last()
        } else {
            s3.lists
        },
        ..s3
    };
    if s4.lists.len() == 0 {
        ConvState { at_line_start: true, ..s4.emit(nl1()) }
    } else {
        s4
    }
}

/// A list.
pub open spec fn render_list(
    s: ConvState,
    ordered: bool,
    attrs: Seq<Attr>,
    kids: Seq<HtmlNode>,
    d: nat,
) -> (ConvState, bool)
    decreases fuel(d), 5nat, 0nat,
{
    let (s3, ok) = walk_nodes(list_open(s, ordered, attrs), kids, d);
    if !ok {
        (s3, false)
    } else {
        (list_close(s3), true)
    }
}

/// The marker of a list item: the indent, then `- ` or the item number and `. `.
pub open spec fn item_marker(s: ConvState) -> ConvState {
    let n = s.lists.len();
    let s1 = if n >= 2 {
        s.emit(list_indent((n - 1) as nat))
    } else {
        s
    };
    if s1.lists.len() > 0 && s1.lists.last().ordered {
        let info = s1.lists.last();
        let s1b = ConvState {
            lists: s1.lists.drop_last().push(
                ListInfo { counter: next_counter(info.counter), ..info },
            ),
            ..s1
        };
        s1b.emit_u32(info.counter).emit(seq!['.', ' '])
    } else {
        s1.emit(seq!['-', ' '])
    }
}

/// A list item.
pub open spec fn render_item(s: ConvState, kids: Seq<HtmlNode>, d: nat) -> (ConvState, bool)
    decreases fuel(d), 5nat, 0nat,
{
    let s2 = item_marker(s);
    let s3 = ConvState { at_line_start: false, at_item_start: true, ..s2 };
    let (s4, ok) = walk_nodes(s3, kids, d);
    if !ok {
        (s4, false)
    } else {
        let s5 = if !s4.compressed || s4.trailing_nls == 0 {
            s4.emit(nl1())
        } else {
            s4
        };
        (ConvState { at_line_start: true, ..s5 }, true)
    }
}

/// A table: its rows are gathered, then written out.
pub open spec fn render_table(s: ConvState, kids: Seq<HtmlNode>, d: nat) -> (ConvState, bool)
    decreases fuel(d), 5nat, 0nat,
{
    let s1 = if s.tables.len() == 0 {
        s.ensure_blank_line()
    } else {
        s
    };
    let s2 = ConvState { tables: s1.tables.push(new_table()), ..s1 };
    let (s3, ok) = walk_nodes(s2, kids, d);
    if !ok {
        (s3, false)
    } else {
        (finish_table(s3), true)
    }
}

/// A table header section: its rows are header rows.
pub open spec fn render_thead(s: ConvState, kids: Seq<HtmlNode>, d: nat) -> (ConvState, bool)
    decreases fuel(d), 5nat, 0nat,
{
    let (s2, ok) = walk_nodes(set_in_header(s, true), kids, d);
    if !ok {
        (s2, false)
    } else {
        (set_in_header(s2, false), true)
    }
}

/// A table row.
pub open spec fn render_tr(s: ConvState, kids: Seq<HtmlNode>, d: nat) -> (ConvState, bool)
    decreases fuel(d), 5nat, 0nat,
{
    let (s1, ok) = walk_nodes(s, kids, d);
    if !ok {
        (s1, false)
    } else {
        (finish_row(s1), true)
    }
}

/// A table cell: its content is captured and flattened to one line.
pub open spec fn render_cell(s: ConvState, is_th: bool, kids: Seq<HtmlNode>, d: nat) -> (
    ConvState,
    bool,
)
    decreases fuel(d), 5nat, 0nat,
{
    let (s2, ok) = walk_nodes(s.enter_redirect(), kids, d);
    if !ok {
        (s2, false)
    } else {
        let (s3, r) = s2.leave_redirect();
        match r {
            None => (s3, true),
            Some(r) => (add_cell(s3, is_th, normalize_cell_spec(r.buf)), true),
        }
    }
}

/// The alternative delimiter for an emphasis marker.
pub open spec fn alt_marker(marker: Seq<char>) -> Seq<char> {
    if marker == seq!['*', '*'] {
        seq!['_', '_']
    } else if marker == seq!['*'] {
        seq!['_']
    } else {
        marker
    }
}

/// The delimiter chosen for inline content `buf`: the alternative when the
/// marker occurs in it and the alternative does not.
pub open spec fn chosen_marker(marker: Seq<char>, buf: Seq<char>) -> Seq<char> {
    let alt = alt_marker(marker);
    if marker != alt && contains_seq(buf, marker) && !contains_seq(buf, alt) {
        alt
    } else {
        marker
    }
}

/// The delimiter chosen for inline content occurs in it only when both the
/// marker and its alternative do.
pub proof fn lemma_chosen_marker(marker: Seq<char>, buf: Seq<char>)
    ensures
        contains_seq(buf, chosen_marker(marker, buf)) ==> (contains_seq(buf, marker)
            && contains_seq(buf, alt_marker(marker))),
{
}

/// Inline formatting: the content between two delimiters, nothing when empty.
pub open spec fn render_inline(s: ConvState, marker: Seq<char>, kids: Seq<HtmlNode>, d: nat) -> (
    ConvState,
    bool,
)
    decreases fuel(d), 5nat, 0nat,
{
    let (s2, ok) = walk_nodes(s.enter_redirect(), kids, d);
    if !ok {
        (s2, false)
    } else {
        let (s3, r) = s2.leave_redirect();
        match r {
            None => (s3, true),
            Some(r) => {
                let buf = if s3.compressed {
                    collapse_ws(r.buf)
                } else {
                    r.buf
                };
                if buf.len() == 0 {
                    (s3, true)
                } else {
                    let m = chosen_marker(marker, buf);
                    (s3.emit(m).raw_write(buf).emit(m), true)
                }
            },
        }
    }
}

/// Inline code: the text under the element as a code span.
pub open spec fn render_code(s: ConvState, kids: Seq<HtmlNode>, d: nat) -> (ConvState, bool)
    decreases fuel(d), 5nat, 0nat,
{
    if s.in_pre {
        walk_nodes(s, kids, d)
    } else {
        match collect_texts(kids, d + 1) {
            None => (s, false),
            Some(buf) => (code_span(s, buf), true),
        }
    }
}

/// A link: `[text](destination)`.
pub open spec fn render_link(s: ConvState, attrs: Seq<Attr>, kids: Seq<HtmlNode>, d: nat) -> (
    ConvState,
    bool,
)
    decreases fuel(d), 5nat, 0nat,
{
    let s1 = s.emit(seq!['[']);
    let (s2, ok) = walk_inline(s1, kids, d);
    if !ok {
        (s2, false)
    } else {
        let s3 = s2.emit(seq![']', '(']);
        let s4 = match find_attr(attrs, seq!['h', 'r', 'e', 'f']) {
            Some(h) => s3.emit_url(h),
            None => s3,
        };
        (s4.emit(seq![')']), true)
    }
}

/// An image: `![alt](source)`.
pub open spec fn render_image(s: ConvState, attrs: Seq<Attr>) -> ConvState {
    let s1 = s.emit(seq!['!', '[']);
    let s2 = match find_attr(attrs, seq!['a', 'l', 't']) {
        Some(a) => s1.emit_alt(a),
        None => s1,
    };
    let s3 = s2.emit(seq![']', '(']);
    let s4 = match find_attr(attrs, seq!['s', 'r', 'c']) {
        Some(u) => s3.emit_url(u),
        None => s3,
    };
    s4.emit(seq![')'])
}

/// Converting a document: the text written to the output, and whether the
/// conversion succeeded (then the output is finalized).
pub open spec fn convert_spec(doc: HtmlNode, compressed: bool) -> (Seq<char>, bool) {
    let (s, ok) = walk_node(crate::state::initial_state(compressed), doc, 0);
    if ok {
        (s.finalize().sink, true)
    } else {
        (s.sink, false)
    }
}


proof fn lemma_find_attr_eq(a1: Seq<Attr>, a2: Seq<Attr>, name: Seq<char>)
    requires
        attrs_view(a1) == attrs_view(a2),
    ensures
        find_attr(a1, name) == find_attr(a2, name),
        class_language(a1) == class_language(a2),
    decreases a1.len(),
{
    assert(attrs_view(a1).len() == a1.len() && attrs_view(a2).len() == a2.len());
    if a1.len() > 0 {
        assert(attrs_view(a1)[0] == attrs_view(a2)[0]);
        assert(attrs_view(a1.drop_first()) =~= attrs_view(a1).drop_first());
        assert(attrs_view(a2.drop_first()) =~= attrs_view(a2).drop_first());
        lemma_find_attr_eq(a1.drop_first(), a2.drop_first(), name);
    }
}

proof fn lemma_code_language_eq(k1: Seq<HtmlNode>, k2: Seq<HtmlNode>)
    requires
        nodes_eq(k1, k2),
    ensures
        code_language(k1) == code_language(k2),
    decreases k1.len(),
{
    if k1.len() > 0 {
        assert(node_eq(k1[0], k2[0]) && nodes_eq(k1.drop_first(), k2.drop_first()));
        assert(same_data(k1[0], k2[0]));
        lemma_code_language_eq(k1.drop_first(), k2.drop_first());
        if let HtmlNode::Element { attrs: x, .. } = k1[0] {
            if let HtmlNode::Element { attrs: y, .. } = k2[0] {
                lemma_find_attr_eq(x@, y@, seq![]);
            }
        }
    }
}

proof fn lemma_collect_text_eq(a: HtmlNode, b: HtmlNode, d: nat)
    requires
        node_eq(a, b),
    ensures
        collect_text(a, d) == collect_text(b, d),
    decreases text_fuel(d), 0nat, 0nat,
{
    if d <= MAX_DEPTH {
        match a {
            HtmlNode::Element { children, .. } => {
                lemma_collect_texts_eq(children@, children_of(b), d + 1);
            },
            _ => {},
        }
    }
}

proof fn lemma_collect_texts_eq(k1: Seq<HtmlNode>, k2: Seq<HtmlNode>, d: nat)
    requires
        nodes_eq(k1, k2),
    ensures
        collect_texts(k1, d) == collect_texts(k2, d),
    decreases text_fuel(d), 1nat, k1.len(),
{
    if k1.len() > 0 {
        assert(node_eq(k1[0], k2[0]) && nodes_eq(k1.drop_first(), k2.drop_first()));
        lemma_collect_text_eq(k1[0], k2[0], d);
        lemma_collect_texts_eq(k1.drop_first(), k2.drop_first(), d);
    }
}

proof fn lemma_walk_node_eq(a: HtmlNode, b: HtmlNode, d: nat)
    requires
        node_eq(a, b),
    ensures
        forall|s: ConvState| #[trigger] walk_node(s, a, d) == walk_node(s, b, d),
    decreases fuel(d), 0nat, 0nat,
{
    assert(same_data(a, b));
    if d + 1 <= MAX_DEPTH {
        match a {
            HtmlNode::Document { children } => {
                lemma_walk_nodes_eq(children@, children_of(b), d + 1);
                assert forall|s: ConvState| #[trigger] walk_node(s, a, d) == walk_node(s, b, d) by {
                    assert(walk_nodes(s, children@, d + 1) == walk_nodes(s, children_of(b), d + 1));
                }
            },
            HtmlNode::Element { name, attrs, children } => {
                if let HtmlNode::Element { name: n2, attrs: y, children: c2 } = b {
                    lemma_render_element_eq(name@, attrs@, y@, children@, c2@, d + 1);
                    assert forall|s: ConvState| #[trigger] walk_node(s, a, d) == walk_node(s, b, d) by {
                        assert(render_element(s, name@, attrs@, children@, d + 1) == render_element(
                            s,
                            n2@,
                            y@,
                            c2@,
                            d + 1,
                        ));
                    }
                }
            },
            _ => {},
        }
    }
}

proof fn lemma_walk_nodes_eq(k1: Seq<HtmlNode>, k2: Seq<HtmlNode>, d: nat)
    requires
        nodes_eq(k1, k2),
    ensures
        forall|s: ConvState| #[trigger] walk_nodes(s, k1, d) == walk_nodes(s, k2, d),
    decreases fuel(d), 2nat, k1.len(),
{
    if k1.len() > 0 {
        assert(node_eq(k1[0], k2[0]) && nodes_eq(k1.drop_first(), k2.drop_first()));
        lemma_walk_node_eq(k1[0], k2[0], d);
        lemma_walk_nodes_eq(k1.drop_first(), k2.drop_first(), d);
        assert forall|s: ConvState| #[trigger] walk_nodes(s, k1, d) == walk_nodes(s, k2, d) by {
            let (s1, ok) = walk_node(s, k1[0], d);
            assert(walk_node(s, k1[0], d) == walk_node(s, k2[0], d));
            if ok {
                assert(walk_nodes(s1, k1.drop_first(), d) == walk_nodes(s1, k2.drop_first(), d));
            }
        }
    }
}

proof fn lemma_walk_inline_eq(k1: Seq<HtmlNode>, k2: Seq<HtmlNode>, d: nat)
    requires
        nodes_eq(k1, k2),
    ensures
        forall|s: ConvState| #[trigger] walk_inline(s, k1, d) == walk_inline(s, k2, d),
    decreases fuel(d), 4nat, 0nat,
{
    lemma_walk_nodes_eq(k1, k2, d);
    assert forall|s: ConvState| #[trigger] walk_inline(s, k1, d) == walk_inline(s, k2, d) by {
        assert(walk_nodes(s, k1, d) == walk_nodes(s, k2, d));
        assert(walk_nodes(s.enter_redirect(), k1, d) == walk_nodes(s.enter_redirect(), k2, d));
    }
}

/// The facts on the children of an element that its rendering rests on.
spec fn same_children(k1: Seq<HtmlNode>, k2: Seq<HtmlNode>, d: nat) -> bool {
    &&& forall|t: ConvState| #[trigger] walk_nodes(t, k1, d) == walk_nodes(t, k2, d)
    &&& forall|t: ConvState| #[trigger] walk_inline(t, k1, d) == walk_inline(t, k2, d)
    &&& code_language(k1) == code_language(k2)
    &&& collect_texts(k1, d + 1) == collect_texts(k2, d + 1)
}

/// The facts on the attributes of an element that its rendering rests on.
spec fn same_attrs(a1: Seq<Attr>, a2: Seq<Attr>) -> bool {
    &&& find_attr(a1, seq!['s', 't', 'a', 'r', 't']) == find_attr(a2, seq!['s', 't', 'a', 'r', 't'])
    &&& find_attr(a1, seq!['h', 'r', 'e', 'f']) == find_attr(a2, seq!['h', 'r', 'e', 'f'])
    &&& find_attr(a1, seq!['s', 'r', 'c']) == find_attr(a2, seq!['s', 'r', 'c'])
    &&& find_attr(a1, seq!['a', 'l', 't']) == find_attr(a2, seq!['a', 'l', 't'])
}

proof fn lemma_block_eq(s: ConvState, name: Seq<char>, a1: Seq<Attr>, a2: Seq<Attr>, k1: Seq<HtmlNode>, k2: Seq<HtmlNode>, d: nat)
    requires
        same_children(k1, k2, d),
        same_attrs(a1, a2),
        tag_of(name) is Heading || tag_of(name) is Paragraph || tag_of(name) is Blockquote
            || tag_of(name) is Pre || tag_of(name) is List || tag_of(name) is Item,
    ensures
        render_element(s, name, a1, k1, d) == render_element(s, name, a2, k2, d),
{
    match tag_of(name) {
        Tag::Heading(l) => {
            let s1 = s.ensure_blank_line().emit(repeat('#', l as nat)).emit(seq![' ']);
            assert(walk_inline(s1, k1, d) == walk_inline(s1, k2, d));
            assert(render_heading(s, l, k1, d) == render_heading(s, l, k2, d));
        },
        Tag::Paragraph => {
            assert(walk_nodes(s, k1, d) == walk_nodes(s, k2, d));
            assert(walk_nodes(s.ensure_blank_line(), k1, d) == walk_nodes(s.ensure_blank_line(), k2, d));
            assert(render_paragraph(s, k1, d) == render_paragraph(s, k2, d));
        },
        Tag::Blockquote => {
            let s1 = s.ensure_blank_line().enter_redirect();
            let s2 = ConvState { trailing_nls: 2, ..s1 };
            assert(walk_nodes(s2, k1, d) == walk_nodes(s2, k2, d));
            assert(render_blockquote(s, k1, d) == render_blockquote(s, k2, d));
        },
        Tag::Pre => {
            assert(pre_open(s, k1) == pre_open(s, k2));
            assert(walk_nodes(pre_open(s, k1), k1, d) == walk_nodes(pre_open(s, k1), k2, d));
            assert(render_pre(s, k1, d) == render_pre(s, k2, d));
        },
        Tag::List(o) => {
            assert(list_open(s, o, a1) == list_open(s, o, a2));
            assert(walk_nodes(list_open(s, o, a1), k1, d) == walk_nodes(list_open(s, o, a1), k2, d));
            assert(render_list(s, o, a1, k1, d) == render_list(s, o, a2, k2, d));
        },
        _ => {
            let s3 = ConvState { at_line_start: false, at_item_start: true, ..item_marker(s) };
            assert(walk_nodes(s3, k1, d) == walk_nodes(s3, k2, d));
            assert(render_item(s, k1, d) == render_item(s, k2, d));
        },
    }
}

proof fn lemma_table_eq(s: ConvState, name: Seq<char>, a1: Seq<Attr>, a2: Seq<Attr>, k1: Seq<HtmlNode>, k2: Seq<HtmlNode>, d: nat)
    requires
        same_children(k1, k2, d),
        tag_of(name) is Table || tag_of(name) is TableHead || tag_of(name) is TableRow
            || tag_of(name) is Cell,
    ensures
        render_element(s, name, a1, k1, d) == render_element(s, name, a2, k2, d),
{
    match tag_of(name) {
        Tag::Table => {
            let s1 = if s.tables.len() == 0 {
                s.ensure_blank_line()
            } else {
                s
            };
            let s2 = ConvState { tables: s1.tables.push(new_table()), ..s1 };
            assert(walk_nodes(s2, k1, d) == walk_nodes(s2, k2, d));
            assert(render_table(s, k1, d) == render_table(s, k2, d));
        },
        Tag::TableHead => {
            assert(walk_nodes(set_in_header(s, true), k1, d) == walk_nodes(set_in_header(s, true), k2, d));
            assert(render_thead(s, k1, d) == render_thead(s, k2, d));
        },
        Tag::TableRow => {
            assert(walk_nodes(s, k1, d) == walk_nodes(s, k2, d));
            assert(render_tr(s, k1, d) == render_tr(s, k2, d));
        },
        _ => {
            let th = tag_of(name)->0;
            assert(walk_nodes(s.enter_redirect(), k1, d) == walk_nodes(s.enter_redirect(), k2, d));
            assert(render_cell(s, th, k1, d) == render_cell(s, th, k2, d));
        },
    }
}

proof fn lemma_inline_eq(s: ConvState, name: Seq<char>, a1: Seq<Attr>, a2: Seq<Attr>, k1: Seq<HtmlNode>, k2: Seq<HtmlNode>, d: nat)
    requires
        same_children(k1, k2, d),
        same_attrs(a1, a2),
        !(tag_of(name) is Heading || tag_of(name) is Paragraph || tag_of(name) is Blockquote
            || tag_of(name) is Pre || tag_of(name) is List || tag_of(name) is Item),
        !(tag_of(name) is Table || tag_of(name) is TableHead || tag_of(name) is TableRow
            || tag_of(name) is Cell),
    ensures
        render_element(s, name, a1, k1, d) == render_element(s, name, a2, k2, d),
{
    match tag_of(name) {
        Tag::Strong => {
            assert(walk_nodes(s.enter_redirect(), k1, d) == walk_nodes(s.enter_redirect(), k2, d));
            assert(render_inline(s, seq!['*', '*'], k1, d) == render_inline(s, seq!['*', '*'], k2, d));
        },
        Tag::Emphasis => {
            assert(walk_nodes(s.enter_redirect(), k1, d) == walk_nodes(s.enter_redirect(), k2, d));
            assert(render_inline(s, seq!['*'], k1, d) == render_inline(s, seq!['*'], k2, d));
        },
        Tag::Strike => {
            assert(walk_nodes(s.enter_redirect(), k1, d) == walk_nodes(s.enter_redirect(), k2, d));
            assert(render_inline(s, seq!['~', '~'], k1, d) == render_inline(s, seq!['~', '~'], k2, d));
        },
        Tag::Code => {
            assert(walk_nodes(s, k1, d) == walk_nodes(s, k2, d));
            assert(render_code(s, k1, d) == render_code(s, k2, d));
        },
        Tag::Link => {
            assert(walk_inline(s.emit(seq!['[']), k1, d) == walk_inline(s.emit(seq!['[']), k2, d));
            assert(render_link(s, a1, k1, d) == render_link(s, a2, k2, d));
        },
        Tag::Image => {
            assert(render_image(s, a1) == render_image(s, a2));
        },
        Tag::Section => {
            assert(walk_nodes(s.ensure_blank_line(), k1, d) == walk_nodes(s.ensure_blank_line(), k2, d));
        },
        _ => {
            assert(walk_nodes(s, k1, d) == walk_nodes(s, k2, d));
        },
    }
}

proof fn lemma_render_element_eq(
    name: Seq<char>,
    a1: Seq<Attr>,
    a2: Seq<Attr>,
    k1: Seq<HtmlNode>,
    k2: Seq<HtmlNode>,
    d: nat,
)
    requires
        attrs_view(a1) == attrs_view(a2),
        nodes_eq(k1, k2),
    ensures
        forall|s: ConvState| #[trigger] render_element(s, name, a1, k1, d) == render_element(
            s,
            name,
            a2,
            k2,
            d,
        ),
    decreases fuel(d), 6nat, 0nat,
{
    lemma_walk_nodes_eq(k1, k2, d);
    lemma_walk_inline_eq(k1, k2, d);
    lemma_code_language_eq(k1, k2);
    lemma_collect_texts_eq(k1, k2, d + 1);
    lemma_find_attr_eq(a1, a2, seq!['s', 't', 'a', 'r', 't']);
    lemma_find_attr_eq(a1, a2, seq!['h', 'r', 'e', 'f']);
    lemma_find_attr_eq(a1, a2, seq!['s', 'r', 'c']);
    lemma_find_attr_eq(a1, a2, seq!['a', 'l', 't']);
    assert(same_children(k1, k2, d));
    assert(same_attrs(a1, a2));
    assert forall|s: ConvState| #[trigger] render_element(s, name, a1, k1, d) == render_element(
        s,
        name,
        a2,
        k2,
        d,
    ) by {
        if tag_of(name) is Heading || tag_of(name) is Paragraph || tag_of(name) is Blockquote
            || tag_of(name) is Pre || tag_of(name) is List || tag_of(name) is Item {
            lemma_block_eq(s, name, a1, a2, k1, k2, d);
        } else if tag_of(name) is Table || tag_of(name) is TableHead || tag_of(name) is TableRow
            || tag_of(name) is Cell {
            lemma_table_eq(s, name, a1, a2, k1, k2, d);
        } else {
            lemma_inline_eq(s, name, a1, a2, k1, k2, d);
        }
    }
}

/// The Markdown of a document depends on its tree alone: two nodes that are
/// the same tree convert to the same text and the same success.
pub proof fn lemma_convert_same_tree(a: HtmlNode, b: HtmlNode, compressed: bool)
    requires
        node_eq(a, b),
    ensures
        convert_spec(a, compressed) == convert_spec(b, compressed),
{
    lemma_walk_node_eq(a, b, 0);
    assert(walk_node(crate::state::initial_state(compressed), a, 0) == walk_node(
        crate::state::initial_state(compressed),
        b,
        0,
    ));
}


/// A list item at nesting depth `n` (the number of open lists) is written,
/// in normal mode outside capture buffers, as `2 * (n - 1)` spaces of indent
/// (at most 30, from depth 16 on), then `- ` in an unordered list or the
/// item's number and `. ` in an ordered one; the number counts up by one.
pub proof fn lemma_item_indent(s: ConvState)
    requires
        !s.compressed,
        s.redirects.len() == 0,
        !s.pending_space,
        s.lists.len() >= 1,
    ensures
        ({
            let n = s.lists.len();
            let k: nat = if n <= 16 {
                (2 * (n - 1)) as nat
            } else {
                30
            };
            let c = s.lists.last().counter;
            let m = item_marker(s);
            &&& !s.lists.last().ordered ==> m.sink == s.sink + repeat(' ', k) + seq!['-', ' ']
            &&& s.lists.last().ordered ==> m.sink == s.sink + repeat(' ', k) + crate::chars::decimal(
                c as nat,
            ) + seq!['.', ' ']
            &&& s.lists.last().ordered ==> m.lists.last().counter == if c == u32::MAX {
                0
            } else {
                (c + 1) as u32
            }
            &&& m.lists.len() == n
        }),
{
    let n = s.lists.len();
    let k: nat = if n <= 16 {
        (2 * (n - 1)) as nat
    } else {
        30
    };
    let dash = seq!['-', ' '];
    let dot = seq!['.', ' '];
    assert(!crate::text::all_newlines(dash)) by {
        assert(dash[0] != '\n');
    }
    assert(!crate::text::all_newlines(dot)) by {
        assert(dot[0] != '\n');
    }
    let s1 = if n >= 2 {
        let ind = list_indent((n - 1) as nat);
        assert(ind =~= repeat(' ', k));
        assert(!crate::text::all_newlines(ind)) by {
            assert(ind[0] != '\n');
        }
        assert(s.emit(ind).sink == s.sink + ind);
        s.emit(ind)
    } else {
        assert(repeat(' ', k) =~= Seq::<char>::empty());
        assert(s.sink + repeat(' ', k) =~= s.sink);
        s
    };
    assert(s1.sink == s.sink + repeat(' ', k));
    assert(!s1.pending_space && s1.lists == s.lists && !s1.compressed && s1.redirects.len() == 0);
    if s.lists.last().ordered {
        let info = s1.lists.last();
        let s1b = ConvState {
            lists: s1.lists.drop_last().push(
                ListInfo { counter: next_counter(info.counter), ..info },
            ),
            ..s1
        };
        let d = crate::chars::decimal(info.counter as nat);
        assert(s1b.emit_u32(info.counter).sink == s1.sink + d);
        assert(s1b.emit_u32(info.counter).emit(dot).sink == s1.sink + d + dot);
        assert(s1.sink + d + dot =~= s.sink + repeat(' ', k) + d + dot);
    } else {
        assert(s1.emit(dash).sink == s1.sink + dash);
    }
}

/// In text written at the start of a line, a leading `#`, `+`, `-` or `>`
/// (which Markdown would read as a heading, list item or quote) is preceded
/// by a backslash; elsewhere in a line these characters are written as they are.
pub proof fn lemma_line_start_escapes(c: char)
    ensures
        (c == '#' || c == '+' || c == '-' || c == '>') ==> crate::text::escape_char(c, true)
            == seq!['\\', c],
        (c == '#' || c == '+' || c == '-' || c == '>') ==> crate::text::escape_char(c, false)
            == seq![c],
{
}

proof fn lemma_text_fold_prefix(t: Seq<char>, b: bool, k: int)
    requires
        0 <= k <= t.len(),
    ensures
        crate::text::text_fold(t.take(k), b).0.len() <= crate::text::text_fold(t, b).0.len(),
        crate::text::text_fold(t.take(k), b).0 == crate::text::text_fold(t, b).0.take(
            crate::text::text_fold(t.take(k), b).0.len() as int,
        ),
    decreases t.len() - k,
{
    if k < t.len() {
        lemma_text_fold_prefix(t, b, k + 1);
        assert(t.take(k + 1).drop_last() =~= t.take(k));
        let a = crate::text::text_fold(t.take(k), b).0;
        let a1 = crate::text::text_fold(t.take(k + 1), b).0;
        let f = crate::text::text_fold(t, b).0;
        assert(a1.take(a.len() as int) =~= a);
        assert(f.take(a.len() as int) =~= a1.take(a1.len() as int).take(a.len() as int));
    } else {
        assert(t.take(k) =~= t);
    }
}

/// Normalized text that begins a line and starts with `#`, `+`, `-` or `>`
/// is written starting with a backslash and that character.
pub proof fn lemma_text_line_start_escaped(t: Seq<char>)
    requires
        t.len() > 0,
        t[0] == '#' || t[0] == '+' || t[0] == '-' || t[0] == '>',
    ensures
        crate::text::text_fold(t, true).0.len() >= 2,
        crate::text::text_fold(t, true).0.take(2) == seq!['\\', t[0]],
{
    lemma_text_fold_prefix(t, true, 1);
    let t1 = t.take(1);
    assert(t1.drop_last() =~= Seq::<char>::empty());
    assert(t1.last() == t[0]);
    assert(!crate::chars::is_ws(t[0]));
    assert(crate::text::text_fold(t1.drop_last(), true) == (Seq::<char>::empty(), true, false));
    assert(crate::text::escape_char(t[0], true) =~= seq!['\\', t[0]]);
    assert(Seq::<char>::empty() + seq!['\\', t[0]] =~= seq!['\\', t[0]]);
    assert(crate::text::text_fold(t1, true).0 =~= seq!['\\', t[0]]);
}

/// A text node that begins an output line with `#`, `+`, `-` or `>` is
/// written, in normal mode outside capture buffers, as a backslash and that
/// character, so Markdown never reads it as a heading, list item or quote.
pub proof fn lemma_emit_text_line_start(s: ConvState, t: Seq<char>)
    requires
        s.at_line_start,
        !s.in_pre,
        !s.compressed,
        !s.pending_space,
        s.redirects.len() == 0,
        t.len() > 0,
        t[0] == '#' || t[0] == '+' || t[0] == '-' || t[0] == '>',
    ensures
        s.emit_text(t).sink == s.sink + seq!['\\', t[0]] + s.emit_text(t).sink.skip(
            s.sink.len() + 2int,
        ),
{
    assert(!crate::chars::is_ws(t[0]));
    assert(crate::text::first_non_ws(t) == 0);
    assert(crate::text::trim_start(t) =~= t);
    lemma_text_line_start_escaped(t);
    let f = crate::text::text_fold(t, true);
    assert(f.0.len() >= 2);
    assert(f.0[0] == '\\');
    assert(!crate::text::all_newlines(f.0));
    let s1 = s.emit(f.0);
    assert(s1.sink == s.sink + f.0);
    assert(f.0 =~= seq!['\\', t[0]] + f.0.skip(2));
    assert(s1.sink.skip(s.sink.len() + 2int) =~= f.0.skip(2));
}

/// Closing a block leaves the output at the start of a line after a blank
/// line (after a newline in a tight list).
pub proof fn lemma_end_block_closes(x: ConvState)
    ensures
        x.end_block().at_line_start,
        x.end_block().trailing_nls >= 1,
        !x.tight_block() ==> x.end_block().trailing_nls == 2,
        x.end_block().compressed == x.compressed,
        x.end_block().lists == x.lists,
{
    assert(crate::text::all_newlines(nl1()) && crate::text::all_newlines(nl2()));
}

/// Starting a block outside tables and list markers leaves the output at the
/// start of a line after a blank line (outside tight lists).
pub proof fn lemma_ensure_blank_opens(x: ConvState)
    requires
        !x.tight_block(),
        x.tables.len() == 0,
        !x.at_item_start,
    ensures
        x.ensure_blank_line().at_line_start,
        x.ensure_blank_line().trailing_nls >= 2,
{
    assert(crate::text::all_newlines(nl1()) && crate::text::all_newlines(nl2()));
}

/// A heading ends its line and the block: afterwards the output is at the
/// start of a line after a blank line (after a newline in a tight list), so
/// what follows never lands on the heading's line.
pub proof fn lemma_heading_closed(s: ConvState, level: u8, kids: Seq<HtmlNode>, d: nat)
    ensures
        ({
            let (r, ok) = render_heading(s, level, kids, d);
            ok ==> r.at_line_start && r.trailing_nls >= 1 && (!(r.compressed && r.lists.len() > 0)
                ==> r.trailing_nls == 2)
        }),
{
    let s1 = s.ensure_blank_line().emit(repeat('#', level as nat)).emit(seq![' ']);
    let (s2, ok) = walk_inline(s1, kids, d);
    lemma_end_block_closes(s2);
}

/// A paragraph outside tables ends its block: afterwards the output is at
/// the start of a line after a blank line (after a newline in a tight list).
pub proof fn lemma_paragraph_closed(s: ConvState, kids: Seq<HtmlNode>, d: nat)
    requires
        s.tables.len() == 0,
    ensures
        ({
            let (r, ok) = render_paragraph(s, kids, d);
            ok ==> r.at_line_start && r.trailing_nls >= 1 && (!(r.compressed && r.lists.len() > 0)
                ==> r.trailing_nls == 2)
        }),
{
    let (s2, ok) = walk_nodes(s.ensure_blank_line(), kids, d);
    lemma_end_block_closes(s2);
}

/// A list item ends its line: afterwards the output is at the start of a
/// line after at least one newline, so the next item starts a line of its own.
pub proof fn lemma_item_closed(s: ConvState, kids: Seq<HtmlNode>, d: nat)
    ensures
        ({
            let (r, ok) = render_item(s, kids, d);
            ok ==> r.at_line_start && r.trailing_nls >= 1
        }),
{
    assert(crate::text::all_newlines(nl1()));
}

} // verus!
