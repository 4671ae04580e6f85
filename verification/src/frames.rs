//! Capture buffers are balanced: a successful walk of any node leaves the
//! stack of capture buffers, the mode and the list depth as it found them.
//! From this follows that a blockquote is closed by a blank line.

use vstd::prelude::*;
use crate::render_spec::{
    code_span, fuel, item_marker, list_close, list_open, pre_close, pre_open, quote_line,
    quote_lines, first_nl, render_blockquote, render_cell, render_code, render_element,
    render_heading, render_image, render_inline, render_item, render_link, render_list,
    render_paragraph, render_pre, render_rule, render_break, render_table, render_thead,
    render_tr, walk_inline, walk_node, walk_nodes, MAX_DEPTH,
};
use crate::state::{ConvState, RedirectV};
use crate::tags::{Tag, tag_of};
use crate::tree::{Attr, HtmlNode};

verus! {

/// The position a capture buffer saved when it was entered.
pub open spec fn saved(r: RedirectV) -> (bool, bool, bool, u8) {
    (r.saved_at_line_start, r.saved_at_item_start, r.saved_pending_space, r.saved_trailing_nls)
}

/// Whether `a` and `b` have the same capture buffers open, with the same
/// saved positions (their contents aside).
#[verifier::opaque]
pub open spec fn redirects_same(a: ConvState, b: ConvState) -> bool {
    &&& a.redirects.len() == b.redirects.len()
    &&& forall|k: int|
        0 <= k < a.redirects.len() ==> saved(#[trigger] a.redirects[k]) == saved(b.redirects[k])
}

/// Whether `b` is `a` with the same capture buffers, mode and list depth.
pub open spec fn frames_same(a: ConvState, b: ConvState) -> bool {
    &&& redirects_same(a, b)
    &&& a.compressed == b.compressed
    &&& a.lists.len() == b.lists.len()
}

proof fn lemma_write_all_frames(s: ConvState, d: Seq<char>)
    ensures
        frames_same(s, s.write_all(d)),
{
    reveal(redirects_same);
    let w = s.write_all(d);
    if s.redirects.len() > 0 {
        assert forall|k: int| 0 <= k < s.redirects.len() implies saved(
            #[trigger] s.redirects[k],
        ) == saved(w.redirects[k]) by {
            if k < s.redirects.len() - 1 {
                assert(w.redirects[k] == s.redirects[k]);
            }
        }
    }
}

proof fn lemma_emit_frames(s: ConvState, t: Seq<char>)
    ensures
        frames_same(s, s.emit(t)),
{
    reveal(redirects_same);
    let s0 = ConvState { pending_space: false, ..s };
    lemma_write_all_frames(s0, seq![' ']);
    let s1 = s.emit_space(t);
    assert(frames_same(s, s1));
    lemma_write_all_frames(s1, t.take(s1.newlines_to_write(t)));
    lemma_write_all_frames(s1, t);
}

proof fn lemma_raw_write_frames(s: ConvState, d: Seq<char>)
    ensures
        frames_same(s, s.raw_write(d)),
{
    reveal(redirects_same);
    lemma_write_all_frames(s, d);
}

proof fn lemma_block_frames(s: ConvState)
    ensures
        frames_same(s, s.ensure_blank_line()),
        frames_same(s, s.end_block()),
{
    reveal(redirects_same);
    let s1 = ConvState { pending_space: false, ..s };
    lemma_emit_frames(s1, crate::state::nl1());
    lemma_emit_frames(s1, crate::state::nl2());
    lemma_emit_frames(s, crate::state::nl1());
    lemma_emit_frames(s, crate::state::nl2());
}

proof fn lemma_text_frames(s: ConvState, t: Seq<char>, n: u32)
    ensures
        frames_same(s, s.emit_text(t)),
        frames_same(s, s.emit_alt(t)),
        frames_same(s, s.emit_url(t)),
        frames_same(s, s.emit_u32(n)),
{
    reveal(redirects_same);
    lemma_emit_frames(s, t);
    let lead = s.at_line_start || s.at_item_start;
    let t1 = if lead {
        crate::text::trim_start(t)
    } else {
        t
    };
    lemma_emit_frames(s, crate::text::text_fold(t1, s.at_line_start).0);
    lemma_emit_frames(s, crate::text::alt_fold(t).0);
    lemma_emit_frames(s, crate::text::url_text(t));
    lemma_write_all_frames(s, crate::chars::decimal(n as nat));
}


proof fn lemma_frames_trans(a: ConvState, b: ConvState, c: ConvState)
    requires
        frames_same(a, b),
        frames_same(b, c),
    ensures
        frames_same(a, c),
{
    reveal(redirects_same);
    assert forall|k: int| 0 <= k < a.redirects.len() implies saved(#[trigger] a.redirects[k])
        == saved(c.redirects[k]) by {
        assert(saved(a.redirects[k]) == saved(b.redirects[k]));
        assert(saved(b.redirects[k]) == saved(c.redirects[k]));
    }
}

proof fn lemma_frames_refl(a: ConvState)
    ensures
        frames_same(a, a),
{
    reveal(redirects_same);
}

proof fn lemma_frames_eq(a: ConvState, b: ConvState)
    requires
        a.redirects == b.redirects,
        a.compressed == b.compressed,
        a.lists.len() == b.lists.len(),
    ensures
        frames_same(a, b),
{
    reveal(redirects_same);
}

proof fn lemma_quote_frames(s: ConvState, c: Seq<char>)
    ensures
        frames_same(s, quote_lines(s, c)),
    decreases c.len(),
{
    let k = first_nl(c);
    let line = c.take(k as int);
    let gt = seq!['>', ' '];
    lemma_emit_frames(s, gt);
    let s1 = s.emit(gt);
    lemma_raw_write_frames(s1, line);
    let s2 = if line.len() > 0 {
        s1.raw_write(line)
    } else {
        s1
    };
    lemma_emit_frames(s2, crate::state::nl1());
    lemma_frames_trans(s, s1, s2);
    lemma_frames_trans(s, s2, quote_line(s, line));
    if k < c.len() {
        lemma_first_nl_len(c);
        lemma_quote_frames(quote_line(s, line), c.skip(k + 1int));
        lemma_frames_trans(s, quote_line(s, line), quote_lines(s, c));
    }
}

proof fn lemma_first_nl_len(c: Seq<char>)
    ensures
        first_nl(c) <= c.len(),
    decreases c.len(),
{
    if c.len() > 0 && c[0] != '\n' {
        lemma_first_nl_len(c.drop_first());
    }
}

proof fn lemma_item_marker_frames(s: ConvState)
    ensures
        frames_same(s, item_marker(s)),
{
    let n = s.lists.len();
    let ind = crate::text::list_indent((n - 1) as nat);
    lemma_emit_frames(s, ind);
    let s1 = if n >= 2 {
        s.emit(ind)
    } else {
        s
    };
    lemma_frames_refl(s);
    lemma_emit_frames(s1, seq!['-', ' ']);
    lemma_frames_trans(s, s1, s1.emit(seq!['-', ' ']));
    if s1.lists.len() > 0 && s1.lists.last().ordered {
        let info = s1.lists.last();
        let s1b = ConvState {
            lists: s1.lists.drop_last().push(
                crate::state::ListInfo {
                    counter: crate::render_spec::next_counter(info.counter),
                    ..info
                },
            ),
            ..s1
        };
        lemma_text_frames(s1b, seq![], info.counter);
        lemma_emit_frames(s1b.emit_u32(info.counter), seq!['.', ' ']);
        lemma_frames_trans(s1b, s1b.emit_u32(info.counter), item_marker(s));
        lemma_frames_eq(s1, s1b);
        lemma_frames_trans(s, s1, s1b);
        lemma_frames_trans(s, s1b, item_marker(s));
    }
}

proof fn lemma_list_frames(s: ConvState, ordered: bool, attrs: Seq<Attr>)
    ensures
        redirects_same(s, list_open(s, ordered, attrs)),
        list_open(s, ordered, attrs).compressed == s.compressed,
        list_open(s, ordered, attrs).lists.len() == s.lists.len() + 1,
        redirects_same(s, list_close(s)),
        list_close(s).compressed == s.compressed,
        s.lists.len() > 0 ==> list_close(s).lists.len() == s.lists.len() - 1,
{
    reveal(redirects_same);
    lemma_block_frames(s);
    lemma_emit_frames(s, crate::state::nl1());
    let s4 = ConvState {
        lists: if s.lists.len() > 0 {
            s.lists.drop_last()
        } else {
            s.lists
        },
        ..s
    };
    lemma_emit_frames(s4, crate::state::nl1());
}

proof fn lemma_table_lines_frames(
    s: ConvState,
    rows: Seq<crate::state::RowV>,
    ncols: nat,
    widths: Seq<usize>,
    has_header: bool,
    i: nat,
)
    ensures
        frames_same(s, crate::table::table_lines(s, rows, ncols, widths, has_header, i)),
    decreases rows.len() - i,
{
    lemma_frames_refl(s);
    if i < rows.len() {
        let row = rows[i as int];
        let line = if s.compressed {
            crate::table::compact_row(row.cells, ncols)
        } else {
            crate::table::padded_row(row.cells, widths, ncols)
        };
        lemma_emit_frames(s, line);
        let s1 = s.emit(line);
        let sep = if s1.compressed {
            crate::table::compact_sep(ncols)
        } else {
            crate::table::padded_sep(widths, ncols)
        };
        lemma_emit_frames(s1, sep);
        lemma_frames_refl(s1);
        let s2 = if row.is_header || (!has_header && i == 0) {
            s1.emit(sep)
        } else {
            s1
        };
        lemma_frames_trans(s, s1, s2);
        lemma_table_lines_frames(s2, rows, ncols, widths, has_header, i + 1);
        lemma_frames_trans(s, s2, crate::table::table_lines(s, rows, ncols, widths, has_header, i));
    }
}

proof fn lemma_finish_table_frames(s: ConvState)
    ensures
        frames_same(s, crate::table::finish_table(s)),
{
    reveal(redirects_same);
    let s1 = ConvState { pending_space: false, ..s };
    if s1.tables.len() > 0 {
        let t = s1.tables.last();
        let s2 = ConvState { tables: s1.tables.drop_last(), ..s1 };
        if t.rows.len() > 0 {
            let ncols = crate::table::max_cols(t.rows);
            let widths = crate::table::col_widths(t.rows, ncols);
            let h = crate::table::any_header(t.rows);
            lemma_table_lines_frames(s2, t.rows, ncols, widths, h, 0);
            let x = crate::table::table_lines(s2, t.rows, ncols, widths, h, 0);
            lemma_block_frames(x);
            lemma_frames_trans(s2, x, x.end_block());
        }
    }
}

proof fn lemma_code_span_frames(s: ConvState, buf: Seq<char>)
    ensures
        frames_same(s, code_span(s, buf)),
{
    let delim = crate::chars::repeat('`', crate::render_spec::code_delim_len(buf));
    let pad = crate::render_spec::code_padded(buf);
    lemma_emit_frames(s, delim);
    let s1 = s.emit(delim);
    lemma_frames_refl(s1);
    lemma_emit_frames(s1, seq![' ']);
    let s2 = if pad {
        s1.emit(seq![' '])
    } else {
        s1
    };
    lemma_emit_frames(s2, buf);
    let s3 = s2.emit(buf);
    lemma_emit_frames(s3, seq![' ']);
    lemma_frames_refl(s3);
    let s4 = if pad {
        s3.emit(seq![' '])
    } else {
        s3
    };
    lemma_emit_frames(s4, delim);
    lemma_frames_trans(s, s1, s2);
    lemma_frames_trans(s, s2, s3);
    lemma_frames_trans(s, s3, s4);
    lemma_frames_trans(s, s4, s4.emit(delim));
}


proof fn lemma_leave_frames(a: ConvState, b: ConvState)
    requires
        frames_same(a.enter_redirect(), b),
    ensures
        b.leave_redirect().1 is Some,
        frames_same(a, b.leave_redirect().0),
        b.leave_redirect().0.at_line_start == a.at_line_start,
        b.leave_redirect().0.at_item_start == a.at_item_start,
        b.leave_redirect().0.pending_space == a.pending_space,
        b.leave_redirect().0.trailing_nls == a.trailing_nls,
{
    reveal(redirects_same);
    let e = a.enter_redirect();
    let k = a.redirects.len() as int;
    assert(saved(e.redirects[k]) == saved(b.redirects[k]));
    let l = b.leave_redirect().0;
    assert forall|j: int| 0 <= j < a.redirects.len() implies saved(#[trigger] a.redirects[j])
        == saved(l.redirects[j]) by {
        assert(e.redirects[j] == a.redirects[j]);
        assert(saved(e.redirects[j]) == saved(b.redirects[j]));
    }
}

/// Capturing children: after the buffer is closed again, the capture
/// buffers are those before it was opened, and so is the position.
proof fn lemma_capture_frames(s: ConvState, kids: Seq<HtmlNode>, d: nat)
    ensures
        ({
            let (s2, ok) = walk_nodes(s.enter_redirect(), kids, d);
            ok ==> {
                &&& s2.leave_redirect().1 is Some
                &&& frames_same(s, s2.leave_redirect().0)
                &&& s2.leave_redirect().0.at_line_start == s.at_line_start
                &&& s2.leave_redirect().0.trailing_nls == s.trailing_nls
            }
        }),
    decreases fuel(d), 3nat, 0nat,
{
    lemma_walk_nodes_frames(s.enter_redirect(), kids, d);
    let (s2, ok) = walk_nodes(s.enter_redirect(), kids, d);
    if ok {
        lemma_leave_frames(s, s2);
    }
}

proof fn lemma_walk_node_frames(s: ConvState, n: HtmlNode, d: nat)
    ensures
        walk_node(s, n, d).1 ==> frames_same(s, walk_node(s, n, d).0),
    decreases fuel(d), 0nat, 0nat,
{
    lemma_frames_refl(s);
    if d + 1 <= MAX_DEPTH {
        match n {
            HtmlNode::Document { children } => {
                lemma_walk_nodes_frames(s, children@, d + 1);
            },
            HtmlNode::Text { contents } => {
                lemma_text_frames(s, contents@, 0);
            },
            HtmlNode::Element { name, attrs, children } => {
                lemma_render_element_frames(s, name@, attrs@, children@, d + 1);
            },
            _ => {},
        }
    }
}

/// A successful walk of a sequence of nodes keeps the capture buffers.
pub proof fn lemma_walk_nodes_frames(s: ConvState, kids: Seq<HtmlNode>, d: nat)
    ensures
        walk_nodes(s, kids, d).1 ==> frames_same(s, walk_nodes(s, kids, d).0),
    decreases fuel(d), 2nat, kids.len(),
{
    lemma_frames_refl(s);
    if kids.len() > 0 {
        lemma_walk_node_frames(s, kids[0], d);
        let (s1, ok) = walk_node(s, kids[0], d);
        if ok {
            lemma_walk_nodes_frames(s1, kids.drop_first(), d);
            if walk_nodes(s, kids, d).1 {
                lemma_frames_trans(s, s1, walk_nodes(s, kids, d).0);
            }
        }
    }
}

proof fn lemma_walk_inline_frames(s: ConvState, kids: Seq<HtmlNode>, d: nat)
    ensures
        walk_inline(s, kids, d).1 ==> frames_same(s, walk_inline(s, kids, d).0),
    decreases fuel(d), 4nat, 0nat,
{
    if !s.compressed {
        lemma_walk_nodes_frames(s, kids, d);
    } else {
        lemma_capture_frames(s, kids, d);
        let (s2, ok) = walk_nodes(s.enter_redirect(), kids, d);
        if ok {
            let (s3, r) = s2.leave_redirect();
            let b = crate::text::collapse_ws(r.unwrap().buf);
            lemma_raw_write_frames(s3, b);
            lemma_frames_trans(s, s3, s3.raw_write(b));
        }
    }
}

proof fn lemma_heading_frames(s: ConvState, l: u8, kids: Seq<HtmlNode>, d: nat)
    ensures
        render_heading(s, l, kids, d).1 ==> frames_same(s, render_heading(s, l, kids, d).0),
    decreases fuel(d), 5nat, 0nat,
{
    let e = s.ensure_blank_line();
    lemma_block_frames(s);
    let h = crate::chars::repeat('#', l as nat);
    lemma_emit_frames(e, h);
    lemma_emit_frames(e.emit(h), seq![' ']);
    let s1 = e.emit(h).emit(seq![' ']);
    lemma_frames_trans(s, e, e.emit(h));
    lemma_frames_trans(s, e.emit(h), s1);
    lemma_walk_inline_frames(s1, kids, d);
    let (s2, ok) = walk_inline(s1, kids, d);
    if ok {
        lemma_frames_trans(s, s1, s2);
        lemma_block_frames(s2);
        lemma_frames_trans(s, s2, s2.end_block());
    }
}

proof fn lemma_paragraph_frames(s: ConvState, kids: Seq<HtmlNode>, d: nat)
    ensures
        render_paragraph(s, kids, d).1 ==> frames_same(s, render_paragraph(s, kids, d).0),
    decreases fuel(d), 5nat, 0nat,
{
    if s.tables.len() > 0 {
        lemma_walk_nodes_frames(s, kids, d);
    } else {
        let e = s.ensure_blank_line();
        lemma_block_frames(s);
        lemma_walk_nodes_frames(e, kids, d);
        let (s2, ok) = walk_nodes(e, kids, d);
        if ok {
            lemma_frames_trans(s, e, s2);
            lemma_block_frames(s2);
            lemma_frames_trans(s, s2, s2.end_block());
        }
    }
}

proof fn lemma_section_frames(s: ConvState, kids: Seq<HtmlNode>, d: nat)
    ensures
        walk_nodes(s.ensure_blank_line(), kids, d).1 ==> frames_same(
            s,
            walk_nodes(s.ensure_blank_line(), kids, d).0,
        ),
    decreases fuel(d), 5nat, 0nat,
{
    let e = s.ensure_blank_line();
    lemma_block_frames(s);
    lemma_walk_nodes_frames(e, kids, d);
    if walk_nodes(e, kids, d).1 {
        lemma_frames_trans(s, e, walk_nodes(e, kids, d).0);
    }
}

/// The state of a blockquote just after its content was walked and its
/// capture buffer closed.
proof fn lemma_blockquote_capture(s: ConvState, kids: Seq<HtmlNode>, d: nat)
    ensures
        ({
            let e = s.ensure_blank_line();
            let s1 = e.enter_redirect();
            let s2 = ConvState { trailing_nls: 2, ..s1 };
            let (s3, ok) = walk_nodes(s2, kids, d);
            ok ==> {
                &&& s3.leave_redirect().1 is Some
                &&& frames_same(e, s3.leave_redirect().0)
                &&& s3.leave_redirect().0.at_line_start == e.at_line_start
                &&& s3.leave_redirect().0.trailing_nls == e.trailing_nls
            }
        }),
    decreases fuel(d), 4nat, 0nat,
{
    let e = s.ensure_blank_line();
    let s1 = e.enter_redirect();
    let s2 = ConvState { trailing_nls: 2, ..s1 };
    lemma_walk_nodes_frames(s2, kids, d);
    let (s3, ok) = walk_nodes(s2, kids, d);
    if ok {
        lemma_frames_eq(s1, s2);
        lemma_frames_trans(s1, s2, s3);
        lemma_leave_frames(e, s3);
    }
}

proof fn lemma_blockquote_frames(s: ConvState, kids: Seq<HtmlNode>, d: nat)
    ensures
        render_blockquote(s, kids, d).1 ==> frames_same(s, render_blockquote(s, kids, d).0),
    decreases fuel(d), 5nat, 0nat,
{
    let e = s.ensure_blank_line();
    lemma_block_frames(s);
    lemma_blockquote_capture(s, kids, d);
    let s1 = e.enter_redirect();
    let s2 = ConvState { trailing_nls: 2, ..s1 };
    let (s3, ok) = walk_nodes(s2, kids, d);
    if ok {
        let (s4, r) = s3.leave_redirect();
        lemma_frames_trans(s, e, s4);
        let content = crate::text::trim_end_nl_space(r.unwrap().buf);
        if content.len() > 0 {
            lemma_quote_frames(s4, content);
            let q = quote_lines(s4, content);
            lemma_frames_trans(s, s4, q);
            lemma_block_frames(q);
            lemma_frames_trans(s, q, q.end_block());
        }
    }
}


proof fn lemma_pre_open_frames(s: ConvState, kids: Seq<HtmlNode>, b: ConvState)
    requires
        frames_same(pre_open(s, kids), b),
    ensures
        b.leave_redirect().1 is Some,
        frames_same(s, b.leave_redirect().0),
{
    let s1 = s.ensure_blank_line();
    lemma_block_frames(s);
    let s2 = s1.emit(crate::render_spec::fence());
    lemma_emit_frames(s1, crate::render_spec::fence());
    lemma_frames_trans(s, s1, s2);
    lemma_frames_refl(s2);
    let s3 = match crate::render_spec::code_language(kids) {
        Some(l) => {
            lemma_emit_frames(s2, l);
            s2.emit(l)
        },
        None => s2,
    };
    lemma_frames_trans(s, s2, s3);
    let s4 = s3.emit(crate::state::nl1());
    lemma_emit_frames(s3, crate::state::nl1());
    lemma_frames_trans(s, s3, s4);
    lemma_frames_eq(s4.enter_redirect(), pre_open(s, kids));
    lemma_frames_trans(s4.enter_redirect(), pre_open(s, kids), b);
    lemma_leave_frames(s4, b);
    lemma_frames_trans(s, s4, b.leave_redirect().0);
}

proof fn lemma_pre_close_frames(s6: ConvState)
    requires
        s6.redirects.len() > 0,
    ensures
        frames_same(ConvState { in_pre: false, ..s6 }.leave_redirect().0, pre_close(s6)),
{
    let s7 = ConvState { in_pre: false, ..s6 };
    let (s8, r) = s7.leave_redirect();
    let t = crate::text::trim_end_nl(r.unwrap().buf);
    let s9 = s8.raw_write(t);
    lemma_raw_write_frames(s8, t);
    let s10 = ConvState { trailing_nls: 0, ..s9 };
    lemma_frames_eq(s9, s10);
    lemma_frames_trans(s8, s9, s10);
    lemma_emit_frames(s10, crate::render_spec::closing_fence());
    let s11 = s10.emit(crate::render_spec::closing_fence());
    lemma_frames_trans(s8, s10, s11);
    lemma_frames_eq(s11, pre_close(s6));
    lemma_frames_trans(s8, s11, pre_close(s6));
}

proof fn lemma_pre_frames(s: ConvState, kids: Seq<HtmlNode>, d: nat)
    ensures
        render_pre(s, kids, d).1 ==> frames_same(s, render_pre(s, kids, d).0),
    decreases fuel(d), 5nat, 0nat,
{
    let p = pre_open(s, kids);
    lemma_walk_nodes_frames(p, kids, d);
    let (s6, ok) = walk_nodes(p, kids, d);
    if ok {
        let s7 = ConvState { in_pre: false, ..s6 };
        lemma_frames_eq(s6, s7);
        lemma_frames_trans(p, s6, s7);
        lemma_pre_open_frames(s, kids, s7);
        lemma_pre_close_frames(s6);
        lemma_frames_trans(s, s7.leave_redirect().0, pre_close(s6));
    }
}

proof fn lemma_list_walk_frames(
    s: ConvState,
    o: bool,
    attrs: Seq<Attr>,
    kids: Seq<HtmlNode>,
    d: nat,
)
    ensures
        render_list(s, o, attrs, kids, d).1 ==> frames_same(s, render_list(s, o, attrs, kids, d).0),
    decreases fuel(d), 5nat, 0nat,
{
    let s1 = list_open(s, o, attrs);
    lemma_list_frames(s, o, attrs);
    lemma_walk_nodes_frames(s1, kids, d);
    let (s3, ok) = walk_nodes(s1, kids, d);
    if ok {
        lemma_list_frames(s3, o, attrs);
        reveal(redirects_same);
    }
}

proof fn lemma_item_frames(s: ConvState, kids: Seq<HtmlNode>, d: nat)
    ensures
        render_item(s, kids, d).1 ==> frames_same(s, render_item(s, kids, d).0),
    decreases fuel(d), 5nat, 0nat,
{
    let s2 = item_marker(s);
    lemma_item_marker_frames(s);
    let s3 = ConvState { at_line_start: false, at_item_start: true, ..s2 };
    lemma_frames_eq(s2, s3);
    lemma_frames_trans(s, s2, s3);
    lemma_walk_nodes_frames(s3, kids, d);
    let (s4, ok) = walk_nodes(s3, kids, d);
    if ok {
        lemma_frames_trans(s, s3, s4);
        lemma_emit_frames(s4, crate::state::nl1());
        lemma_frames_refl(s4);
        let s5 = if !s4.compressed || s4.trailing_nls == 0 {
            s4.emit(crate::state::nl1())
        } else {
            s4
        };
        lemma_frames_trans(s, s4, s5);
        lemma_frames_eq(s5, render_item(s, kids, d).0);
        lemma_frames_trans(s, s5, render_item(s, kids, d).0);
    }
}

proof fn lemma_table_frames(s: ConvState, kids: Seq<HtmlNode>, d: nat)
    ensures
        render_table(s, kids, d).1 ==> frames_same(s, render_table(s, kids, d).0),
    decreases fuel(d), 5nat, 0nat,
{
    lemma_block_frames(s);
    lemma_frames_refl(s);
    let s1 = if s.tables.len() == 0 {
        s.ensure_blank_line()
    } else {
        s
    };
    let s2 = ConvState { tables: s1.tables.push(crate::render_spec::new_table()), ..s1 };
    lemma_frames_eq(s1, s2);
    lemma_frames_trans(s, s1, s2);
    lemma_walk_nodes_frames(s2, kids, d);
    let (s3, ok) = walk_nodes(s2, kids, d);
    if ok {
        lemma_frames_trans(s, s2, s3);
        lemma_finish_table_frames(s3);
        lemma_frames_trans(s, s3, crate::table::finish_table(s3));
    }
}

proof fn lemma_thead_tr_frames(s: ConvState, kids: Seq<HtmlNode>, d: nat)
    ensures
        render_thead(s, kids, d).1 ==> frames_same(s, render_thead(s, kids, d).0),
        render_tr(s, kids, d).1 ==> frames_same(s, render_tr(s, kids, d).0),
    decreases fuel(d), 5nat, 0nat,
{
    let h = crate::render_spec::set_in_header(s, true);
    lemma_frames_eq(s, h);
    lemma_walk_nodes_frames(h, kids, d);
    let (s2, ok) = walk_nodes(h, kids, d);
    if ok {
        lemma_frames_trans(s, h, s2);
        let x = crate::render_spec::set_in_header(s2, false);
        lemma_frames_eq(s2, x);
        lemma_frames_trans(s, s2, x);
    }
    lemma_walk_nodes_frames(s, kids, d);
    let (s1, ok1) = walk_nodes(s, kids, d);
    if ok1 {
        let y = crate::render_spec::finish_row(s1);
        lemma_frames_eq(s1, y);
        lemma_frames_trans(s, s1, y);
    }
}

proof fn lemma_cell_frames(s: ConvState, th: bool, kids: Seq<HtmlNode>, d: nat)
    ensures
        render_cell(s, th, kids, d).1 ==> frames_same(s, render_cell(s, th, kids, d).0),
    decreases fuel(d), 5nat, 0nat,
{
    lemma_capture_frames(s, kids, d);
    let (s2, ok) = walk_nodes(s.enter_redirect(), kids, d);
    if ok {
        let (s3, r) = s2.leave_redirect();
        let c = crate::render_spec::add_cell(
            s3,
            th,
            crate::text::normalize_cell_spec(r.unwrap().buf),
        );
        lemma_frames_eq(s3, c);
        lemma_frames_trans(s, s3, c);
    }
}

proof fn lemma_inline_frames(s: ConvState, marker: Seq<char>, kids: Seq<HtmlNode>, d: nat)
    ensures
        render_inline(s, marker, kids, d).1 ==> frames_same(
            s,
            render_inline(s, marker, kids, d).0,
        ),
    decreases fuel(d), 5nat, 0nat,
{
    lemma_capture_frames(s, kids, d);
    let (s2, ok) = walk_nodes(s.enter_redirect(), kids, d);
    if ok {
        let (s3, r) = s2.leave_redirect();
        let buf = if s3.compressed {
            crate::text::collapse_ws(r.unwrap().buf)
        } else {
            r.unwrap().buf
        };
        if buf.len() > 0 {
            let m = crate::render_spec::chosen_marker(marker, buf);
            lemma_emit_frames(s3, m);
            lemma_raw_write_frames(s3.emit(m), buf);
            lemma_emit_frames(s3.emit(m).raw_write(buf), m);
            lemma_frames_trans(s, s3, s3.emit(m));
            lemma_frames_trans(s, s3.emit(m), s3.emit(m).raw_write(buf));
            lemma_frames_trans(s, s3.emit(m).raw_write(buf), s3.emit(m).raw_write(buf).emit(m));
        }
    }
}

proof fn lemma_code_frames(s: ConvState, kids: Seq<HtmlNode>, d: nat)
    ensures
        render_code(s, kids, d).1 ==> frames_same(s, render_code(s, kids, d).0),
    decreases fuel(d), 5nat, 0nat,
{
    if s.in_pre {
        lemma_walk_nodes_frames(s, kids, d);
    } else {
        if let Some(buf) = crate::render_spec::collect_texts(kids, d + 1) {
            lemma_code_span_frames(s, buf);
        }
    }
}

proof fn lemma_image_frames(s: ConvState, attrs: Seq<Attr>)
    ensures
        frames_same(s, render_image(s, attrs)),
{
    let s1 = s.emit(seq!['!', '[']);
    lemma_emit_frames(s, seq!['!', '[']);
    lemma_frames_refl(s1);
    let s2 = match crate::render_spec::find_attr(attrs, seq!['a', 'l', 't']) {
        Some(a) => {
            lemma_text_frames(s1, a, 0);
            s1.emit_alt(a)
        },
        None => s1,
    };
    lemma_frames_trans(s, s1, s2);
    let s3 = s2.emit(seq![']', '(']);
    lemma_emit_frames(s2, seq![']', '(']);
    lemma_frames_trans(s, s2, s3);
    lemma_frames_refl(s3);
    let s4 = match crate::render_spec::find_attr(attrs, seq!['s', 'r', 'c']) {
        Some(u) => {
            lemma_text_frames(s3, u, 0);
            s3.emit_url(u)
        },
        None => s3,
    };
    lemma_frames_trans(s, s3, s4);
    lemma_emit_frames(s4, seq![')']);
    lemma_frames_trans(s, s4, s4.emit(seq![')']));
}

proof fn lemma_link_frames(s: ConvState, attrs: Seq<Attr>, kids: Seq<HtmlNode>, d: nat)
    ensures
        render_link(s, attrs, kids, d).1 ==> frames_same(s, render_link(s, attrs, kids, d).0),
    decreases fuel(d), 5nat, 0nat,
{
    let s1 = s.emit(seq!['[']);
    lemma_emit_frames(s, seq!['[']);
    lemma_walk_inline_frames(s1, kids, d);
    let (s2, ok) = walk_inline(s1, kids, d);
    if ok {
        lemma_frames_trans(s, s1, s2);
        let s3 = s2.emit(seq![']', '(']);
        lemma_emit_frames(s2, seq![']', '(']);
        lemma_frames_trans(s, s2, s3);
        lemma_frames_refl(s3);
        let s4 = match crate::render_spec::find_attr(attrs, seq!['h', 'r', 'e', 'f']) {
            Some(h) => {
                lemma_text_frames(s3, h, 0);
                s3.emit_url(h)
            },
            None => s3,
        };
        lemma_frames_trans(s, s3, s4);
        lemma_emit_frames(s4, seq![')']);
        lemma_frames_trans(s, s4, s4.emit(seq![')']));
    }
}

proof fn lemma_rule_break_frames(s: ConvState)
    ensures
        frames_same(s, render_rule(s)),
        frames_same(s, render_break(s)),
{
    let e = s.ensure_blank_line();
    lemma_block_frames(s);
    let r = seq!['-', '-', '-', '\n'];
    lemma_emit_frames(e, r);
    lemma_frames_trans(s, e, e.emit(r));
    lemma_frames_eq(e.emit(r), render_rule(s));
    lemma_frames_trans(s, e.emit(r), render_rule(s));
    lemma_frames_refl(s);
    lemma_emit_frames(s, crate::state::nl1());
    lemma_emit_frames(s, seq![' ', ' ', '\n']);
    let s1 = if s.in_pre {
        s.emit(crate::state::nl1())
    } else if s.compressed {
        if !s.at_line_start {
            s.emit(seq![' ', ' ', '\n'])
        } else {
            s
        }
    } else {
        s.emit(seq![' ', ' ', '\n'])
    };
    lemma_frames_eq(s1, render_break(s));
    lemma_frames_trans(s, s1, render_break(s));
}

proof fn lemma_render_element_frames(
    s: ConvState,
    name: Seq<char>,
    attrs: Seq<Attr>,
    kids: Seq<HtmlNode>,
    d: nat,
)
    ensures
        render_element(s, name, attrs, kids, d).1 ==> frames_same(
            s,
            render_element(s, name, attrs, kids, d).0,
        ),
    decreases fuel(d), 6nat, 0nat,
{
    lemma_frames_refl(s);
    match tag_of(name) {
        Tag::Heading(l) => lemma_heading_frames(s, l, kids, d),
        Tag::Paragraph => lemma_paragraph_frames(s, kids, d),
        Tag::Blockquote => lemma_blockquote_frames(s, kids, d),
        Tag::Pre => lemma_pre_frames(s, kids, d),
        Tag::Rule => lemma_rule_break_frames(s),
        Tag::Break => lemma_rule_break_frames(s),
        Tag::Section => lemma_section_frames(s, kids, d),
        Tag::List(o) => lemma_list_walk_frames(s, o, attrs, kids, d),
        Tag::Item => lemma_item_frames(s, kids, d),
        Tag::Table => lemma_table_frames(s, kids, d),
        Tag::TableHead => lemma_thead_tr_frames(s, kids, d),
        Tag::TableRow => lemma_thead_tr_frames(s, kids, d),
        Tag::Cell(th) => lemma_cell_frames(s, th, kids, d),
        Tag::Strong => lemma_inline_frames(s, seq!['*', '*'], kids, d),
        Tag::Emphasis => lemma_inline_frames(s, seq!['*'], kids, d),
        Tag::Strike => lemma_inline_frames(s, seq!['~', '~'], kids, d),
        Tag::Code => lemma_code_frames(s, kids, d),
        Tag::Link => lemma_link_frames(s, attrs, kids, d),
        Tag::Image => lemma_image_frames(s, attrs),
        Tag::Skip => {},
        Tag::Other => lemma_walk_nodes_frames(s, kids, d),
    }
}


proof fn lemma_quote_line_keeps(s: ConvState, line: Seq<char>)
    ensures
        quote_line(s, line).compressed == s.compressed,
        quote_line(s, line).lists == s.lists,
{
    let s1 = s.emit(seq!['>', ' ']);
    let s2 = if line.len() > 0 {
        s1.raw_write(line)
    } else {
        s1
    };
    assert(s1.compressed == s.compressed && s1.lists == s.lists);
    assert(s2.compressed == s.compressed && s2.lists == s.lists);
}

proof fn lemma_quote_lines_keep(s: ConvState, c: Seq<char>)
    ensures
        quote_lines(s, c).compressed == s.compressed,
        quote_lines(s, c).lists == s.lists,
    decreases c.len(),
{
    let k = first_nl(c);
    lemma_quote_line_keeps(s, c.take(k as int));
    if k < c.len() {
        lemma_first_nl_len(c);
        lemma_quote_lines_keep(quote_line(s, c.take(k as int)), c.skip(k + 1int));
    }
}

/// A blockquote is closed by a blank line: in normal mode (or outside
/// lists), outside tables and not first in a list item, the output after a
/// blockquote is at the start of a line after a blank line, so text that
/// follows is never read as part of the quote.
pub proof fn lemma_blockquote_closed(s: ConvState, kids: Seq<HtmlNode>, d: nat)
    requires
        !(s.compressed && s.lists.len() > 0),
        s.tables.len() == 0,
        !s.at_item_start,
    ensures
        ({
            let (r, ok) = render_blockquote(s, kids, d);
            ok ==> r.at_line_start && r.trailing_nls >= 2
        }),
{
    let e = s.ensure_blank_line();
    crate::render_spec::lemma_ensure_blank_opens(s);
    lemma_blockquote_capture(s, kids, d);
    let s1 = e.enter_redirect();
    let s2 = ConvState { trailing_nls: 2, ..s1 };
    let (s3, ok) = walk_nodes(s2, kids, d);
    if ok {
        let (s4, r) = s3.leave_redirect();
        let content = crate::text::trim_end_nl_space(r.unwrap().buf);
        if content.len() > 0 {
            let q = quote_lines(s4, content);
            lemma_quote_lines_keep(s4, content);
            crate::render_spec::lemma_end_block_closes(q);
        }
    }
}

} // verus!
