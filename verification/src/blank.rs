//! Blank lines: outside preformatted content and code spans, the output
//! never holds more than one blank line in a row.

use vstd::prelude::*;
use crate::chars::{decimal, is_ws, lemma_decimal_start, repeat};
use crate::render_spec::{
    chosen_marker, find_attr, first_nl, fuel, item_marker, list_close, list_open,
    quote_line, quote_lines, render_blockquote, render_break, render_cell, render_element,
    render_heading, render_image, render_inline, render_item, render_link, render_list,
    render_paragraph, render_rule, render_table, render_thead, render_tr, walk_inline, walk_node,
    walk_nodes, MAX_DEPTH,
};
use crate::tags::{Tag, tag_of};
use crate::tree::{Attr, HtmlNode, attrs_view, children_of, cut_to};
use crate::state::{ConvState, TableV, RowV, nl1, nl2};
use crate::table::{
    cell_at, compact_cells, compact_row, compact_sep, compact_sep_cells, finish_table,
    padded_cells, padded_row, padded_sep, padded_sep_cells, table_lines,
};
use crate::text::{
    all_newlines, alt_fold, collapse_ws, escape_char, lemma_cell_one_line,
    lemma_collapse_ws_one_line, list_indent, normalize_cell_spec, starts_with,
    text_fold, trailing_nl, lemma_trailing_nl_bound, trim_end_nl_space, trim_start, url_escape,
    url_text,
};

verus! {

/// Whether no three newlines follow one another in `s`.
pub open spec fn no_triple_nl(s: Seq<char>) -> bool
    decreases s.len(),
{
    s.len() == 0 || (no_triple_nl(s.drop_last()) && trailing_nl(s) <= 2)
}

/// Whether `s` holds no newline.
pub open spec fn no_nl(s: Seq<char>) -> bool {
    forall|i: int| 0 <= i < s.len() ==> s[i] != '\n'
}

/// The number of newlines at the start of `s`.
pub open spec fn leading_nl(s: Seq<char>) -> nat
    decreases s.len(),
{
    if s.len() == 0 {
        0
    } else if s[0] == '\n' {
        1 + leading_nl(s.drop_first())
    } else {
        0
    }
}

pub proof fn lemma_no_nl(s: Seq<char>)
    requires
        no_nl(s),
    ensures
        no_triple_nl(s),
        trailing_nl(s) == 0,
        leading_nl(s) == 0,
        !starts_with(s, '\n'),
    decreases s.len(),
{
    if s.len() > 0 {
        assert(s.last() == s[s.len() - 1]);
        lemma_no_nl(s.drop_last());
    }
}

proof fn lemma_leading_all(s: Seq<char>)
    requires
        all_newlines(s),
    ensures
        leading_nl(s) == s.len(),
        trailing_nl(s) == s.len(),
    decreases s.len(),
{
    if s.len() > 0 {
        assert(s.last() == s[s.len() - 1]);
        assert forall|i: int| 0 <= i < s.drop_first().len() implies s.drop_first()[i] == '\n' by {
            assert(s.drop_first()[i] == s[i + 1]);
        }
        lemma_leading_all(s.drop_first());
        assert forall|i: int| 0 <= i < s.drop_last().len() implies s.drop_last()[i] == '\n' by {
            assert(s.drop_last()[i] == s[i]);
        }
        lemma_leading_all(s.drop_last());
    }
}

/// The trailing newlines of `a + b`.
proof fn lemma_trailing_concat(a: Seq<char>, b: Seq<char>)
    ensures
        trailing_nl(a + b) == if all_newlines(b) {
            trailing_nl(a) + b.len()
        } else {
            trailing_nl(b)
        },
    decreases b.len(),
{
    if b.len() == 0 {
        assert(a + b =~= a);
    } else {
        assert((a + b).drop_last() =~= a + b.drop_last());
        assert((a + b).last() == b.last());
        lemma_trailing_concat(a, b.drop_last());
        if b.last() == '\n' {
            if all_newlines(b.drop_last()) {
                assert(all_newlines(b)) by {
                    assert forall|i: int| 0 <= i < b.len() implies b[i] == '\n' by {
                        if i < b.len() - 1 {
                            assert(b.drop_last()[i] == b[i]);
                        }
                    }
                }
            } else {
                assert(!all_newlines(b)) by {
                    let j = choose|j: int| 0 <= j < b.drop_last().len() && b.drop_last()[j] != '\n';
                    assert(b[j] != '\n');
                }
            }
        } else {
            assert(!all_newlines(b)) by {
                assert(b[b.len() - 1] != '\n');
            }
        }
    }
}

proof fn lemma_leading_drop_last(b: Seq<char>)
    requires
        b.len() > 0,
    ensures
        leading_nl(b.drop_last()) <= leading_nl(b),
    decreases b.len(),
{
    if b.len() > 1 && b[0] == '\n' {
        assert(b.drop_last().drop_first() =~= b.drop_first().drop_last());
        lemma_leading_drop_last(b.drop_first());
    }
}

proof fn lemma_leading_le(b: Seq<char>)
    ensures
        leading_nl(b) <= b.len(),
        all_newlines(b) ==> leading_nl(b) == b.len(),
    decreases b.len(),
{
    if b.len() > 0 {
        lemma_leading_le(b.drop_first());
        if all_newlines(b) {
            lemma_leading_all(b);
        }
    }
}

/// Appending `b` to `a` keeps runs of newlines within two when both have
/// none longer and the run where they meet is within two.
pub proof fn lemma_no_triple_concat(a: Seq<char>, b: Seq<char>)
    requires
        no_triple_nl(a),
        no_triple_nl(b),
        trailing_nl(a) + leading_nl(b) <= 2,
    ensures
        no_triple_nl(a + b),
    decreases b.len(),
{
    if b.len() == 0 {
        assert(a + b =~= a);
    } else {
        assert((a + b).drop_last() =~= a + b.drop_last());
        lemma_leading_drop_last(b);
        lemma_no_triple_concat(a, b.drop_last());
        lemma_trailing_concat(a, b);
        lemma_leading_le(b);
    }
}

/// A prefix of a sequence without a run of three newlines has none either.
pub proof fn lemma_no_triple_prefix(s: Seq<char>, j: int)
    requires
        no_triple_nl(s),
        0 <= j <= s.len(),
    ensures
        no_triple_nl(s.take(j)),
    decreases s.len(),
{
    if j < s.len() {
        assert(s.drop_last().take(j) =~= s.take(j));
        lemma_no_triple_prefix(s.drop_last(), j);
    } else {
        assert(s.take(j) =~= s);
    }
}

/// A sequence without a run of three newlines starts and ends with at most two.
pub proof fn lemma_no_triple_ends(s: Seq<char>)
    requires
        no_triple_nl(s),
    ensures
        trailing_nl(s) <= 2,
        leading_nl(s) <= 2,
    decreases s.len(),
{
    if s.len() > 0 {
        lemma_no_triple_ends(s.drop_last());
        lemma_leading_drop_last(s);
        if leading_nl(s) > leading_nl(s.drop_last()) {
            // the leading run reaches the end: s is only newlines
            lemma_leading_is_all(s);
            lemma_leading_all(s);
        }
    }
}

proof fn lemma_leading_is_all(s: Seq<char>)
    requires
        s.len() > 0,
        leading_nl(s) > leading_nl(s.drop_last()),
    ensures
        all_newlines(s),
    decreases s.len(),
{
    if s.len() == 1 {
    } else {
        assert(s[0] == '\n');
        assert(s.drop_last().drop_first() =~= s.drop_first().drop_last());
        lemma_leading_is_all(s.drop_first());
        assert forall|i: int| 0 <= i < s.len() implies s[i] == '\n' by {
            if i > 0 {
                assert(s.drop_first()[i - 1] == s[i]);
            }
        }
    }
}


/// What the converter writes to now: the innermost capture buffer, or the output.
pub open spec fn target(s: ConvState) -> Seq<char> {
    if s.redirects.len() > 0 {
        s.redirects.last().buf
    } else {
        s.sink
    }
}

/// What capture buffer `k` interrupted: the buffer below it, or the output.
pub open spec fn below(s: ConvState, k: int) -> Seq<char> {
    if k == 0 {
        s.sink
    } else {
        s.redirects[k - 1].buf
    }
}

/// Whether no cell in `cs` holds a newline.
pub open spec fn cells_plain(cs: Seq<Seq<char>>) -> bool {
    forall|i: int| 0 <= i < cs.len() ==> no_nl(#[trigger] cs[i])
}

/// Whether no cell of a table holds a newline.
pub open spec fn table_plain(t: TableV) -> bool {
    &&& cells_plain(t.current_row)
    &&& forall|r: int| 0 <= r < t.rows.len() ==> cells_plain(#[trigger] t.rows[r].cells)
}

/// The state facts behind the blank-line law, the count of newlines aside.
pub open spec fn blank_base(s: ConvState) -> bool {
    &&& no_triple_nl(s.sink)
    &&& forall|k: int| 0 <= k < s.redirects.len() ==> no_triple_nl(#[trigger] s.redirects[k].buf)
    &&& forall|k: int|
        0 <= k < s.redirects.len() ==> (#[trigger] s.redirects[k]).saved_trailing_nls <= 2
            && trailing_nl(below(s, k)) <= s.redirects[k].saved_trailing_nls
    &&& s.compressed ==> trailing_nl(s.sink) == 0 && s.pending_nls <= 2
    &&& !s.in_pre
    &&& forall|j: int| 0 <= j < s.tables.len() ==> table_plain(#[trigger] s.tables[j])
}

/// The state facts behind the blank-line law: no run of three newlines in
/// the output or a capture buffer, and the newline count bounds the run at
/// the end of what is being written (and of each interrupted target).
pub open spec fn blank_ok(s: ConvState) -> bool {
    &&& blank_base(s)
    &&& s.trailing_nls <= 2
    &&& trailing_nl(target(s)) <= s.trailing_nls
}

/// Whether `d` may be appended in `s` without making a run of three newlines.
pub open spec fn fits_after(s: ConvState, d: Seq<char>) -> bool {
    &&& no_triple_nl(d)
    &&& trailing_nl(target(s)) + leading_nl(d) <= 2
    &&& (s.compressed && s.redirects.len() == 0) ==> (leading_nl(d) == 0 || all_newlines(d))
}

proof fn lemma_write_all_blank(s: ConvState, d: Seq<char>)
    requires
        blank_base(s),
        fits_after(s, d),
    ensures
        ({
            let w = s.write_all(d);
            &&& blank_base(w)
            &&& w.trailing_nls == s.trailing_nls
            &&& w.tables == s.tables
            &&& w.redirects.len() == s.redirects.len()
            &&& w.compressed == s.compressed
            &&& !(s.compressed && s.redirects.len() == 0) ==> target(w) == target(s) + d
            &&& (s.compressed && s.redirects.len() == 0) ==> trailing_nl(target(w)) == 0
        }),
{
    let w = s.write_all(d);
    lemma_no_triple_concat(target(s), d);
    if s.redirects.len() > 0 {
        assert forall|k: int| 0 <= k < w.redirects.len() implies no_triple_nl(
            #[trigger] w.redirects[k].buf,
        ) by {
            if k < w.redirects.len() - 1 {
                assert(w.redirects[k] == s.redirects[k]);
            }
        }
        assert forall|k: int| 0 <= k < w.redirects.len() implies (#[trigger] w.redirects[k]).saved_trailing_nls
            <= 2 && trailing_nl(below(w, k)) <= w.redirects[k].saved_trailing_nls by {
            assert(w.redirects[k].saved_trailing_nls == s.redirects[k].saved_trailing_nls);
            if k > 0 {
                assert(w.redirects[k - 1].buf == s.redirects[k - 1].buf);
            }
        }
    } else if s.compressed {
        lemma_trailing_nl_bound(d);
        let end = d.len() - trailing_nl(d);
        if end > 0 {
            let pre = if s.wrote_any {
                crate::chars::repeat('\n', s.pending_nls as nat)
            } else {
                seq![]
            };
            assert(!all_newlines(d)) by {
                assert(d[end - 1] != '\n');
            }
            lemma_no_triple_prefix(d, end);
            let dt = d.take(end);
            lemma_leading_take(d, end);
            assert(no_nl(pre) || all_newlines(pre));
            lemma_pre_newlines(s.pending_nls as nat, s.wrote_any);
            lemma_no_triple_concat(s.sink, pre);
            lemma_trailing_concat(s.sink, pre);
            lemma_no_triple_concat(s.sink + pre, dt);
            lemma_trailing_concat(s.sink + pre, dt);
            assert(dt.last() == d[end - 1]);
            assert(trailing_nl(dt) == 0);
            assert(!all_newlines(dt)) by {
                assert(dt[end - 1] != '\n');
            }
        }
    }
}

proof fn lemma_leading_take(d: Seq<char>, end: int)
    requires
        0 < end <= d.len(),
        leading_nl(d) == 0 || all_newlines(d),
        !all_newlines(d),
    ensures
        leading_nl(d.take(end)) == 0,
{
    assert(d.take(end)[0] == d[0]);
}

proof fn lemma_pre_newlines(p: nat, wrote: bool)
    requires
        p <= 2,
    ensures
        ({
            let pre = if wrote {
                crate::chars::repeat('\n', p)
            } else {
                seq![]
            };
            &&& no_triple_nl(pre)
            &&& all_newlines(pre)
            &&& leading_nl(pre) == pre.len()
            &&& trailing_nl(pre) == pre.len()
            &&& pre.len() <= 2
        }),
{
    let pre = if wrote {
        crate::chars::repeat('\n', p)
    } else {
        seq![]
    };
    lemma_leading_all(pre);
    reveal_with_fuel(no_triple_nl, 3);
    if pre.len() == 2 {
        assert(pre.drop_last().drop_last().len() == 0);
    }
}


/// Text that may be emitted: only newlines, or not starting with a newline
/// and without a run of three.
pub open spec fn emittable(t: Seq<char>) -> bool {
    all_newlines(t) || (!starts_with(t, '\n') && no_triple_nl(t))
}

proof fn lemma_space_blank(s: ConvState, t: Seq<char>)
    requires
        blank_ok(s),
    ensures
        blank_ok(s.emit_space(t)),
        s.emit_space(t).tables == s.tables,
{
    if s.pending_space && !starts_with(t, '\n') && !starts_with(t, ' ') {
        let s0 = ConvState { pending_space: false, ..s };
        let sp = seq![' '];
        assert(no_nl(sp));
        lemma_no_nl(sp);
        assert(!all_newlines(sp)) by {
            assert(sp[0] != '\n');
        }
        lemma_write_all_blank(s0, sp);
        lemma_trailing_concat(target(s0), sp);
    }
}

proof fn lemma_newlines_blank(s: ConvState, t: Seq<char>)
    requires
        blank_ok(s),
        all_newlines(t),
    ensures
        blank_ok(s.emit_newlines(t)),
        s.emit_newlines(t).tables == s.tables,
{
    let k = s.newlines_to_write(t);
    if k > 0 {
        let part = t.take(k);
        assert(all_newlines(part)) by {
            assert forall|i: int| 0 <= i < part.len() implies part[i] == '\n' by {
                assert(part[i] == t[i]);
            }
        }
        lemma_leading_all(part);
        lemma_pre_newlines(k as nat, true);
        assert(part =~= crate::chars::repeat('\n', k as nat));
        lemma_write_all_blank(s, part);
        lemma_trailing_concat(target(s), part);
    }
}

proof fn lemma_content_blank(s: ConvState, t: Seq<char>)
    requires
        blank_ok(s),
        t.len() > 0,
        !starts_with(t, '\n'),
        !all_newlines(t),
        no_triple_nl(t),
    ensures
        blank_ok(s.emit_content(t)),
        s.emit_content(t).tables == s.tables,
{
    assert(leading_nl(t) == 0);
    lemma_write_all_blank(s, t);
    lemma_trailing_concat(target(s), t);
    lemma_no_triple_ends(t);
    lemma_trailing_nl_bound(t);
    assert(trailing_nl(t) < t.len()) by {
        if trailing_nl(t) == t.len() {
            assert forall|i: int| 0 <= i < t.len() implies t[i] == '\n' by {}
        }
    }
    if trailing_nl(t) > 0 {
        assert(t.last() == '\n');
    }
}

/// Emitting keeps the blank-line facts.
pub proof fn lemma_emit_blank(s: ConvState, t: Seq<char>)
    requires
        blank_ok(s),
        emittable(t),
    ensures
        blank_ok(s.emit(t)),
        s.emit(t).tables == s.tables,
{
    lemma_space_blank(s, t);
    let s1 = s.emit_space(t);
    if all_newlines(t) {
        lemma_newlines_blank(s1, t);
    } else {
        lemma_content_blank(s1, t);
    }
}

/// Writing captured content keeps the blank-line facts when it fits.
pub proof fn lemma_raw_write_blank(s: ConvState, d: Seq<char>)
    requires
        blank_ok(s),
        fits_after(s, d),
    ensures
        blank_ok(s.raw_write(d)),
        s.raw_write(d).tables == s.tables,
{
    if d.len() > 0 {
        lemma_write_all_blank(s, d);
        lemma_trailing_concat(target(s), d);
        lemma_no_triple_ends(d);
        lemma_trailing_nl_bound(d);
        lemma_leading_le(d);
        if all_newlines(d) {
            lemma_leading_all(d);
        } else {
            assert(trailing_nl(d) < d.len()) by {
                if trailing_nl(d) == d.len() {
                    assert forall|i: int| 0 <= i < d.len() implies d[i] == '\n' by {}
                }
            }
        }
    }
}

/// Entering and leaving a capture buffer keep the blank-line facts, and the
/// buffer handed back has no run of three newlines.
pub proof fn lemma_redirect_blank(s: ConvState)
    ensures
        blank_ok(s) ==> blank_ok(s.enter_redirect()),
        blank_ok(s) ==> blank_ok(s.leave_redirect().0),
        blank_ok(s) ==> (s.leave_redirect().1 matches Some(r) ==> no_triple_nl(r.buf)),
        s.enter_redirect().tables == s.tables,
        s.leave_redirect().0.tables == s.tables,
{
    if blank_ok(s) {
        let e = s.enter_redirect();
        assert(e.redirects.last().buf.len() == 0);
        assert forall|k: int| 0 <= k < e.redirects.len() implies no_triple_nl(
            #[trigger] e.redirects[k].buf,
        ) by {
            if k < s.redirects.len() {
                assert(e.redirects[k] == s.redirects[k]);
            }
        }
        assert forall|k: int| 0 <= k < e.redirects.len() implies (#[trigger] e.redirects[k]).saved_trailing_nls
            <= 2 && trailing_nl(below(e, k)) <= e.redirects[k].saved_trailing_nls by {
            if k < s.redirects.len() {
                assert(e.redirects[k] == s.redirects[k]);
                if k > 0 {
                    assert(e.redirects[k - 1] == s.redirects[k - 1]);
                }
            } else if k > 0 {
                assert(e.redirects[k - 1] == s.redirects[k - 1]);
            }
        }
        if s.redirects.len() > 0 {
            let l = s.leave_redirect().0;
            let n = s.redirects.len();
            assert forall|k: int| 0 <= k < l.redirects.len() implies no_triple_nl(
                #[trigger] l.redirects[k].buf,
            ) by {
                assert(l.redirects[k] == s.redirects[k]);
            }
            assert forall|k: int| 0 <= k < l.redirects.len() implies (#[trigger] l.redirects[k]).saved_trailing_nls
                <= 2 && trailing_nl(below(l, k)) <= l.redirects[k].saved_trailing_nls by {
                assert(l.redirects[k] == s.redirects[k]);
                if k > 0 {
                    assert(l.redirects[k - 1] == s.redirects[k - 1]);
                }
            }
            assert(s.redirects[n - 1].saved_trailing_nls <= 2);
            if n > 1 {
                assert(l.redirects.last() == s.redirects[n - 2]);
            }
        }
    }
}


pub proof fn lemma_no_nl_concat(a: Seq<char>, b: Seq<char>)
    requires
        no_nl(a),
        no_nl(b),
    ensures
        no_nl(a + b),
{
    assert forall|i: int| 0 <= i < (a + b).len() implies (a + b)[i] != '\n' by {
        if i < a.len() {
            assert((a + b)[i] == a[i]);
        } else {
            assert((a + b)[i] == b[i - a.len()]);
        }
    }
}

proof fn lemma_no_nl_emittable(t: Seq<char>)
    requires
        no_nl(t),
    ensures
        emittable(t),
{
    lemma_no_nl(t);
}

proof fn lemma_line_emittable(x: Seq<char>)
    requires
        no_nl(x),
        x.len() > 0,
    ensures
        emittable(x + seq!['\n']),
{
    let nl = seq!['\n'];
    lemma_no_nl(x);
    assert(all_newlines(nl));
    lemma_leading_all(nl);
    lemma_pre_newlines(1, true);
    assert(nl =~= repeat('\n', 1));
    lemma_no_triple_concat(x, nl);
    assert((x + nl)[0] == x[0]);
}

proof fn lemma_nl_emittable()
    ensures
        emittable(nl1()),
        emittable(nl2()),
{
    assert(all_newlines(nl1()));
    assert(all_newlines(nl2()));
}

/// Starting a block keeps the blank-line facts.
pub proof fn lemma_ensure_blank_blank(s: ConvState)
    requires
        blank_ok(s),
    ensures
        blank_ok(s.ensure_blank_line()),
        s.ensure_blank_line().tables == s.tables,
{
    lemma_nl_emittable();
    let s1 = ConvState { pending_space: false, ..s };
    if s1.tables.len() == 0 && !s1.at_item_start {
        if s1.trailing_nls == 0 {
            lemma_emit_blank(s1, nl1());
            lemma_emit_blank(s1, nl2());
        } else if s1.trailing_nls == 1 {
            lemma_emit_blank(s1, nl1());
        }
    }
}

/// Closing a block keeps the blank-line facts.
pub proof fn lemma_end_block_blank(s: ConvState)
    requires
        blank_ok(s),
    ensures
        blank_ok(s.end_block()),
        s.end_block().tables == s.tables,
{
    lemma_nl_emittable();
    if s.tight_block() {
        if s.trailing_nls == 0 {
            lemma_emit_blank(s, nl1());
        }
    } else {
        lemma_emit_blank(s, nl2());
    }
}

proof fn lemma_text_fold_no_nl(t: Seq<char>, b: bool)
    ensures
        no_nl(text_fold(t, b).0),
    decreases t.len(),
{
    if t.len() > 0 {
        lemma_text_fold_no_nl(t.drop_last(), b);
        let (o, first, last_ws) = text_fold(t.drop_last(), b);
        let c = t.last();
        if !is_ws(c) {
            assert(c != '\n');
            let (o1, first1) = if last_ws {
                (o.push(' '), false)
            } else {
                (o, first)
            };
            assert(no_nl(o1));
            assert(no_nl(escape_char(c, first1)));
            lemma_no_nl_concat(o1, escape_char(c, first1));
        }
    }
}

proof fn lemma_alt_fold_no_nl(t: Seq<char>)
    ensures
        no_nl(alt_fold(t).0),
    decreases t.len(),
{
    if t.len() > 0 {
        lemma_alt_fold_no_nl(t.drop_last());
        let c = t.last();
        assert(is_ws('\n'));
    }
}

proof fn lemma_url_escape_no_nl(u: Seq<char>)
    requires
        no_nl(u),
    ensures
        no_nl(url_escape(u)),
    decreases u.len(),
{
    if u.len() > 0 {
        assert(no_nl(u.drop_last()));
        lemma_url_escape_no_nl(u.drop_last());
        let c = u.last();
        assert(c == u[u.len() - 1]);
        let e = if c == '<' || c == '>' || c == '`' {
            seq!['\\', c]
        } else {
            seq![c]
        };
        assert(no_nl(e));
        lemma_no_nl_concat(url_escape(u.drop_last()), e);
    }
}

/// Text, alt text, link destinations and numbers keep the blank-line facts.
pub proof fn lemma_inline_text_blank(s: ConvState, t: Seq<char>, n: u32)
    requires
        blank_ok(s),
    ensures
        blank_ok(s.emit_text(t)),
        s.emit_text(t).tables == s.tables,
        no_nl(t) ==> blank_ok(s.emit_alt(t)) && s.emit_alt(t).tables == s.tables,
        no_nl(t) ==> blank_ok(s.emit_url(t)) && s.emit_url(t).tables == s.tables,
        blank_ok(s.emit_u32(n)),
        s.emit_u32(n).tables == s.tables,
{
    let lead = s.at_line_start || s.at_item_start;
    let t1 = if lead {
        trim_start(t)
    } else {
        t
    };
    lemma_text_fold_no_nl(t1, s.at_line_start);
    lemma_no_nl_emittable(text_fold(t1, s.at_line_start).0);
    lemma_emit_blank(s, text_fold(t1, s.at_line_start).0);
    let f = text_fold(t1, s.at_line_start);
    let s1 = if f.0.len() > 0 {
        s.emit(f.0)
    } else {
        s
    };
    assert(blank_ok(ConvState { pending_space: true, ..s1 }));
    if no_nl(t) {
        lemma_no_nl_emittable(t);
        lemma_emit_blank(s, t);
        lemma_alt_fold_no_nl(t);
        lemma_no_nl_emittable(alt_fold(t).0);
        lemma_emit_blank(s, alt_fold(t).0);
        lemma_url_escape_no_nl(t);
        let w = seq!['<'] + url_escape(t) + seq!['>'];
        lemma_no_nl_concat(seq!['<'], url_escape(t));
        lemma_no_nl_concat(seq!['<'] + url_escape(t), seq!['>']);
        lemma_no_nl_emittable(url_text(t));
        lemma_emit_blank(s, url_text(t));
    }
    lemma_decimal_start(n as nat);
    lemma_decimal_no_nl(n as nat);
    lemma_no_nl(decimal(n as nat));
    lemma_write_all_blank(s, decimal(n as nat));
    lemma_trailing_concat(target(s), decimal(n as nat));
    assert(!all_newlines(decimal(n as nat))) by {
        assert(decimal(n as nat)[0] != '\n');
    }
}

proof fn lemma_decimal_no_nl(n: nat)
    ensures
        no_nl(decimal(n)),
    decreases n,
{
    if n >= 10 {
        lemma_decimal_no_nl(n / 10);
        assert(decimal(n) == decimal(n / 10).push(crate::chars::digit(n % 10)));
        assert((48 + n % 10) as u8 == 48 + n % 10);
    } else {
        assert((48 + n) as u8 == 48 + n);
    }
}


proof fn lemma_first_nl(c: Seq<char>)
    ensures
        first_nl(c) <= c.len(),
        no_nl(c.take(first_nl(c) as int)),
        first_nl(c) < c.len() ==> c[first_nl(c) as int] == '\n',
    decreases c.len(),
{
    if c.len() > 0 && c[0] != '\n' {
        lemma_first_nl(c.drop_first());
        let k = first_nl(c);
        assert forall|i: int| 0 <= i < k implies c.take(k as int)[i] != '\n' by {
            if i > 0 {
                assert(c.take(k as int)[i] == c.drop_first().take(k - 1)[i - 1]);
            }
        }
        if k < c.len() {
            assert(c[k as int] == c.drop_first()[k - 1]);
        }
    }
}

/// Quoting lines keeps the blank-line facts.
pub proof fn lemma_quote_blank(s: ConvState, c: Seq<char>)
    requires
        blank_ok(s),
    ensures
        blank_ok(quote_lines(s, c)),
        quote_lines(s, c).tables == s.tables,
    decreases c.len(),
{
    let k = first_nl(c);
    lemma_first_nl(c);
    let line = c.take(k as int);
    let gt = seq!['>', ' '];
    assert(no_nl(gt));
    lemma_no_nl_emittable(gt);
    lemma_emit_blank(s, gt);
    let s1 = s.emit(gt);
    assert(!all_newlines(gt)) by {
        assert(gt[0] != '\n');
    }
    assert(trailing_nl(gt) == 0) by {
        lemma_no_nl(gt);
    }
    assert(s1.trailing_nls == 0);
    lemma_no_nl(line);
    let s2 = if line.len() > 0 {
        lemma_raw_write_blank(s1, line);
        s1.raw_write(line)
    } else {
        s1
    };
    lemma_nl_emittable();
    lemma_emit_blank(s2, nl1());
    if k < c.len() {
        lemma_quote_blank(quote_line(s, line), c.skip(k + 1int));
    }
}

/// A list item's marker keeps the blank-line facts.
#[verifier::spinoff_prover]
#[verifier::rlimit(50)]
pub proof fn lemma_item_marker_blank(s: ConvState)
    requires
        blank_ok(s),
    ensures
        blank_ok(item_marker(s)),
        item_marker(s).tables == s.tables,
{
    let n = s.lists.len();
    let s1 = if n >= 2 {
        let ind = list_indent((n - 1) as nat);
        assert(no_nl(ind));
        lemma_no_nl_emittable(ind);
        lemma_emit_blank(s, ind);
        s.emit(ind)
    } else {
        s
    };
    let dash = seq!['-', ' '];
    let dot = seq!['.', ' '];
    assert(no_nl(dash) && no_nl(dot));
    lemma_no_nl_emittable(dash);
    lemma_no_nl_emittable(dot);
    if s1.lists.len() > 0 && s1.lists.last().ordered {
        let info = s1.lists.last();
        let s1b = ConvState {
            lists: s1.lists.drop_last().push(
                crate::state::ListInfo {
                    counter: crate::render_spec::next_counter(info.counter),
                    ..info
                },
            ),
            ..s1
        };
        lemma_inline_text_blank(s1b, seq![], info.counter);
        lemma_emit_blank(s1b.emit_u32(info.counter), dot);
    } else {
        lemma_emit_blank(s1, dash);
    }
}

/// Opening a list keeps the blank-line facts.
pub proof fn lemma_list_open_blank(s: ConvState, ordered: bool, attrs: Seq<crate::tree::Attr>)
    requires
        blank_ok(s),
    ensures
        blank_ok(list_open(s, ordered, attrs)),
        list_open(s, ordered, attrs).tables == s.tables,
{
    lemma_nl_emittable();
    let s1 = if s.lists.len() == 0 {
        lemma_ensure_blank_blank(s);
        s.ensure_blank_line()
    } else if !s.at_line_start {
        lemma_emit_blank(s, nl1());
        s.emit(nl1())
    } else {
        s
    };
    assert(blank_ok(s1) && s1.tables == s.tables);
    assert(list_open(s, ordered, attrs).tables == s1.tables);
}

/// Closing a list keeps the blank-line facts.
pub proof fn lemma_list_close_blank(s: ConvState)
    requires
        blank_ok(s),
    ensures
        blank_ok(list_close(s)),
        list_close(s).tables == s.tables,
{
    lemma_nl_emittable();
    let s4 = ConvState {
        lists: if s.lists.len() > 0 {
            s.lists.drop_last()
        } else {
            s.lists
        },
        ..s
    };
    lemma_emit_blank(s4, nl1());
}


proof fn lemma_cell_at_no_nl(cells: Seq<Seq<char>>, i: int)
    requires
        cells_plain(cells),
    ensures
        no_nl(cell_at(cells, i)),
{
    if 0 <= i < cells.len() {
        assert(no_nl(cells[i]));
    }
}

proof fn lemma_table_lines_no_nl(cells: Seq<Seq<char>>, widths: Seq<usize>, k: nat)
    requires
        cells_plain(cells),
        k <= widths.len(),
    ensures
        no_nl(compact_cells(cells, k)),
        no_nl(compact_sep_cells(k)),
        no_nl(padded_cells(cells, widths, k)),
        no_nl(padded_sep_cells(widths, k)),
    decreases k,
{
    if k > 0 {
        lemma_table_lines_no_nl(cells, widths, (k - 1) as nat);
        let c = cell_at(cells, k - 1);
        lemma_cell_at_no_nl(cells, k - 1);
        let k1 = (k - 1) as nat;
        lemma_no_nl_concat(compact_cells(cells, k1), seq!['|']);
        lemma_no_nl_concat(compact_cells(cells, k1) + seq!['|'], c);
        lemma_no_nl_concat(compact_sep_cells(k1), seq!['|', '-']);
        let p = crate::table::pad_len(widths[k - 1], crate::table::text_width(c));
        assert(no_nl(repeat(' ', p)));
        lemma_no_nl_concat(padded_cells(cells, widths, k1), seq![' ']);
        lemma_no_nl_concat(padded_cells(cells, widths, k1) + seq![' '], c);
        lemma_no_nl_concat(padded_cells(cells, widths, k1) + seq![' '] + c, repeat(' ', p));
        lemma_no_nl_concat(
            padded_cells(cells, widths, k1) + seq![' '] + c + repeat(' ', p),
            seq![' ', '|'],
        );
        assert(no_nl(repeat('-', widths[k - 1] as nat)));
        lemma_no_nl_concat(padded_sep_cells(widths, k1), seq![' ']);
        lemma_no_nl_concat(
            padded_sep_cells(widths, k1) + seq![' '],
            repeat('-', widths[k - 1] as nat),
        );
        lemma_no_nl_concat(
            padded_sep_cells(widths, k1) + seq![' '] + repeat('-', widths[k - 1] as nat),
            seq![' ', '|'],
        );
    }
}

proof fn lemma_table_line_emittable(cells: Seq<Seq<char>>, widths: Seq<usize>, ncols: nat)
    requires
        cells_plain(cells),
        ncols <= widths.len(),
    ensures
        emittable(compact_row(cells, ncols)),
        emittable(compact_sep(ncols)),
        emittable(padded_row(cells, widths, ncols)),
        emittable(padded_sep(widths, ncols)),
{
    lemma_table_lines_no_nl(cells, widths, ncols);
    lemma_no_nl_concat(compact_cells(cells, ncols), seq!['|']);
    lemma_line_emittable(compact_cells(cells, ncols) + seq!['|']);
    assert(compact_row(cells, ncols) =~= compact_cells(cells, ncols) + seq!['|'] + seq!['\n']);
    lemma_no_nl_concat(compact_sep_cells(ncols), seq!['|']);
    lemma_line_emittable(compact_sep_cells(ncols) + seq!['|']);
    assert(compact_sep(ncols) =~= compact_sep_cells(ncols) + seq!['|'] + seq!['\n']);
    lemma_no_nl_concat(seq!['|'], padded_cells(cells, widths, ncols));
    lemma_line_emittable(seq!['|'] + padded_cells(cells, widths, ncols));
    lemma_no_nl_concat(seq!['|'], padded_sep_cells(widths, ncols));
    lemma_line_emittable(seq!['|'] + padded_sep_cells(widths, ncols));
}

proof fn lemma_table_lines_blank(
    s: ConvState,
    rows: Seq<RowV>,
    ncols: nat,
    widths: Seq<usize>,
    has_header: bool,
    i: nat,
)
    requires
        blank_ok(s),
        ncols <= widths.len(),
        forall|r: int| 0 <= r < rows.len() ==> cells_plain(#[trigger] rows[r].cells),
    ensures
        blank_ok(table_lines(s, rows, ncols, widths, has_header, i)),
        table_lines(s, rows, ncols, widths, has_header, i).tables == s.tables,
    decreases rows.len() - i,
{
    if i < rows.len() {
        let row = rows[i as int];
        assert(cells_plain(row.cells));
        lemma_table_line_emittable(row.cells, widths, ncols);
        let line = if s.compressed {
            compact_row(row.cells, ncols)
        } else {
            padded_row(row.cells, widths, ncols)
        };
        lemma_emit_blank(s, line);
        let s1 = s.emit(line);
        let sep = if s1.compressed {
            compact_sep(ncols)
        } else {
            padded_sep(widths, ncols)
        };
        lemma_emit_blank(s1, sep);
        let s2 = if row.is_header || (!has_header && i == 0) {
            s1.emit(sep)
        } else {
            s1
        };
        lemma_table_lines_blank(s2, rows, ncols, widths, has_header, i + 1);
    }
}

/// Writing out a finished table keeps the blank-line facts.
pub proof fn lemma_finish_table_blank(s: ConvState)
    requires
        blank_ok(s),
    ensures
        blank_ok(finish_table(s)),
{
    let s1 = ConvState { pending_space: false, ..s };
    if s1.tables.len() > 0 {
        let t = s1.tables.last();
        assert(table_plain(s.tables[s.tables.len() - 1]));
        let s2 = ConvState { tables: s1.tables.drop_last(), ..s1 };
        assert forall|j: int| 0 <= j < s2.tables.len() implies table_plain(#[trigger] s2.tables[j]) by {
            assert(s2.tables[j] == s.tables[j]);
        }
        if t.rows.len() > 0 {
            let ncols = crate::table::max_cols(t.rows);
            let widths = crate::table::col_widths(t.rows, ncols);
            lemma_table_lines_blank(s2, t.rows, ncols, widths, crate::table::any_header(t.rows), 0);
            lemma_end_block_blank(
                table_lines(s2, t.rows, ncols, widths, crate::table::any_header(t.rows), 0),
            );
        }
    }
}


/// The table bookkeeping keeps the blank-line facts (a cell without newlines).
pub proof fn lemma_table_state_blank(s: ConvState, b: bool, is_th: bool, cell: Seq<char>)
    requires
        blank_ok(s),
    ensures
        blank_ok(crate::render_spec::set_in_header(s, b)),
        blank_ok(crate::render_spec::finish_row(s)),
        no_nl(cell) ==> blank_ok(crate::render_spec::add_cell(s, is_th, cell)),
        blank_ok(ConvState { tables: s.tables.push(crate::render_spec::new_table()), ..s }),
{
    let n = s.tables.len();
    if n > 0 {
        let t = s.tables.last();
        assert(table_plain(s.tables[n - 1]));
        let h = crate::render_spec::set_in_header(s, b);
        assert forall|j: int| 0 <= j < h.tables.len() implies table_plain(#[trigger] h.tables[j]) by {
            if j < n - 1 {
                assert(h.tables[j] == s.tables[j]);
            }
        }
        let f = crate::render_spec::finish_row(s);
        assert forall|j: int| 0 <= j < f.tables.len() implies table_plain(#[trigger] f.tables[j]) by {
            if j < n - 1 {
                assert(f.tables[j] == s.tables[j]);
            } else if t.current_row.len() > 0 {
                let u = f.tables[j];
                assert forall|r: int| 0 <= r < u.rows.len() implies cells_plain(#[trigger] u.rows[r].cells) by {
                    if r < t.rows.len() {
                        assert(u.rows[r] == t.rows[r]);
                    }
                }
            }
        }
        if no_nl(cell) {
            let a = crate::render_spec::add_cell(s, is_th, cell);
            assert forall|j: int| 0 <= j < a.tables.len() implies table_plain(#[trigger] a.tables[j]) by {
                if j < n - 1 {
                    assert(a.tables[j] == s.tables[j]);
                } else {
                    let u = a.tables[j];
                    assert forall|i: int| 0 <= i < u.current_row.len() implies no_nl(#[trigger] u.current_row[i]) by {
                        if i < t.current_row.len() {
                            assert(u.current_row[i] == t.current_row[i]);
                        }
                    }
                }
            }
        }
    }
    let p = ConvState { tables: s.tables.push(crate::render_spec::new_table()), ..s };
    assert forall|j: int| 0 <= j < p.tables.len() implies table_plain(#[trigger] p.tables[j]) by {
        if j < n {
            assert(p.tables[j] == s.tables[j]);
        }
    }
}


/// Whether a tree holds no preformatted block, no code span and no attribute
/// value with a newline.
pub open spec fn plain_node(n: HtmlNode) -> bool
    decreases n,
{
    match n {
        HtmlNode::Document { children } => plain_nodes(children@),
        HtmlNode::Element { name, attrs, children } => !(tag_of(name@) is Pre) && !(tag_of(
            name@,
        ) is Code) && attrs_plain(attrs@) && plain_nodes(children@),
        _ => true,
    }
}

/// Whether every tree of `s` is plain (see [`plain_node`]).
pub open spec fn plain_nodes(s: Seq<HtmlNode>) -> bool
    decreases s,
{
    s.len() > 0 ==> plain_node(s[0]) && plain_nodes(s.drop_first())
}

/// Whether no attribute value holds a newline.
pub open spec fn attrs_plain(a: Seq<Attr>) -> bool {
    forall|i: int| 0 <= i < a.len() ==> no_nl(#[trigger] a[i].value@)
}

proof fn lemma_find_attr_plain(a: Seq<Attr>, name: Seq<char>)
    requires
        attrs_plain(a),
    ensures
        find_attr(a, name) matches Some(v) ==> no_nl(v),
    decreases a.len(),
{
    if a.len() > 0 {
        assert(no_nl(a[0].value@));
        assert forall|i: int| 0 <= i < a.drop_first().len() implies no_nl(
            #[trigger] a.drop_first()[i].value@,
        ) by {
            assert(a.drop_first()[i] == a[i + 1]);
        }
        lemma_find_attr_plain(a.drop_first(), name);
    }
}

proof fn lemma_collapse_no_nl(b: Seq<char>)
    ensures
        no_nl(collapse_ws(b)),
{
    lemma_collapse_ws_one_line(b);
    let r = collapse_ws(b);
    assert forall|i: int| 0 <= i < r.len() implies r[i] != '\n' by {
        if r[i] != ' ' {
            assert(!crate::chars::is_ascii_ws(r[i]));
        }
    }
}

proof fn lemma_cell_no_nl(b: Seq<char>)
    ensures
        no_nl(normalize_cell_spec(b)),
{
    lemma_cell_one_line(b);
    let r = normalize_cell_spec(b);
    assert(is_ws('\n'));
    assert forall|i: int| 0 <= i < r.len() implies r[i] != '\n' by {
        if r[i] != ' ' {
            assert(!is_ws(r[i]));
        }
    }
}

proof fn lemma_walk_node_blank(s: ConvState, n: HtmlNode, d: nat)
    requires
        blank_ok(s),
        plain_node(n),
    ensures
        blank_ok(walk_node(s, n, d).0),
    decreases fuel(d), 0nat, 0nat,
{
    if d + 1 <= MAX_DEPTH {
        match n {
            HtmlNode::Document { children } => {
                lemma_walk_nodes_blank(s, children@, d + 1);
            },
            HtmlNode::Text { contents } => {
                lemma_inline_text_blank(s, contents@, 0);
            },
            HtmlNode::Element { name, attrs, children } => {
                lemma_render_element_blank(s, name@, attrs@, children@, d + 1);
            },
            _ => {},
        }
    }
}

proof fn lemma_walk_nodes_blank(s: ConvState, kids: Seq<HtmlNode>, d: nat)
    requires
        blank_ok(s),
        plain_nodes(kids),
    ensures
        blank_ok(walk_nodes(s, kids, d).0),
    decreases fuel(d), 2nat, kids.len(),
{
    if kids.len() > 0 {
        lemma_walk_node_blank(s, kids[0], d);
        let (s1, ok) = walk_node(s, kids[0], d);
        if ok {
            lemma_walk_nodes_blank(s1, kids.drop_first(), d);
        }
    }
}

proof fn lemma_walk_inline_blank(s: ConvState, kids: Seq<HtmlNode>, d: nat)
    requires
        blank_ok(s),
        plain_nodes(kids),
    ensures
        blank_ok(walk_inline(s, kids, d).0),
    decreases fuel(d), 4nat, 0nat,
{
    if !s.compressed {
        lemma_walk_nodes_blank(s, kids, d);
    } else {
        lemma_redirect_blank(s);
        let e = s.enter_redirect();
        lemma_walk_nodes_blank(e, kids, d);
        let (s2, ok) = walk_nodes(e, kids, d);
        lemma_redirect_blank(s2);
        let (s3, r) = s2.leave_redirect();
        if let Some(r) = r {
            let b = collapse_ws(r.buf);
            lemma_collapse_no_nl(r.buf);
            lemma_no_nl(b);
            lemma_raw_write_blank(s3, b);
        }
    }
}

proof fn lemma_capture_blank(s: ConvState, kids: Seq<HtmlNode>, d: nat)
    requires
        blank_ok(s),
        plain_nodes(kids),
    ensures
        blank_ok(walk_nodes(s.enter_redirect(), kids, d).0),
        blank_ok(walk_nodes(s.enter_redirect(), kids, d).0.leave_redirect().0),
        walk_nodes(s.enter_redirect(), kids, d).0.leave_redirect().1 matches Some(r)
            ==> no_triple_nl(r.buf),
    decreases fuel(d), 3nat, 0nat,
{
    lemma_redirect_blank(s);
    lemma_walk_nodes_blank(s.enter_redirect(), kids, d);
    lemma_redirect_blank(walk_nodes(s.enter_redirect(), kids, d).0);
}

#[verifier::spinoff_prover]
#[verifier::rlimit(50)]
proof fn lemma_inline_marker_blank(s: ConvState, marker: Seq<char>, kids: Seq<HtmlNode>, d: nat)
    requires
        blank_ok(s),
        plain_nodes(kids),
        marker == seq!['*', '*'] || marker == seq!['*'] || marker == seq!['~', '~'],
    ensures
        blank_ok(render_inline(s, marker, kids, d).0),
    decreases fuel(d), 5nat, 0nat,
{
    lemma_capture_blank(s, kids, d);
    let (s2, ok) = walk_nodes(s.enter_redirect(), kids, d);
    if ok {
        let (s3, r) = s2.leave_redirect();
        if let Some(r) = r {
            let buf = if s3.compressed {
                collapse_ws(r.buf)
            } else {
                r.buf
            };
            if s3.compressed {
                lemma_collapse_no_nl(r.buf);
                lemma_no_nl(buf);
            }
            if buf.len() > 0 {
                let m = chosen_marker(marker, buf);
                assert(no_nl(m));
                assert(m.len() > 0);
                lemma_no_nl(m);
                lemma_no_nl_emittable(m);
                lemma_emit_blank(s3, m);
                let s4 = s3.emit(m);
                assert(!all_newlines(m)) by {
                    assert(m[0] != '\n');
                }
                assert(s4.trailing_nls == 0);
                lemma_no_triple_ends(buf);
                lemma_raw_write_blank(s4, buf);
                lemma_emit_blank(s4.raw_write(buf), m);
            }
        }
    }
}


proof fn lemma_heading_blank(s: ConvState, l: u8, kids: Seq<HtmlNode>, d: nat)
    requires
        blank_ok(s),
        plain_nodes(kids),
    ensures
        blank_ok(render_heading(s, l, kids, d).0),
    decreases fuel(d), 5nat, 0nat,
{
    lemma_ensure_blank_blank(s);
    let s0 = s.ensure_blank_line();
    let h = repeat('#', l as nat);
    assert(no_nl(h));
    lemma_no_nl_emittable(h);
    lemma_emit_blank(s0, h);
    let sp = seq![' '];
    assert(no_nl(sp));
    lemma_no_nl_emittable(sp);
    lemma_emit_blank(s0.emit(h), sp);
    let s1 = s0.emit(h).emit(sp);
    lemma_walk_inline_blank(s1, kids, d);
    lemma_end_block_blank(walk_inline(s1, kids, d).0);
}

proof fn lemma_paragraph_blank(s: ConvState, kids: Seq<HtmlNode>, d: nat)
    requires
        blank_ok(s),
        plain_nodes(kids),
    ensures
        blank_ok(render_paragraph(s, kids, d).0),
    decreases fuel(d), 5nat, 0nat,
{
    lemma_walk_nodes_blank(s, kids, d);
    lemma_ensure_blank_blank(s);
    lemma_walk_nodes_blank(s.ensure_blank_line(), kids, d);
    lemma_end_block_blank(walk_nodes(s.ensure_blank_line(), kids, d).0);
}

proof fn lemma_blockquote_blank(s: ConvState, kids: Seq<HtmlNode>, d: nat)
    requires
        blank_ok(s),
        plain_nodes(kids),
    ensures
        blank_ok(render_blockquote(s, kids, d).0),
    decreases fuel(d), 5nat, 0nat,
{
    lemma_ensure_blank_blank(s);
    lemma_redirect_blank(s.ensure_blank_line());
    let s1 = s.ensure_blank_line().enter_redirect();
    let s2 = ConvState { trailing_nls: 2, ..s1 };
    assert(blank_ok(s2));
    lemma_walk_nodes_blank(s2, kids, d);
    let (s3, ok) = walk_nodes(s2, kids, d);
    lemma_redirect_blank(s3);
    let (s4, r) = s3.leave_redirect();
    if let Some(r) = r {
        let content = trim_end_nl_space(r.buf);
        lemma_quote_blank(s4, content);
        lemma_end_block_blank(quote_lines(s4, content));
    }
}

proof fn lemma_list_blank(s: ConvState, o: bool, attrs: Seq<Attr>, kids: Seq<HtmlNode>, d: nat)
    requires
        blank_ok(s),
        plain_nodes(kids),
    ensures
        blank_ok(render_list(s, o, attrs, kids, d).0),
    decreases fuel(d), 5nat, 0nat,
{
    lemma_list_open_blank(s, o, attrs);
    lemma_walk_nodes_blank(list_open(s, o, attrs), kids, d);
    lemma_list_close_blank(walk_nodes(list_open(s, o, attrs), kids, d).0);
}

proof fn lemma_item_blank(s: ConvState, kids: Seq<HtmlNode>, d: nat)
    requires
        blank_ok(s),
        plain_nodes(kids),
    ensures
        blank_ok(render_item(s, kids, d).0),
    decreases fuel(d), 5nat, 0nat,
{
    lemma_item_marker_blank(s);
    let s3 = ConvState { at_line_start: false, at_item_start: true, ..item_marker(s) };
    lemma_walk_nodes_blank(s3, kids, d);
    lemma_nl_emittable();
    lemma_emit_blank(walk_nodes(s3, kids, d).0, nl1());
}

proof fn lemma_table_blank(s: ConvState, kids: Seq<HtmlNode>, d: nat)
    requires
        blank_ok(s),
        plain_nodes(kids),
    ensures
        blank_ok(render_table(s, kids, d).0),
    decreases fuel(d), 5nat, 0nat,
{
    lemma_ensure_blank_blank(s);
    let s1 = if s.tables.len() == 0 {
        s.ensure_blank_line()
    } else {
        s
    };
    lemma_table_state_blank(s1, false, false, seq![]);
    let s2 = ConvState { tables: s1.tables.push(crate::render_spec::new_table()), ..s1 };
    lemma_walk_nodes_blank(s2, kids, d);
    lemma_finish_table_blank(walk_nodes(s2, kids, d).0);
}

proof fn lemma_thead_tr_blank(s: ConvState, kids: Seq<HtmlNode>, d: nat)
    requires
        blank_ok(s),
        plain_nodes(kids),
    ensures
        blank_ok(render_thead(s, kids, d).0),
        blank_ok(render_tr(s, kids, d).0),
    decreases fuel(d), 5nat, 0nat,
{
    lemma_table_state_blank(s, true, false, seq![]);
    let h = crate::render_spec::set_in_header(s, true);
    lemma_walk_nodes_blank(h, kids, d);
    lemma_table_state_blank(walk_nodes(h, kids, d).0, false, false, seq![]);
    lemma_walk_nodes_blank(s, kids, d);
    lemma_table_state_blank(walk_nodes(s, kids, d).0, false, false, seq![]);
}

#[verifier::spinoff_prover]
#[verifier::rlimit(50)]
proof fn lemma_cell_blank(s: ConvState, th: bool, kids: Seq<HtmlNode>, d: nat)
    requires
        blank_ok(s),
        plain_nodes(kids),
    ensures
        blank_ok(render_cell(s, th, kids, d).0),
    decreases fuel(d), 5nat, 0nat,
{
    lemma_capture_blank(s, kids, d);
    let (s2, ok) = walk_nodes(s.enter_redirect(), kids, d);
    let (s3, r) = s2.leave_redirect();
    if let Some(r) = r {
        lemma_cell_no_nl(r.buf);
        lemma_table_state_blank(s3, false, th, normalize_cell_spec(r.buf));
    }
}

proof fn lemma_link_image_blank(s: ConvState, attrs: Seq<Attr>, kids: Seq<HtmlNode>, d: nat)
    requires
        blank_ok(s),
        plain_nodes(kids),
        attrs_plain(attrs),
    ensures
        blank_ok(render_link(s, attrs, kids, d).0),
        blank_ok(render_image(s, attrs)),
    decreases fuel(d), 5nat, 0nat,
{
    let href = seq!['h', 'r', 'e', 'f'];
    let src = seq!['s', 'r', 'c'];
    let alt = seq!['a', 'l', 't'];
    lemma_find_attr_plain(attrs, href);
    lemma_find_attr_plain(attrs, src);
    lemma_find_attr_plain(attrs, alt);
    let ob = seq!['['];
    let cb = seq![']', '('];
    let cp = seq![')'];
    let ib = seq!['!', '['];
    assert(no_nl(ob) && no_nl(cb) && no_nl(cp) && no_nl(ib));
    lemma_no_nl_emittable(ob);
    lemma_no_nl_emittable(cb);
    lemma_no_nl_emittable(cp);
    lemma_no_nl_emittable(ib);
    lemma_emit_blank(s, ob);
    lemma_walk_inline_blank(s.emit(ob), kids, d);
    let s2 = walk_inline(s.emit(ob), kids, d).0;
    lemma_emit_blank(s2, cb);
    let s3 = s2.emit(cb);
    let s4 = match find_attr(attrs, href) {
        Some(h) => {
            lemma_inline_text_blank(s3, h, 0);
            s3.emit_url(h)
        },
        None => s3,
    };
    lemma_emit_blank(s4, cp);
    lemma_emit_blank(s, ib);
    let t1 = s.emit(ib);
    let t2 = match find_attr(attrs, alt) {
        Some(a) => {
            lemma_inline_text_blank(t1, a, 0);
            t1.emit_alt(a)
        },
        None => t1,
    };
    lemma_emit_blank(t2, cb);
    let t3 = t2.emit(cb);
    let t4 = match find_attr(attrs, src) {
        Some(u) => {
            lemma_inline_text_blank(t3, u, 0);
            t3.emit_url(u)
        },
        None => t3,
    };
    lemma_emit_blank(t4, cp);
}

proof fn lemma_rule_break_blank(s: ConvState)
    requires
        blank_ok(s),
    ensures
        blank_ok(render_rule(s)),
        blank_ok(render_break(s)),
{
    let dashes = seq!['-', '-', '-'];
    let spaces = seq![' ', ' '];
    assert(no_nl(dashes) && no_nl(spaces));
    lemma_line_emittable(dashes);
    lemma_line_emittable(spaces);
    assert(seq!['-', '-', '-', '\n'] =~= dashes + seq!['\n']);
    assert(seq![' ', ' ', '\n'] =~= spaces + seq!['\n']);
    lemma_ensure_blank_blank(s);
    lemma_emit_blank(s.ensure_blank_line(), dashes + seq!['\n']);
    lemma_nl_emittable();
    lemma_emit_blank(s, nl1());
    lemma_emit_blank(s, spaces + seq!['\n']);
}

proof fn lemma_render_element_blank(
    s: ConvState,
    name: Seq<char>,
    attrs: Seq<Attr>,
    kids: Seq<HtmlNode>,
    d: nat,
)
    requires
        blank_ok(s),
        plain_nodes(kids),
        attrs_plain(attrs),
        !(tag_of(name) is Pre),
        !(tag_of(name) is Code),
    ensures
        blank_ok(render_element(s, name, attrs, kids, d).0),
    decreases fuel(d), 6nat, 0nat,
{
    match tag_of(name) {
        Tag::Heading(l) => lemma_heading_blank(s, l, kids, d),
        Tag::Paragraph => lemma_paragraph_blank(s, kids, d),
        Tag::Blockquote => lemma_blockquote_blank(s, kids, d),
        Tag::Rule => lemma_rule_break_blank(s),
        Tag::Break => lemma_rule_break_blank(s),
        Tag::Section => {
            lemma_ensure_blank_blank(s);
            lemma_walk_nodes_blank(s.ensure_blank_line(), kids, d);
        },
        Tag::List(o) => lemma_list_blank(s, o, attrs, kids, d),
        Tag::Item => lemma_item_blank(s, kids, d),
        Tag::Table => lemma_table_blank(s, kids, d),
        Tag::TableHead => lemma_thead_tr_blank(s, kids, d),
        Tag::TableRow => lemma_thead_tr_blank(s, kids, d),
        Tag::Cell(th) => lemma_cell_blank(s, th, kids, d),
        Tag::Strong => lemma_inline_marker_blank(s, seq!['*', '*'], kids, d),
        Tag::Emphasis => lemma_inline_marker_blank(s, seq!['*'], kids, d),
        Tag::Strike => lemma_inline_marker_blank(s, seq!['~', '~'], kids, d),
        Tag::Link => lemma_link_image_blank(s, attrs, kids, d),
        Tag::Image => lemma_link_image_blank(s, attrs, kids, d),
        Tag::Other => lemma_walk_nodes_blank(s, kids, d),
        _ => {},
    }
}


proof fn lemma_plain_nodes_index(s: Seq<HtmlNode>, i: int)
    requires
        plain_nodes(s),
        0 <= i < s.len(),
    ensures
        plain_node(s[i]),
    decreases s.len(),
{
    if i > 0 {
        lemma_plain_nodes_index(s.drop_first(), i - 1);
    }
}

proof fn lemma_plain_nodes_from(s: Seq<HtmlNode>)
    requires
        forall|i: int| 0 <= i < s.len() ==> plain_node(#[trigger] s[i]),
    ensures
        plain_nodes(s),
    decreases s.len(),
{
    if s.len() > 0 {
        assert(plain_node(s[0]));
        assert forall|i: int| 0 <= i < s.drop_first().len() implies plain_node(
            #[trigger] s.drop_first()[i],
        ) by {
            assert(plain_node(s[i + 1]));
        }
        lemma_plain_nodes_from(s.drop_first());
    }
}

proof fn lemma_cut_plain(n: HtmlNode, t: HtmlNode, k: nat)
    requires
        cut_to(n, t, k),
        plain_node(t),
    ensures
        plain_node(n),
    decreases k,
{
    let cn = children_of(n);
    let ct = children_of(t);
    if t is Document || t is Element {
        assert(plain_nodes(ct));
    }
    assert forall|i: int| 0 <= i < cn.len() implies plain_node(#[trigger] cn[i]) by {
        assert(k > 0);
        assert(cut_to(cn[i], ct[i], (k - 1) as nat));
        lemma_plain_nodes_index(ct, i);
        lemma_cut_plain(cn[i], ct[i], (k - 1) as nat);
    }
    lemma_plain_nodes_from(cn);
    if let HtmlNode::Element { attrs: x, .. } = n {
        if let HtmlNode::Element { attrs: y, .. } = t {
            assert(attrs_view(x@) == attrs_view(y@));
            assert forall|i: int| 0 <= i < x@.len() implies no_nl(#[trigger] x@[i].value@) by {
                assert(attrs_view(x@)[i] == attrs_view(y@)[i]);
                assert(no_nl(y@[i].value@));
            }
        }
    }
}

/// Walking a plain tree keeps the blank-line facts.
pub proof fn lemma_walk_keeps_blank(s: ConvState, n: HtmlNode, d: nat)
    requires
        blank_ok(s),
        plain_node(n),
    ensures
        blank_ok(walk_node(s, n, d).0),
{
    lemma_walk_node_blank(s, n, d);
}

/// The blank-line facts hold at the start of a conversion, and finishing
/// the output (outside capture buffers) keeps it free of runs of three newlines.
pub proof fn lemma_finalize_blank(s: ConvState, compressed: bool)
    ensures
        blank_ok(crate::state::initial_state(compressed)),
        (blank_ok(s) && s.redirects.len() == 0) ==> no_triple_nl(s.finalize().sink),
        blank_ok(s) ==> no_triple_nl(s.sink),
{
    let s0 = crate::state::initial_state(compressed);
    assert(no_triple_nl(s0.sink));
    if blank_ok(s) && s.redirects.len() == 0 {
        let nl = seq!['\n'];
        assert(all_newlines(nl));
        lemma_leading_all(nl);
        lemma_pre_newlines(1, true);
        assert(nl =~= repeat('\n', 1));
        if s.compressed {
            if s.wrote_any {
                lemma_no_triple_concat(s.sink, nl);
                assert(s.sink.push('\n') =~= s.sink + nl);
            }
        } else if s.trailing_nls == 0 {
            lemma_no_triple_concat(s.sink, nl);
            assert(s.sink.push('\n') =~= s.sink + nl);
        }
    }
}

/// The cut of a plain tree is plain.
pub proof fn lemma_cut_keeps_plain(n: HtmlNode, t: HtmlNode, k: nat)
    requires
        cut_to(n, t, k),
        plain_node(t),
    ensures
        plain_node(n),
{
    lemma_cut_plain(n, t, k);
}

} // verus!
