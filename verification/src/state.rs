//! The converter's output state and the primitive operations on it: writing
//! to the current target, capping newline runs, deferred spaces, capture
//! buffers, block spacing and the end of the document.

use vstd::prelude::*;
use crate::chars::{decimal, decimal_chars, is_ws, lemma_decimal_start, push_all, repeat};
use crate::text::{
    all_newlines, alt_fold, cap2, collapse_alt, content_end, ends_with, format_url, has_visible,
    has_visible_char, is_all_newlines, lemma_alt_fold_start, lemma_text_fold_start,
    lemma_trailing_nl_bound, normalize_text, starts_with,
    text_fold, trailing_newlines, trailing_nl, trim_start, trim_start_chars, url_text,
};

verus! {

/// Longest run of newlines the converter writes between blocks (one blank line).
pub const MAX_BLANK_NLS: u8 = 2;

/// A capture buffer and the output position it interrupted.
pub struct Redirect {
    pub buf: Vec<char>,
    pub saved_at_line_start: bool,
    pub saved_at_item_start: bool,
    pub saved_pending_space: bool,
    pub saved_trailing_nls: u8,
}

/// The value of a [`Redirect`].
pub struct RedirectV {
    pub buf: Seq<char>,
    pub saved_at_line_start: bool,
    pub saved_at_item_start: bool,
    pub saved_pending_space: bool,
    pub saved_trailing_nls: u8,
}

impl View for Redirect {
    type V = RedirectV;

    open spec fn view(&self) -> RedirectV {
        RedirectV {
            buf: self.buf@,
            saved_at_line_start: self.saved_at_line_start,
            saved_at_item_start: self.saved_at_item_start,
            saved_pending_space: self.saved_pending_space,
            saved_trailing_nls: self.saved_trailing_nls,
        }
    }
}

/// An open list: whether it is ordered and the number of its next item.
#[derive(Clone, Copy)]
pub struct ListInfo {
    pub ordered: bool,
    pub counter: u32,
}

/// A finished table row.
pub struct TableRow {
    pub cells: Vec<Vec<char>>,
    pub is_header: bool,
}

/// The value of a [`TableRow`].
pub struct RowV {
    pub cells: Seq<Seq<char>>,
    pub is_header: bool,
}

pub open spec fn cells_view(c: Seq<Vec<char>>) -> Seq<Seq<char>> {
    c.map_values(|x: Vec<char>| x@)
}

impl View for TableRow {
    type V = RowV;

    open spec fn view(&self) -> RowV {
        RowV { cells: cells_view(self.cells@), is_header: self.is_header }
    }
}

/// An open table: its finished rows and the row being filled.
pub struct TableState {
    pub rows: Vec<TableRow>,
    pub current_row: Vec<Vec<char>>,
    pub in_header: bool,
    pub current_row_has_th: bool,
}

/// The value of a [`TableState`].
pub struct TableV {
    pub rows: Seq<RowV>,
    pub current_row: Seq<Seq<char>>,
    pub in_header: bool,
    pub current_row_has_th: bool,
}

pub open spec fn rows_view(r: Seq<TableRow>) -> Seq<RowV> {
    r.map_values(|x: TableRow| x@)
}

impl View for TableState {
    type V = TableV;

    open spec fn view(&self) -> TableV {
        TableV {
            rows: rows_view(self.rows@),
            current_row: cells_view(self.current_row@),
            in_header: self.in_header,
            current_row_has_th: self.current_row_has_th,
        }
    }
}

/// The state of a conversion, as values.
pub struct ConvState {
    /// What has been written to the output target.
    pub sink: Seq<char>,
    pub compressed: bool,
    pub redirects: Seq<RedirectV>,
    pub in_pre: bool,
    pub at_line_start: bool,
    pub at_item_start: bool,
    pub pending_space: bool,
    pub trailing_nls: u8,
    pub pending_nls: u8,
    pub wrote_any: bool,
    pub lists: Seq<ListInfo>,
    pub tables: Seq<TableV>,
}

/// A Markdown writer over a character sink.
pub struct Converter {
    pub sink: Vec<char>,
    pub compressed: bool,
    pub redirect_stack: Vec<Redirect>,
    pub in_pre: bool,
    pub at_line_start: bool,
    pub at_item_start: bool,
    pub pending_space: bool,
    pub trailing_nls: u8,
    pub pending_nls: u8,
    pub wrote_any: bool,
    pub list_stack: Vec<ListInfo>,
    pub table_stack: Vec<TableState>,
}

pub open spec fn redirects_view(r: Seq<Redirect>) -> Seq<RedirectV> {
    r.map_values(|x: Redirect| x@)
}

pub open spec fn tables_view(t: Seq<TableState>) -> Seq<TableV> {
    t.map_values(|x: TableState| x@)
}

impl View for Converter {
    type V = ConvState;

    open spec fn view(&self) -> ConvState {
        ConvState {
            sink: self.sink@,
            compressed: self.compressed,
            redirects: redirects_view(self.redirect_stack@),
            in_pre: self.in_pre,
            at_line_start: self.at_line_start,
            at_item_start: self.at_item_start,
            pending_space: self.pending_space,
            trailing_nls: self.trailing_nls,
            pending_nls: self.pending_nls,
            wrote_any: self.wrote_any,
            lists: self.list_stack@,
            tables: tables_view(self.table_stack@),
        }
    }
}

pub open spec fn nl1() -> Seq<char> {
    seq!['\n']
}

pub open spec fn nl2() -> Seq<char> {
    seq!['\n', '\n']
}

/// The state a conversion starts in.
pub open spec fn initial_state(compressed: bool) -> ConvState {
    ConvState {
        sink: seq![],
        compressed,
        redirects: seq![],
        in_pre: false,
        at_line_start: true,
        at_item_start: false,
        pending_space: false,
        trailing_nls: 0,
        pending_nls: 0,
        wrote_any: false,
        lists: seq![],
        tables: seq![],
    }
}

impl ConvState {
    /// Writing to the innermost capture buffer, or else to the target.
    pub open spec fn write_all(self, data: Seq<char>) -> ConvState {
        if self.redirects.len() > 0 {
            let top = self.redirects.last();
            ConvState {
                redirects: self.redirects.drop_last().push(
                    RedirectV { buf: top.buf + data, ..top },
                ),
                ..self
            }
        } else if self.compressed {
            self.write_compact(data)
        } else {
            ConvState { sink: self.sink + data, ..self }
        }
    }

    /// Writing to the target in compressed mode: the trailing newlines of
    /// `data` are held back (at most two), and written before the next content
    /// unless nothing has been written yet.
    pub open spec fn write_compact(self, data: Seq<char>) -> ConvState {
        let end = data.len() - trailing_nl(data);
        let s1 = if end > 0 {
            ConvState {
                sink: self.sink + (if self.wrote_any {
                    repeat('\n', self.pending_nls as nat)
                } else {
                    seq![]
                }) + data.take(end),
                pending_nls: 0,
                wrote_any: true,
                ..self
            }
        } else {
            self
        };
        ConvState { pending_nls: cap2(s1.pending_nls + trailing_nl(data)), ..s1 }
    }

    /// The deferred space before `t`: written unless `t` starts a new line
    /// (which drops it) or starts with a space.
    pub open spec fn emit_space(self, t: Seq<char>) -> ConvState {
        if self.pending_space && !starts_with(t, '\n') && !starts_with(t, ' ') {
            ConvState { pending_space: false, ..self }.write_all(seq![' '])
        } else if self.pending_space && starts_with(t, '\n') {
            ConvState { pending_space: false, ..self }
        } else {
            self
        }
    }

    /// How many of the newlines in `t` are written: enough to reach one blank line.
    pub open spec fn newlines_to_write(self, t: Seq<char>) -> int {
        let needed: int = if self.trailing_nls <= 2 {
            2 - self.trailing_nls
        } else {
            0
        };
        if t.len() < needed {
            t.len() as int
        } else {
            needed
        }
    }

    /// Emitting a run of newlines `t` (after the deferred space).
    pub open spec fn emit_newlines(self, t: Seq<char>) -> ConvState {
        let to_write = self.newlines_to_write(t);
        let s2 = if to_write > 0 {
            self.write_all(t.take(to_write))
        } else {
            self
        };
        ConvState { trailing_nls: cap2(s2.trailing_nls + to_write), at_line_start: true, ..s2 }
    }

    /// The newline count after writing `t`, which is not only newlines.
    pub open spec fn trailing_after(self, t: Seq<char>) -> u8 {
        let nls = cap2(trailing_nl(t) as int);
        if nls > 0 {
            if t.len() > nls {
                nls
            } else {
                cap2(self.trailing_nls + nls)
            }
        } else {
            0
        }
    }

    /// Emitting `t`, which is not only newlines (after the deferred space).
    pub open spec fn emit_content(self, t: Seq<char>) -> ConvState {
        let s2 = self.write_all(t);
        let s3 = if s2.at_item_start && has_visible(t) {
            ConvState { at_item_start: false, ..s2 }
        } else {
            s2
        };
        ConvState { trailing_nls: s3.trailing_after(t), at_line_start: ends_with(t, '\n'), ..s3 }
    }

    /// Emitting `t`: a deferred space first, runs of newlines capped at one
    /// blank line, and the line position tracked.
    pub open spec fn emit(self, t: Seq<char>) -> ConvState {
        let s1 = self.emit_space(t);
        if all_newlines(t) {
            s1.emit_newlines(t)
        } else {
            s1.emit_content(t)
        }
    }

    /// Writing already rendered content, keeping the line position.
    pub open spec fn raw_write(self, data: Seq<char>) -> ConvState {
        if data.len() == 0 {
            self
        } else {
            let s1 = self.write_all(data);
            let nls = cap2(trailing_nl(data) as int);
            ConvState {
                at_line_start: data.last() == '\n',
                trailing_nls: if data.len() > nls {
                    nls
                } else {
                    cap2(s1.trailing_nls + nls)
                },
                ..s1
            }
        }
    }

    /// Starting a capture buffer.
    pub open spec fn enter_redirect(self) -> ConvState {
        ConvState {
            redirects: self.redirects.push(
                RedirectV {
                    buf: seq![],
                    saved_at_line_start: self.at_line_start,
                    saved_at_item_start: self.at_item_start,
                    saved_pending_space: self.pending_space,
                    saved_trailing_nls: self.trailing_nls,
                },
            ),
            at_line_start: true,
            at_item_start: false,
            pending_space: false,
            trailing_nls: 0,
            ..self
        }
    }

    /// Closing the innermost capture buffer: the position it interrupted is
    /// restored and the buffer handed back.
    pub open spec fn leave_redirect(self) -> (ConvState, Option<RedirectV>) {
        if self.redirects.len() == 0 {
            (self, None)
        } else {
            let r = self.redirects.last();
            (
                ConvState {
                    redirects: self.redirects.drop_last(),
                    at_line_start: r.saved_at_line_start,
                    at_item_start: r.saved_at_item_start,
                    pending_space: r.saved_pending_space,
                    trailing_nls: r.saved_trailing_nls,
                    ..self
                },
                Some(r),
            )
        }
    }

    /// Whether blocks are separated by a single newline (a list in compressed mode).
    pub open spec fn tight_block(self) -> bool {
        self.compressed && self.lists.len() > 0
    }

    /// Starting a block: a blank line before it, except in a table, right
    /// after a list marker, or (one newline) in a tight list.
    pub open spec fn ensure_blank_line(self) -> ConvState {
        let s1 = ConvState { pending_space: false, ..self };
        if s1.tables.len() > 0 {
            s1
        } else if s1.at_item_start {
            s1
        } else if s1.tight_block() {
            let s2 = if s1.trailing_nls == 0 {
                s1.emit(nl1())
            } else {
                s1
            };
            ConvState { at_line_start: true, ..s2 }
        } else {
            let s2 = if s1.trailing_nls == 0 {
                s1.emit(nl2())
            } else if s1.trailing_nls == 1 {
                s1.emit(nl1())
            } else {
                s1
            };
            ConvState { at_line_start: true, ..s2 }
        }
    }

    /// Closing a block.
    pub open spec fn end_block(self) -> ConvState {
        let s2 = if self.tight_block() {
            if self.trailing_nls == 0 {
                self.emit(nl1())
            } else {
                self
            }
        } else {
            self.emit(nl2())
        };
        ConvState { at_line_start: true, ..s2 }
    }

    /// The end of the document: one final newline when the output lacks it.
    pub open spec fn finalize(self) -> ConvState {
        if self.compressed {
            let s1 = ConvState { pending_nls: 0, ..self };
            if s1.wrote_any {
                ConvState { sink: s1.sink.push('\n'), ..s1 }
            } else {
                s1
            }
        } else if self.trailing_nls == 0 {
            ConvState { sink: self.sink.push('\n'), ..self }
        } else {
            self
        }
    }

    /// Emitting a text node.
    pub open spec fn emit_text(self, t: Seq<char>) -> ConvState {
        if self.in_pre {
            if t.len() > 0 {
                self.emit(t)
            } else {
                self
            }
        } else {
            self.emit_text_normalized(t)
        }
    }

    /// Emitting a text node outside preformatted content: leading whitespace
    /// dropped at the start of a line or item, whitespace collapsed, Markdown
    /// characters escaped, and a trailing whitespace run deferred as one space.
    pub open spec fn emit_text_normalized(self, t: Seq<char>) -> ConvState {
        let lead = self.at_line_start || self.at_item_start;
        let t1 = if lead {
            trim_start(t)
        } else {
            t
        };
        if lead && t1.len() == 0 {
            self
        } else {
            let f = text_fold(t1, self.at_line_start);
            let s1 = if f.0.len() > 0 {
                self.emit(f.0)
            } else {
                self
            };
            if f.2 {
                ConvState { pending_space: true, ..s1 }
            } else {
                s1
            }
        }
    }

    /// Emitting image alt text (collapsed to one line in compressed mode).
    pub open spec fn emit_alt(self, alt: Seq<char>) -> ConvState {
        if alt.len() == 0 {
            self
        } else if !self.compressed {
            self.emit(alt)
        } else {
            let b = alt_fold(alt).0;
            if b.len() > 0 {
                self.emit(b)
            } else {
                self
            }
        }
    }

    /// Emitting a link or image destination.
    pub open spec fn emit_url(self, url: Seq<char>) -> ConvState {
        self.emit(url_text(url))
    }

    /// Writing a number in decimal, bypassing line tracking.
    pub open spec fn emit_u32(self, n: u32) -> ConvState {
        self.write_all(decimal(n as nat))
    }
}

/// Whether `s` ends with a newline.
pub open spec fn ends_nl(s: Seq<char>) -> bool {
    s.len() > 0 && s.last() == '\n'
}

impl ConvState {
    /// What the capture buffers and compressed-mode bookkeeping promise of
    /// the output: a saved newline count at the outermost capture matches the
    /// output, and in compressed mode `wrote_any` says whether anything was
    /// written, and the output neither begins nor ends with a newline (those
    /// are held back).
    pub open spec fn frames_consistent(self) -> bool {
        &&& (!self.compressed && self.redirects.len() > 0
            && self.redirects[0].saved_trailing_nls > 0) ==> ends_nl(self.sink)
        &&& self.compressed ==> (self.wrote_any <==> self.sink.len() > 0)
        &&& (self.compressed && self.sink.len() > 0) ==> self.sink.last() != '\n'
        &&& (self.compressed && self.sink.len() > 0) ==> self.sink[0] != '\n'
    }

    /// [`frames_consistent`], outside capture buffers in normal mode a
    /// nonzero newline count means the output ends with a newline, and
    /// preformatted content is always captured.
    pub open spec fn tracks_output(self) -> bool {
        &&& self.frames_consistent()
        &&& self.in_pre ==> self.redirects.len() > 0
        &&& (!self.compressed && self.redirects.len() == 0 && self.trailing_nls > 0) ==> ends_nl(
            self.sink,
        )
    }
}

/// `b` has the capture buffers and mode of `a` (the outermost saved newline
/// count included), has written whatever `a` had, and is inside
/// preformatted content only if `a` was.
pub open spec fn frames_kept(a: ConvState, b: ConvState) -> bool {
    &&& b.compressed == a.compressed
    &&& b.redirects.len() == a.redirects.len()
    &&& a.redirects.len() > 0 ==> b.redirects[0].saved_trailing_nls
        == a.redirects[0].saved_trailing_nls
    &&& a.wrote_any ==> b.wrote_any
    &&& b.in_pre ==> a.in_pre
}

/// Whether writing `t` in state `s` keeps a compressed output from beginning
/// with a newline: it goes to a capture buffer, follows earlier output, or
/// does not begin with a newline (or is only newlines, which are held back).
pub open spec fn safe_start(s: ConvState, t: Seq<char>) -> bool {
    ||| !s.compressed
    ||| s.redirects.len() > 0
    ||| s.wrote_any
    ||| !starts_with(t, '\n')
    ||| all_newlines(t)
}

/// The output of a finished conversion: in normal mode it ends with a
/// newline; in compressed mode it is empty, or it does not begin with a
/// newline and ends with exactly one.
pub open spec fn well_terminated(out: Seq<char>, compressed: bool) -> bool {
    if compressed {
        out.len() == 0 || (out[0] != '\n' && out.last() == '\n' && (out.len() == 1
            || out[out.len() - 2] != '\n'))
    } else {
        ends_nl(out)
    }
}

pub proof fn lemma_cap2_pos(n: int)
    ensures
        (cap2(n) > 0) == (n > 0),
        n <= 2 && n >= 0 ==> cap2(n) == n,
{
}

pub proof fn lemma_write_compact(s: ConvState, data: Seq<char>)
    requires
        s.compressed,
        s.redirects.len() == 0,
    ensures
        ({
            let w = s.write_compact(data);
            &&& w.redirects == s.redirects
            &&& w.compressed == s.compressed
            &&& w.trailing_nls == s.trailing_nls
            &&& w.pending_space == s.pending_space
            &&& w.in_pre == s.in_pre
            &&& s.wrote_any ==> w.wrote_any
            &&& !all_newlines(data) ==> w.wrote_any
            &&& (s.frames_consistent() && safe_start(s, data)) ==> w.frames_consistent()
        }),
{
    lemma_trailing_nl_bound(data);
    let end = data.len() - trailing_nl(data);
    if trailing_nl(data) == data.len() {
        assert forall|i: int| 0 <= i < data.len() implies data[i] == '\n' by {}
    }
    if end > 0 {
        assert(!all_newlines(data)) by {
            assert(data[end - 1] != '\n');
        }
        let pre = if s.wrote_any {
            repeat('\n', s.pending_nls as nat)
        } else {
            seq![]
        };
        let sink = s.sink + pre + data.take(end);
        assert(sink.last() == data[end - 1]);
        if s.sink.len() > 0 {
            assert(sink[0] == s.sink[0]);
        } else if !s.wrote_any {
            assert(sink[0] == data[0]);
        }
    }
}

pub proof fn lemma_write_all(s: ConvState, data: Seq<char>)
    ensures
        ({
            let w = s.write_all(data);
            &&& frames_kept(s, w)
            &&& w.pending_space == s.pending_space
            &&& w.trailing_nls == s.trailing_nls
            &&& w.in_pre == s.in_pre
            &&& (s.frames_consistent() && safe_start(s, data)) ==> w.frames_consistent()
            &&& s.redirects.len() > 0 ==> w.sink == s.sink
            &&& (!s.compressed && s.redirects.len() == 0) ==> w.sink == s.sink + data
            &&& (s.tracks_output() && (s.redirects.len() > 0 || s.compressed) && safe_start(
                s,
                data,
            )) ==> w.tracks_output()
            &&& (s.compressed && s.redirects.len() == 0 && !all_newlines(data)) ==> w.wrote_any
        }),
{
    if s.redirects.len() > 0 {
    } else if s.compressed {
        lemma_write_compact(s, data);
    }
}

pub proof fn lemma_emit(s: ConvState, t: Seq<char>)
    ensures
        ({
            let e = s.emit(t);
            &&& frames_kept(s, e)
            &&& e.in_pre == s.in_pre
            &&& !s.pending_space ==> !e.pending_space
            &&& (t.len() > 0 && t[0] != ' ') ==> !e.pending_space
            &&& (s.frames_consistent() && safe_start(s, t)) ==> e.frames_consistent()
            &&& (s.tracks_output() && (t.len() > 0 || !s.pending_space) && safe_start(s, t))
                ==> e.tracks_output()
            &&& (s.frames_consistent() && (s.in_pre ==> s.redirects.len() > 0) && t.len() > 0
                && !all_newlines(t) && safe_start(s, t)) ==> e.tracks_output()
            &&& (s.compressed && s.redirects.len() == 0 && !all_newlines(t)) ==> e.wrote_any
        }),
{
    let s0 = ConvState { pending_space: false, ..s };
    lemma_write_all(s0, seq![' ']);
    let s1 = s.emit_space(t);
    lemma_trailing_nl_bound(t);
    if all_newlines(t) {
        let k = s1.newlines_to_write(t);
        lemma_write_all(s1, t.take(k));
        lemma_cap2_pos(s1.trailing_nls + k);
        if k > 0 {
            assert(t.take(k).last() == t[k - 1]);
        }
    } else {
        lemma_write_all(s1, t);
        let nls = cap2(trailing_nl(t) as int);
        lemma_cap2_pos(trailing_nl(t) as int);
        assert(trailing_nl(t) < t.len()) by {
            if trailing_nl(t) == t.len() {
                assert forall|i: int| 0 <= i < t.len() implies t[i] == '\n' by {}
            }
        }
        if trailing_nl(t) > 0 {
            assert(t.last() == '\n');
        }
        lemma_cap2_pos(s1.trailing_nls + nls);
    }
}

pub proof fn lemma_raw_write(s: ConvState, data: Seq<char>)
    ensures
        ({
            let r = s.raw_write(data);
            &&& frames_kept(s, r)
            &&& r.in_pre == s.in_pre
            &&& r.pending_space == s.pending_space
            &&& (s.frames_consistent() && safe_start(s, data)) ==> r.frames_consistent()
            &&& (s.tracks_output() && safe_start(s, data)) ==> r.tracks_output()
            &&& (s.compressed && s.redirects.len() == 0 && !all_newlines(data)) ==> r.wrote_any
        }),
{
    if data.len() > 0 {
        lemma_write_all(s, data);
        lemma_trailing_nl_bound(data);
        lemma_cap2_pos(trailing_nl(data) as int);
        let nls = cap2(trailing_nl(data) as int);
        lemma_cap2_pos(s.trailing_nls + nls);
    }
}

pub proof fn lemma_enter_redirect(s: ConvState)
    ensures
        ({
            let e = s.enter_redirect();
            &&& e.compressed == s.compressed
            &&& e.redirects.len() == s.redirects.len() + 1
            &&& s.redirects.len() > 0 ==> e.redirects[0] == s.redirects[0]
            &&& !e.pending_space
            &&& e.trailing_nls == 0
            &&& e.sink == s.sink
            &&& s.tracks_output() ==> e.tracks_output()
        }),
{
}

pub proof fn lemma_leave_redirect(s: ConvState)
    ensures
        ({
            let (l, r) = s.leave_redirect();
            &&& l.compressed == s.compressed
            &&& l.wrote_any == s.wrote_any
            &&& l.in_pre == s.in_pre
            &&& s.redirects.len() > 0 ==> (r is Some && l.redirects.len() == s.redirects.len() - 1)
            &&& s.redirects.len() > 1 ==> l.redirects[0] == s.redirects[0]
            &&& (s.tracks_output() && (s.in_pre ==> s.redirects.len() > 1)) ==> l.tracks_output()
        }),
{
}

pub proof fn lemma_ensure_blank_line(s: ConvState)
    ensures
        ({
            let e = s.ensure_blank_line();
            &&& frames_kept(s, e)
            &&& !e.pending_space
            &&& s.tracks_output() ==> e.tracks_output()
        }),
{
    let s1 = ConvState { pending_space: false, ..s };
    lemma_emit(s1, nl1());
    lemma_emit(s1, nl2());
}

pub proof fn lemma_end_block(s: ConvState)
    ensures
        ({
            let e = s.end_block();
            &&& frames_kept(s, e)
            &&& !s.pending_space ==> !e.pending_space
            &&& s.tracks_output() ==> e.tracks_output()
        }),
{
    lemma_emit(s, nl1());
    lemma_emit(s, nl2());
}

pub proof fn lemma_emit_text(s: ConvState, t: Seq<char>)
    ensures
        ({
            let e = s.emit_text(t);
            &&& frames_kept(s, e)
            &&& s.tracks_output() ==> e.tracks_output()
        }),
{
    lemma_emit(s, t);
    let lead = s.at_line_start || s.at_item_start;
    let t1 = if lead {
        trim_start(t)
    } else {
        t
    };
    let f = text_fold(t1, s.at_line_start);
    lemma_text_fold_start(t1, s.at_line_start);
    lemma_emit(s, f.0);
}

pub proof fn lemma_emit_alt(s: ConvState, alt: Seq<char>)
    ensures
        ({
            let e = s.emit_alt(alt);
            &&& frames_kept(s, e)
            &&& s.tracks_output() ==> e.tracks_output()
        }),
{
    lemma_emit(s, alt);
    lemma_alt_fold_start(alt);
    lemma_emit(s, alt_fold(alt).0);
}

pub proof fn lemma_url_text_nonempty(url: Seq<char>)
    ensures
        url.len() > 0 ==> url_text(url).len() > 0,
{
}

pub proof fn lemma_emit_url(s: ConvState, url: Seq<char>)
    ensures
        ({
            let e = s.emit_url(url);
            &&& frames_kept(s, e)
            &&& (s.tracks_output() && (url.len() > 0 || !s.pending_space)) ==> e.tracks_output()
        }),
{
    lemma_url_text_nonempty(url);
    lemma_emit(s, url_text(url));
}

/// Runs of newlines are capped at one blank line. In normal mode outside
/// capture buffers, emitting only newlines writes just enough of them for the
/// counted run at the end of the output to reach two, never more; in
/// compressed mode a written run of newlines is held back, at most two of
/// them, until content follows.
pub proof fn lemma_newline_cap(s: ConvState, t: Seq<char>)
    requires
        s.redirects.len() == 0,
        t.len() > 0,
        all_newlines(t),
        s.pending_nls <= 2,
    ensures
        ({
            let k: int = if t.len() < 2 - s.trailing_nls {
                t.len() as int
            } else if s.trailing_nls <= 2 {
                2 - s.trailing_nls
            } else {
                0
            };
            let e = s.emit(t);
            &&& !s.compressed ==> e.sink == s.sink + repeat('\n', k as nat)
            &&& s.compressed ==> e.sink == s.sink
            &&& s.compressed ==> e.pending_nls <= 2
            &&& e.trailing_nls <= 2
        }),
{
    assert(t[0] == '\n');
    let s1 = s.emit_space(t);
    assert(s1.sink == s.sink && s1.trailing_nls == s.trailing_nls);
    let k = s1.newlines_to_write(t);
    if k > 0 {
        assert(t.take(k) =~= repeat('\n', k as nat));
        lemma_trailing_nl_bound(t.take(k));
        if s.compressed {
            assert(t.take(k).len() - trailing_nl(t.take(k)) == 0) by {
                lemma_all_newlines_trailing(t.take(k));
            }
        }
    }
}

proof fn lemma_all_newlines_trailing(t: Seq<char>)
    requires
        all_newlines(t),
    ensures
        trailing_nl(t) == t.len(),
    decreases t.len(),
{
    if t.len() > 0 {
        assert(t.last() == t[t.len() - 1]);
        lemma_all_newlines_trailing(t.drop_last());
    }
}

/// Writing each chunk of `ws` in turn.
pub open spec fn write_each(s: ConvState, ws: Seq<Seq<char>>) -> ConvState
    decreases ws.len(),
{
    if ws.len() == 0 {
        s
    } else {
        write_each(s, ws.drop_last()).write_all(ws.last())
    }
}

/// The chunks of `ws`, one after the other.
pub open spec fn concat_all(ws: Seq<Seq<char>>) -> Seq<char>
    decreases ws.len(),
{
    if ws.len() == 0 {
        seq![]
    } else {
        concat_all(ws.drop_last()) + ws.last()
    }
}

proof fn lemma_write_each_captured(s: ConvState, ws: Seq<Seq<char>>)
    ensures
        write_each(s.enter_redirect(), ws) == (ConvState {
            redirects: s.redirects.push(
                RedirectV {
                    buf: concat_all(ws),
                    saved_at_line_start: s.at_line_start,
                    saved_at_item_start: s.at_item_start,
                    saved_pending_space: s.pending_space,
                    saved_trailing_nls: s.trailing_nls,
                },
            ),
            at_line_start: true,
            at_item_start: false,
            pending_space: false,
            trailing_nls: 0,
            ..s
        }),
    decreases ws.len(),
{
    if ws.len() > 0 {
        lemma_write_each_captured(s, ws.drop_last());
        let x = write_each(s.enter_redirect(), ws.drop_last());
        assert(x.redirects.drop_last() =~= s.redirects);
    } else {
        assert(concat_all(ws) =~= Seq::<char>::empty());
    }
}

/// A capture buffer holds exactly what was written into it, and leaving it
/// gives back the state from before it was entered: the output, the line
/// and space flags and the newline count are restored.
pub proof fn lemma_redirect_round_trip(s: ConvState, ws: Seq<Seq<char>>)
    ensures
        ({
            let (l, r) = write_each(s.enter_redirect(), ws).leave_redirect();
            &&& l == s
            &&& r == Some(
                RedirectV {
                    buf: concat_all(ws),
                    saved_at_line_start: s.at_line_start,
                    saved_at_item_start: s.at_item_start,
                    saved_pending_space: s.pending_space,
                    saved_trailing_nls: s.trailing_nls,
                },
            )
        }),
{
    lemma_write_each_captured(s, ws);
    let x = write_each(s.enter_redirect(), ws);
    assert(x.redirects.drop_last() =~= s.redirects);
}

/// Finishing keeps the output well terminated.
pub proof fn lemma_finalize(s: ConvState)
    requires
        s.tracks_output(),
        s.redirects.len() == 0,
    ensures
        well_terminated(s.finalize().sink, s.compressed),
{
}

/// The first `n` characters of `s`.
pub fn take_chars(s: &[char], n: usize) -> (r: Vec<char>)
    requires
        n <= s@.len(),
    ensures
        r@ == s@.take(n as int),
{
    let mut r: Vec<char> = Vec::new();
    let mut i: usize = 0;
    while i < n
        invariant
            i <= n <= s@.len(),
            r@ == s@.take(i as int),
        decreases n - i,
    {
        r.push(s[i]);
        i += 1;
        assert(r@ =~= s@.take(i as int));
    }
    r
}

impl Converter {
    /// A converter with nothing written.
    pub fn new(compressed: bool) -> (c: Converter)
        ensures
            c@ == initial_state(compressed),
    {
        let c = Converter {
            sink: Vec::new(),
            compressed,
            redirect_stack: Vec::new(),
            in_pre: false,
            at_line_start: true,
            at_item_start: false,
            pending_space: false,
            trailing_nls: 0,
            pending_nls: 0,
            wrote_any: false,
            list_stack: Vec::new(),
            table_stack: Vec::new(),
        };
        assert(c@.redirects =~= seq![]);
        assert(c@.tables =~= seq![]);
        c
    }

    pub fn write_all(&mut self, data: &[char])
        ensures
            final(self)@.compressed == old(self)@.compressed,
            final(self)@.lists == old(self)@.lists,
            final(self)@.tables == old(self)@.tables,
            final(self)@.in_pre == old(self)@.in_pre,
            final(self)@ == old(self)@.write_all(data@),
    {
        let n = self.redirect_stack.len();
        if n > 0 {
            let mut top = self.redirect_stack.pop().unwrap();
            push_all(&mut top.buf, data);
            self.redirect_stack.push(top);
            assert(redirects_view(self.redirect_stack@) =~= old(self)@.redirects.drop_last().push(
                RedirectV { buf: old(self)@.redirects.last().buf + data@, ..old(self)@.redirects.last() },
            ));
            return;
        }
        if self.compressed {
            self.write_compact(data);
            return;
        }
        push_all(&mut self.sink, data);
    }

    pub fn write_compact(&mut self, data: &[char])
        ensures
            final(self)@.compressed == old(self)@.compressed,
            final(self)@.lists == old(self)@.lists,
            final(self)@.tables == old(self)@.tables,
            final(self)@.in_pre == old(self)@.in_pre,
            final(self)@ == old(self)@.write_compact(data@),
    {
        let end = content_end(data);
        proof {
            lemma_trailing_nl_bound(data@);
        }
        let ghost s0 = self@;
        if end > 0 {
            let ghost nls = if s0.wrote_any {
                repeat('\n', s0.pending_nls as nat)
            } else {
                seq![]
            };
            if self.wrote_any {
                let mut k: u8 = 0;
                while k < self.pending_nls
                    invariant
                        k <= self.pending_nls,
                        self@ == (ConvState { sink: self@.sink, ..s0 }),
                        self.sink@ == s0.sink + repeat('\n', k as nat),
                    decreases self.pending_nls - k,
                {
                    self.sink.push('\n');
                    k += 1;
                    assert(self.sink@ =~= s0.sink + repeat('\n', k as nat));
                }
            }
            assert(self.sink@ =~= s0.sink + nls);
            self.pending_nls = 0;
            let mut i: usize = 0;
            while i < end
                invariant
                    i <= end <= data@.len(),
                    self@ == (ConvState { sink: self@.sink, pending_nls: 0, ..s0 }),
                    self.sink@ == s0.sink + nls + data@.take(i as int),
                decreases end - i,
            {
                self.sink.push(data[i]);
                i += 1;
                assert(self.sink@ =~= s0.sink + nls + data@.take(i as int));
            }
            self.wrote_any = true;
        }
        let ghost s1 = self@;
        let nl: usize = data.len() - end;
        if nl >= 2 || (self.pending_nls as usize) + nl >= 2 {
            self.pending_nls = 2;
        } else {
            self.pending_nls = self.pending_nls + (nl as u8);
        }
        assert(self.pending_nls == cap2(s1.pending_nls + trailing_nl(data@)));
    }

    fn emit_space(&mut self, s: &[char])
        ensures
            final(self)@.compressed == old(self)@.compressed,
            final(self)@.lists == old(self)@.lists,
            final(self)@.tables == old(self)@.tables,
            final(self)@.in_pre == old(self)@.in_pre,
            final(self)@ == old(self)@.emit_space(s@),
    {
        let starts_nl = s.len() > 0 && s[0] == '\n';
        let starts_sp = s.len() > 0 && s[0] == ' ';
        if self.pending_space && !starts_nl && !starts_sp {
            self.pending_space = false;
            let sp = vec![' '];
            assert(sp@ =~= seq![' ']);
            self.write_all(sp.as_slice());
        } else if self.pending_space && starts_nl {
            self.pending_space = false;
        }
    }

    fn emit_newlines(&mut self, s: &[char])
        ensures
            final(self)@.compressed == old(self)@.compressed,
            final(self)@.lists == old(self)@.lists,
            final(self)@.tables == old(self)@.tables,
            final(self)@.in_pre == old(self)@.in_pre,
            final(self)@ == old(self)@.emit_newlines(s@),
    {
        let needed: usize = if self.trailing_nls <= 2 {
            (2 - self.trailing_nls) as usize
        } else {
            0
        };
        let to_write: usize = if s.len() < needed {
            s.len()
        } else {
            needed
        };
        assert(to_write == old(self)@.newlines_to_write(s@));
        if to_write > 0 {
            let part = take_chars(s, to_write);
            self.write_all(part.as_slice());
        }
        let t = (self.trailing_nls as usize) + to_write;
        self.trailing_nls = if t >= 2 {
            2
        } else {
            t as u8
        };
        self.at_line_start = true;
    }

    fn emit_content(&mut self, s: &[char])
        ensures
            final(self)@.compressed == old(self)@.compressed,
            final(self)@.lists == old(self)@.lists,
            final(self)@.tables == old(self)@.tables,
            final(self)@.in_pre == old(self)@.in_pre,
            final(self)@ == old(self)@.emit_content(s@),
    {
        self.write_all(s);
        if self.at_item_start && has_visible_char(s) {
            self.at_item_start = false;
        }
        let ghost mid = self@;
        let nls = trailing_newlines(s);
        if nls > 0 {
            if s.len() > nls as usize {
                self.trailing_nls = nls;
            } else {
                let t = (self.trailing_nls as u16) + (nls as u16);
                self.trailing_nls = if t >= 2 {
                    2
                } else {
                    t as u8
                };
            }
        } else {
            self.trailing_nls = 0;
        }
        assert(self.trailing_nls == mid.trailing_after(s@));
        self.at_line_start = s.len() > 0 && s[s.len() - 1] == '\n';
    }

    pub fn emit(&mut self, s: &[char])
        ensures
            frames_kept(old(self)@, final(self)@),
            !old(self)@.pending_space ==> !final(self)@.pending_space,
            (s@.len() > 0 && s@[0] != ' ') ==> !final(self)@.pending_space,
            (old(self)@.frames_consistent() && safe_start(old(self)@, s@))
                ==> final(self)@.frames_consistent(),
            (old(self)@.tracks_output() && (s@.len() > 0 || !old(self)@.pending_space)
                && safe_start(old(self)@, s@)) ==> final(self)@.tracks_output(),
            (old(self)@.frames_consistent() && (old(self)@.in_pre ==> old(self)@.redirects.len()
                > 0) && s@.len() > 0 && !all_newlines(s@) && safe_start(old(self)@, s@))
                ==> final(self)@.tracks_output(),
            (old(self)@.compressed && old(self)@.redirects.len() == 0 && !all_newlines(s@))
                ==> final(self)@.wrote_any,
            final(self)@.compressed == old(self)@.compressed,
            final(self)@.lists == old(self)@.lists,
            final(self)@.tables == old(self)@.tables,
            final(self)@.in_pre == old(self)@.in_pre,
            final(self)@ == old(self)@.emit(s@),
    {
        let ghost s0 = self@;
        proof {
            lemma_emit(s0, s@);
        }
        self.emit_space(s);
        if is_all_newlines(s) {
            self.emit_newlines(s);
        } else {
            self.emit_content(s);
        }
    }

    pub fn raw_write(&mut self, data: &[char])
        ensures
            frames_kept(old(self)@, final(self)@),
            final(self)@.pending_space == old(self)@.pending_space,
            (old(self)@.tracks_output() && safe_start(old(self)@, data@))
                ==> final(self)@.tracks_output(),
            (old(self)@.compressed && old(self)@.redirects.len() == 0 && !all_newlines(data@))
                ==> final(self)@.wrote_any,
            final(self)@.compressed == old(self)@.compressed,
            final(self)@.lists == old(self)@.lists,
            final(self)@.tables == old(self)@.tables,
            final(self)@.in_pre == old(self)@.in_pre,
            final(self)@ == old(self)@.raw_write(data@),
    {
        let ghost s0 = self@;
        proof {
            lemma_raw_write(s0, data@);
        }
        if data.len() == 0 {
            return;
        }
        self.write_all(data);
        self.at_line_start = data[data.len() - 1] == '\n';
        let nls = trailing_newlines(data);
        if data.len() > nls as usize {
            self.trailing_nls = nls;
        } else {
            let t = (self.trailing_nls as u16) + (nls as u16);
            self.trailing_nls = if t >= 2 {
                2
            } else {
                t as u8
            };
        }
    }

    pub fn emit_u32(&mut self, n: u32)
        ensures
            frames_kept(old(self)@, final(self)@),
            old(self)@.frames_consistent() ==> final(self)@.frames_consistent(),
            final(self)@.compressed == old(self)@.compressed,
            final(self)@.lists == old(self)@.lists,
            final(self)@.tables == old(self)@.tables,
            final(self)@.in_pre == old(self)@.in_pre,
            final(self)@ == old(self)@.emit_u32(n),
    {
        let ghost s0 = self@;
        proof {
            lemma_decimal_start(n as nat);
            lemma_write_all(s0, decimal(n as nat));
        }
        let d = decimal_chars(n);
        self.write_all(d.as_slice());
    }

    pub fn enter_redirect(&mut self)
        ensures
            final(self)@.compressed == old(self)@.compressed,
            final(self)@.wrote_any == old(self)@.wrote_any,
            final(self)@.in_pre == old(self)@.in_pre,
            final(self)@.redirects.len() == old(self)@.redirects.len() + 1,
            old(self)@.redirects.len() > 0 ==> final(self)@.redirects[0] == old(self)@.redirects[0],
            !final(self)@.pending_space,
            old(self)@.tracks_output() ==> final(self)@.tracks_output(),
            final(self)@ == old(self)@.enter_redirect(),
    {
        let ghost s0 = self@;
        proof {
            lemma_enter_redirect(s0);
        }
        self.redirect_stack.push(
            Redirect {
                buf: Vec::new(),
                saved_at_line_start: self.at_line_start,
                saved_at_item_start: self.at_item_start,
                saved_pending_space: self.pending_space,
                saved_trailing_nls: self.trailing_nls,
            },
        );
        self.at_line_start = true;
        self.at_item_start = false;
        self.pending_space = false;
        self.trailing_nls = 0;
        assert(redirects_view(self.redirect_stack@) =~= old(self)@.enter_redirect().redirects);
    }

    pub fn leave_redirect(&mut self) -> (r: Option<Redirect>)
        ensures
            (final(self)@, match r {
                Some(x) => Some(x@),
                None => None,
            }) == old(self)@.leave_redirect(),
            final(self)@.compressed == old(self)@.compressed,
            (r is Some) == (old(self)@.redirects.len() > 0),
            old(self)@.redirects.len() > 0 ==> final(self)@.redirects.len()
                == old(self)@.redirects.len() - 1,
            old(self)@.redirects.len() > 1 ==> final(self)@.redirects[0] == old(self)@.redirects[0],
            final(self)@.wrote_any == old(self)@.wrote_any,
            final(self)@.in_pre == old(self)@.in_pre,
            (old(self)@.tracks_output() && (old(self)@.in_pre ==> old(self)@.redirects.len() > 1))
                ==> final(self)@.tracks_output(),
    {
        proof {
            lemma_leave_redirect(self@);
        }
        match self.redirect_stack.pop() {
            None => None,
            Some(state) => {
                self.at_line_start = state.saved_at_line_start;
                self.at_item_start = state.saved_at_item_start;
                self.pending_space = state.saved_pending_space;
                self.trailing_nls = state.saved_trailing_nls;
                assert(redirects_view(self.redirect_stack@) =~= old(self)@.redirects.drop_last());
                Some(state)
            },
        }
    }

    pub fn tight_block(&self) -> (r: bool)
        ensures
            r == self@.tight_block(),
    {
        self.compressed && self.list_stack.len() > 0
    }

    pub fn ensure_blank_line(&mut self)
        ensures
            frames_kept(old(self)@, final(self)@),
            !final(self)@.pending_space,
            old(self)@.tracks_output() ==> final(self)@.tracks_output(),
            final(self)@.compressed == old(self)@.compressed,
            final(self)@.lists == old(self)@.lists,
            final(self)@.tables == old(self)@.tables,
            final(self)@.in_pre == old(self)@.in_pre,
            final(self)@ == old(self)@.ensure_blank_line(),
    {
        let ghost s0 = self@;
        proof {
            lemma_ensure_blank_line(s0);
        }
        self.pending_space = false;
        if self.table_stack.len() > 0 {
            return;
        }
        if self.at_item_start {
            return;
        }
        if self.tight_block() {
            if self.trailing_nls == 0 {
                let nl = vec!['\n'];
                assert(nl@ =~= nl1());
                self.emit(nl.as_slice());
            }
            self.at_line_start = true;
            return;
        }
        if self.trailing_nls == 0 {
            let nl = vec!['\n', '\n'];
            assert(nl@ =~= nl2());
            self.emit(nl.as_slice());
        } else if self.trailing_nls == 1 {
            let nl = vec!['\n'];
            assert(nl@ =~= nl1());
            self.emit(nl.as_slice());
        }
        self.at_line_start = true;
    }

    pub fn end_block(&mut self)
        ensures
            frames_kept(old(self)@, final(self)@),
            !old(self)@.pending_space ==> !final(self)@.pending_space,
            old(self)@.tracks_output() ==> final(self)@.tracks_output(),
            final(self)@.compressed == old(self)@.compressed,
            final(self)@.lists == old(self)@.lists,
            final(self)@.tables == old(self)@.tables,
            final(self)@.in_pre == old(self)@.in_pre,
            final(self)@ == old(self)@.end_block(),
    {
        let ghost s0 = self@;
        proof {
            lemma_end_block(s0);
        }
        if self.tight_block() {
            if self.trailing_nls == 0 {
                let nl = vec!['\n'];
                assert(nl@ =~= nl1());
                self.emit(nl.as_slice());
            }
        } else {
            let nl = vec!['\n', '\n'];
            assert(nl@ =~= nl2());
            self.emit(nl.as_slice());
        }
        self.at_line_start = true;
    }

    pub fn finalize(&mut self)
        ensures
            final(self)@ == old(self)@.finalize(),
    {
        if self.compressed {
            self.pending_nls = 0;
            if self.wrote_any {
                self.sink.push('\n');
            }
            return;
        }
        if self.trailing_nls == 0 {
            self.sink.push('\n');
        }
    }

    pub fn emit_text(&mut self, text: &[char])
        ensures
            frames_kept(old(self)@, final(self)@),
            old(self)@.tracks_output() ==> final(self)@.tracks_output(),
            final(self)@.compressed == old(self)@.compressed,
            final(self)@.lists == old(self)@.lists,
            final(self)@.tables == old(self)@.tables,
            final(self)@.in_pre == old(self)@.in_pre,
            final(self)@ == old(self)@.emit_text(text@),
    {
        let ghost s0 = self@;
        proof {
            lemma_emit_text(s0, text@);
        }
        if self.in_pre {
            if text.len() > 0 {
                self.emit(text);
            }
            return;
        }
        self.emit_text_normalized(text);
    }

    pub fn emit_text_normalized(&mut self, text: &[char])
        ensures
            final(self)@.compressed == old(self)@.compressed,
            final(self)@.lists == old(self)@.lists,
            final(self)@.tables == old(self)@.tables,
            final(self)@.in_pre == old(self)@.in_pre,
            final(self)@ == old(self)@.emit_text_normalized(text@),
    {
        let lead = self.at_line_start || self.at_item_start;
        let t1: Vec<char> = if lead {
            trim_start_chars(text)
        } else {
            let mut v: Vec<char> = Vec::new();
            push_all(&mut v, text);
            assert(v@ =~= text@);
            v
        };
        if lead && t1.len() == 0 {
            return;
        }
        let (buf, last_ws) = normalize_text(t1.as_slice(), self.at_line_start);
        if buf.len() > 0 {
            self.emit(buf.as_slice());
        }
        if last_ws {
            self.pending_space = true;
        }
    }

    pub fn emit_alt(&mut self, alt: &[char])
        ensures
            frames_kept(old(self)@, final(self)@),
            old(self)@.tracks_output() ==> final(self)@.tracks_output(),
            final(self)@.compressed == old(self)@.compressed,
            final(self)@.lists == old(self)@.lists,
            final(self)@.tables == old(self)@.tables,
            final(self)@.in_pre == old(self)@.in_pre,
            final(self)@ == old(self)@.emit_alt(alt@),
    {
        let ghost s0 = self@;
        proof {
            lemma_emit_alt(s0, alt@);
        }
        if alt.len() == 0 {
            return;
        }
        if !self.compressed {
            self.emit(alt);
            return;
        }
        let buf = collapse_alt(alt);
        if buf.len() > 0 {
            self.emit(buf.as_slice());
        }
    }

    pub fn emit_url(&mut self, url: &[char])
        ensures
            frames_kept(old(self)@, final(self)@),
            (old(self)@.tracks_output() && (url@.len() > 0 || !old(self)@.pending_space))
                ==> final(self)@.tracks_output(),
            final(self)@.compressed == old(self)@.compressed,
            final(self)@.lists == old(self)@.lists,
            final(self)@.tables == old(self)@.tables,
            final(self)@.in_pre == old(self)@.in_pre,
            final(self)@ == old(self)@.emit_url(url@),
    {
        let ghost s0 = self@;
        proof {
            lemma_emit_url(s0, url@);
        }
        let u = format_url(url);
        self.emit(u.as_slice());
    }
}

} // verus!
