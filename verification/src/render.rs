//! Walking the document tree and writing Markdown for each element.

use vstd::prelude::*;
use crate::chars::{chars_eq, parse_u32, push_all, repeat_char};
use crate::render_spec::{
    add_cell, alt_marker, chosen_marker, class_language, closing_fence, code_delim_len,
    code_language, code_padded, code_span, collect_text, collect_texts, fence, find_attr,
    finish_row, first_nl, fits, fuel, item_marker, language_prefix, list_close, list_open,
    list_start, new_table, next_counter, pre_close, pre_open, quote_line, quote_lines,
    render_blockquote, render_break, render_cell, render_code, render_element, render_heading,
    render_image, render_inline, render_item, render_link, render_list, render_paragraph,
    render_pre, render_rule, render_table, render_thead, render_tr, set_in_header, text_fuel,
    walk_inline, walk_node, walk_nodes, MAX_DEPTH,
};
use crate::state::{
    cells_view, frames_kept, nl1, rows_view, tables_view, ConvState, Converter, ListInfo,
    TableRow, TableState,
};
use crate::table::finish_table;
use crate::tags::{classify, Tag};
use crate::text::{
    all_newlines, collapse_whitespace, ends_with, lemma_collapse_ws_one_line, list_indent_str,
    longest_backtick_run, normalize_cell, slice_contains, starts_with, trim_end_newlines,
    trim_end_newlines_spaces,
};
use crate::tree::{Attr, HtmlNode, height, lemma_max_height, max_height};

verus! {

/// The value of the first attribute named `name`.
pub fn find_attr_value<'a>(attrs: &'a Vec<Attr>, name: &[char]) -> (r: Option<&'a Vec<char>>)
    ensures
        match r {
            Some(v) => find_attr(attrs@, name@) == Some(v@),
            None => find_attr(attrs@, name@) is None,
        },
{
    let mut i: usize = 0;
    assert(attrs@.skip(0) =~= attrs@);
    while i < attrs.len()
        invariant
            i <= attrs@.len(),
            find_attr(attrs@, name@) == find_attr(attrs@.skip(i as int), name@),
        decreases attrs@.len() - i,
    {
        assert(attrs@.skip(i as int).drop_first() =~= attrs@.skip(i + 1));
        assert(attrs@.skip(i as int)[0] == attrs@[i as int]);
        if chars_eq(attrs[i].name.as_slice(), name) {
            return Some(&attrs[i].value);
        }
        i += 1;
    }
    None
}

/// The language of the first `class` attribute of the form `language-*`.
fn class_language_exec(attrs: &Vec<Attr>) -> (r: Option<Vec<char>>)
    ensures
        match r {
            Some(v) => class_language(attrs@) == Some(v@),
            None => class_language(attrs@) is None,
        },
{
    let prefix = ['l', 'a', 'n', 'g', 'u', 'a', 'g', 'e', '-'];
    assert(prefix@ =~= language_prefix());
    let mut i: usize = 0;
    assert(attrs@.skip(0) =~= attrs@);
    while i < attrs.len()
        invariant
            prefix@ == language_prefix(),
            i <= attrs@.len(),
            class_language(attrs@) == class_language(attrs@.skip(i as int)),
        decreases attrs@.len() - i,
    {
        assert(attrs@.skip(i as int).drop_first() =~= attrs@.skip(i + 1));
        assert(attrs@.skip(i as int)[0] == attrs@[i as int]);
        let a = &attrs[i];
        if chars_eq(a.name.as_slice(), &['c', 'l', 'a', 's', 's']) && a.value.len() >= 9 {
            let mut head: Vec<char> = Vec::new();
            let mut k: usize = 0;
            while k < 9
                invariant
                    k <= 9 <= a.value@.len(),
                    head@ == a.value@.take(k as int),
                decreases 9 - k,
            {
                head.push(a.value[k]);
                k += 1;
                assert(head@ =~= a.value@.take(k as int));
            }
            if chars_eq(head.as_slice(), &prefix) {
                let mut rest: Vec<char> = Vec::new();
                let mut j: usize = 9;
                while j < a.value.len()
                    invariant
                        9 <= j <= a.value@.len(),
                        rest@ == a.value@.subrange(9, j as int),
                    decreases a.value@.len() - j,
                {
                    rest.push(a.value[j]);
                    j += 1;
                    assert(rest@ =~= a.value@.subrange(9, j as int));
                }
                assert(rest@ =~= a.value@.skip(9));
                return Some(rest);
            }
        }
        i += 1;
    }
    None
}

/// The language of a code block (see [`code_language`]).
fn code_language_exec(kids: &Vec<HtmlNode>) -> (r: Option<Vec<char>>)
    ensures
        match r {
            Some(v) => code_language(kids@) == Some(v@),
            None => code_language(kids@) is None,
        },
{
    let mut i: usize = 0;
    assert(kids@.skip(0) =~= kids@);
    while i < kids.len()
        invariant
            i <= kids@.len(),
            code_language(kids@) == code_language(kids@.skip(i as int)),
        decreases kids@.len() - i,
    {
        assert(kids@.skip(i as int).drop_first() =~= kids@.skip(i + 1));
        assert(kids@.skip(i as int)[0] == kids@[i as int]);
        match &kids[i] {
            HtmlNode::Element { name, attrs, .. } => {
                if chars_eq(name.as_slice(), &['c', 'o', 'd', 'e']) {
                    let l = class_language_exec(attrs);
                    if l.is_some() {
                        return l;
                    }
                }
            },
            _ => {},
        }
        i += 1;
    }
    None
}

/// Appends the text under `n` (at depth `d`) to `out`; false when a node lies
/// below [`MAX_DEPTH`].
fn collect_text_exec(n: &HtmlNode, d: usize, out: &mut Vec<char>) -> (ok: bool)
    requires
        d <= MAX_DEPTH + 1,
    ensures
        ok == collect_text(*n, d as nat) is Some,
        ok ==> final(out)@ == old(out)@ + collect_text(*n, d as nat)->0,
        d + height(*n) <= MAX_DEPTH ==> ok,
    decreases text_fuel(d as nat), 0nat, 0nat,
{
    if d > MAX_DEPTH {
        return false;
    }
    match n {
        HtmlNode::Text { contents } => {
            push_all(out, contents.as_slice());
            true
        },
        HtmlNode::Element { children, .. } => collect_texts_exec(children, d + 1, out),
        _ => {
            assert(out@ =~= old(out)@ + Seq::<char>::empty());
            true
        },
    }
}

fn collect_texts_exec(kids: &Vec<HtmlNode>, d: usize, out: &mut Vec<char>) -> (ok: bool)
    requires
        d <= MAX_DEPTH + 1,
    ensures
        ok == collect_texts(kids@, d as nat) is Some,
        ok ==> final(out)@ == old(out)@ + collect_texts(kids@, d as nat)->0,
        (kids@.len() == 0 || d + max_height(kids@) <= MAX_DEPTH) ==> ok,
    decreases text_fuel(d as nat), 1nat, 0nat,
{
    let mut i: usize = 0;
    assert(kids@.skip(0) =~= kids@);
    while i < kids.len()
        invariant
            d <= MAX_DEPTH + 1,
            i <= kids@.len(),
            collect_texts(kids@, d as nat) is Some <==> (collect_texts(kids@.skip(i as int), d as nat) is Some && collect_texts(kids@, d as nat) == collect_texts(kids@, d as nat)),
            collect_texts(kids@, d as nat) is Some ==> collect_texts(kids@, d as nat)->0 == (out@ + collect_texts(kids@.skip(i as int), d as nat)->0).subrange(old(out)@.len() as int, (out@ + collect_texts(kids@.skip(i as int), d as nat)->0).len() as int),
            out@.len() >= old(out)@.len(),
            out@.subrange(0, old(out)@.len() as int) == old(out)@,
        decreases kids@.len() - i,
    {
        assert(kids@.skip(i as int).drop_first() =~= kids@.skip(i + 1));
        assert(kids@.skip(i as int)[0] == kids@[i as int]);
        let ghost before = out@;
        proof {
            if d + max_height(kids@) <= MAX_DEPTH {
                lemma_max_height(kids@, i as int);
            }
        }
        if !collect_text_exec(&kids[i], d, out) {
            return false;
        }
        proof {
            let a = collect_text(kids@[i as int], d as nat)->0;
            assert(out@ == before + a);
            if collect_texts(kids@.skip(i + 1), d as nat) is Some {
                let b = collect_texts(kids@.skip(i + 1), d as nat)->0;
                assert(before + (a + b) =~= out@ + b);
            }
            assert(out@.subrange(0, old(out)@.len() as int) =~= before.subrange(0, old(out)@.len() as int));
        }
        i += 1;
    }
    proof {
        assert(kids@.skip(kids@.len() as int) =~= Seq::<HtmlNode>::empty());
        if collect_texts(kids@, d as nat) is Some {
            assert(out@ + Seq::<char>::empty() =~= out@);
            assert(out@ =~= old(out)@ + out@.subrange(old(out)@.len() as int, out@.len() as int));
        }
    }
    true
}

fn list_start_exec(ordered: bool, attrs: &Vec<Attr>) -> (n: u32)
    ensures
        n == list_start(ordered, attrs@),
{
    if ordered {
        match find_attr_value(attrs, &['s', 't', 'a', 'r', 't']) {
            Some(v) => match parse_u32(v.as_slice()) {
                Some(n) => n,
                None => 1,
            },
            None => 1,
        }
    } else {
        1
    }
}

impl Converter {
    fn emit_lit(&mut self, c: char)
        ensures
            frames_kept(old(self)@, final(self)@),
            old(self)@.tracks_output() ==> final(self)@.tracks_output(),
            !old(self)@.pending_space ==> !final(self)@.pending_space,
            c != ' ' ==> !final(self)@.pending_space,
            final(self)@ == old(self)@.emit(seq![c]),
    {
        let v = vec![c];
        assert(v@ =~= seq![c]);
        self.emit(v.as_slice());
    }

    fn emit_code_span(&mut self, buf: &Vec<char>)
        ensures
            frames_kept(old(self)@, final(self)@),
            old(self)@.tracks_output() ==> final(self)@.tracks_output(),
            final(self)@ == code_span(old(self)@, buf@),
    {
        let max_run = longest_backtick_run(buf.as_slice());
        let sp = (buf.len() > 0 && buf[0] == ' ') || (buf.len() > 0 && buf[buf.len() - 1] == ' ');
        assert(sp == (starts_with(buf@, ' ') || ends_with(buf@, ' ')));
        let delim: Vec<char> = if max_run > 0 {
            let mut v = repeat_char('`', max_run);
            v.push('`');
            v
        } else if sp {
            repeat_char('`', 2)
        } else {
            repeat_char('`', 1)
        };
        assert(delim@ =~= crate::chars::repeat('`', code_delim_len(buf@)));
        assert(code_delim_len(buf@) >= 1);
        assert(delim@[0] == '`');
        assert(!all_newlines(delim@));
        let bt = (buf.len() > 0 && buf[0] == '`') || (buf.len() > 0 && buf[buf.len() - 1] == '`');
        assert(bt == (starts_with(buf@, '`') || ends_with(buf@, '`')));
        let pad = (max_run > 0 || sp) && (sp || bt || buf.len() == 0);
        assert(pad == code_padded(buf@));
        self.emit(delim.as_slice());
        if pad {
            self.emit_lit(' ');
        }
        self.emit(buf.as_slice());
        if pad {
            self.emit_lit(' ');
        }
        self.emit(delim.as_slice());
    }

    fn emit_quote_line(&mut self, content: &Vec<char>, start: usize, end: usize)
        requires
            start <= end <= content@.len(),
        ensures
            frames_kept(old(self)@, final(self)@),
            old(self)@.tracks_output() ==> final(self)@.tracks_output(),
            final(self)@ == quote_line(old(self)@, content@.subrange(start as int, end as int)),
    {
        self.emit(&['>', ' ']);
        if end > start {
            let mut line: Vec<char> = Vec::new();
            let mut k: usize = start;
            while k < end
                invariant
                    start <= k <= end <= content@.len(),
                    line@ == content@.subrange(start as int, k as int),
                decreases end - k,
            {
                line.push(content[k]);
                k += 1;
                assert(line@ =~= content@.subrange(start as int, k as int));
            }
            self.raw_write(line.as_slice());
        }
        self.emit_lit('\n');
    }

    fn emit_quoted(&mut self, content: &Vec<char>)
        ensures
            frames_kept(old(self)@, final(self)@),
            old(self)@.tracks_output() ==> final(self)@.tracks_output(),
            final(self)@ == quote_lines(old(self)@, content@),
    {
        let ghost s0 = self@;
        let mut start: usize = 0;
        assert(content@.skip(0) =~= content@);
        loop
            invariant
                s0 == old(self)@,
                start <= content@.len(),
                frames_kept(s0, self@),
                s0.tracks_output() ==> self@.tracks_output(),
                quote_lines(s0, content@) == quote_lines(self@, content@.skip(start as int)),
            decreases content@.len() - start,
        {
            let ghost rest = content@.skip(start as int);
            let mut k: usize = start;
            while k < content.len() && content[k] != '\n'
                invariant
                    start <= k <= content@.len(),
                    rest == content@.skip(start as int),
                    first_nl(rest) == (k - start) + first_nl(content@.skip(k as int)),
                    forall|j: int| start <= j < k ==> content@[j] != '\n',
                decreases content@.len() - k,
            {
                assert(content@.skip(k as int).drop_first() =~= content@.skip(k + 1));
                k += 1;
            }
            assert(first_nl(content@.skip(k as int)) == 0);
            assert(rest.take(k - start) =~= content@.subrange(start as int, k as int));
            let ghost before = self@;
            self.emit_quote_line(content, start, k);
            assert(first_nl(rest) == k - start);
            assert(self@ == quote_line(before, rest.take(first_nl(rest) as int)));
            if k < content.len() {
                assert(rest.skip(k - start + 1) =~= content@.skip(k + 1));
                assert(quote_lines(before, rest) == quote_lines(self@, rest.skip(first_nl(rest) + 1int)));
                start = k + 1;
            } else {
                assert(quote_lines(before, rest) == self@);
                return;
            }
        }
    }

    fn set_table_header(&mut self, b: bool)
        ensures
            frames_kept(old(self)@, final(self)@),
            old(self)@.tracks_output() ==> final(self)@.tracks_output(),
            final(self)@ == set_in_header(old(self)@, b),
    {
        match self.table_stack.pop() {
            None => {},
            Some(t) => {
                let mut t = t;
                t.in_header = b;
                self.table_stack.push(t);
                assert(tables_view(self.table_stack@) =~= set_in_header(old(self)@, b).tables);
            },
        }
    }

    fn finish_table_row(&mut self)
        ensures
            frames_kept(old(self)@, final(self)@),
            old(self)@.tracks_output() ==> final(self)@.tracks_output(),
            final(self)@ == finish_row(old(self)@),
    {
        match self.table_stack.pop() {
            None => {},
            Some(t) => {
                let mut t = t;
                if t.current_row.len() > 0 {
                    let is_header = t.in_header || t.current_row_has_th;
                    t.current_row_has_th = false;
                    let mut cells: Vec<Vec<char>> = Vec::new();
                    std::mem::swap(&mut cells, &mut t.current_row);
                    t.rows.push(TableRow { cells, is_header });
                    assert(rows_view(t.rows@) =~= old(self)@.tables.last().rows.push(
                        crate::state::RowV { cells: old(self)@.tables.last().current_row, is_header },
                    ));
                    assert(cells_view(t.current_row@) =~= Seq::<Seq<char>>::empty());
                }
                self.table_stack.push(t);
                assert(tables_view(self.table_stack@) =~= finish_row(old(self)@).tables);
            },
        }
    }

    fn add_table_cell(&mut self, is_th: bool, cell: Vec<char>)
        ensures
            frames_kept(old(self)@, final(self)@),
            old(self)@.tracks_output() ==> final(self)@.tracks_output(),
            final(self)@ == add_cell(old(self)@, is_th, cell@),
    {
        match self.table_stack.pop() {
            None => {},
            Some(t) => {
                let mut t = t;
                if is_th {
                    t.current_row_has_th = true;
                }
                t.current_row.push(cell);
                assert(cells_view(t.current_row@) =~= old(self)@.tables.last().current_row.push(
                    cell@,
                ));
                self.table_stack.push(t);
                assert(tables_view(self.table_stack@) =~= add_cell(
                    old(self)@,
                    is_th,
                    cell@,
                ).tables);
            },
        }
    }

    fn emit_item_marker(&mut self)
        ensures
            !final(self)@.pending_space,
            frames_kept(old(self)@, final(self)@),
            old(self)@.tracks_output() ==> final(self)@.tracks_output(),
            final(self)@ == item_marker(old(self)@),
    {
        let n = self.list_stack.len();
        if n >= 2 {
            let ind = list_indent_str(n - 1);
            self.emit(ind.as_slice());
        }
        let m = self.list_stack.len();
        let ordered = m > 0 && self.list_stack[m - 1].ordered;
        if ordered {
            let info = self.list_stack.pop().unwrap();
            let next: u32 = if info.counter == u32::MAX {
                0
            } else {
                info.counter + 1
            };
            self.list_stack.push(ListInfo { ordered: info.ordered, counter: next });
            assert(next == next_counter(info.counter));
            self.emit_u32(info.counter);
            self.emit(&['.', ' ']);
        } else {
            self.emit(&['-', ' ']);
        }
    }

    /// Walks a node whose parent is at `depth`; false when the walk went
    /// below [`MAX_DEPTH`].
    pub fn walk(&mut self, node: &HtmlNode, depth: usize) -> (ok: bool)
        requires
            depth <= MAX_DEPTH,
        ensures
            (ok && old(self)@.tracks_output()) ==> (final(self)@.tracks_output() && frames_kept(
                old(self)@,
                final(self)@,
            )),
            depth + 1 + height(*node) <= MAX_DEPTH ==> ok,
            (final(self)@, ok) == walk_node(old(self)@, *node, depth as nat),
        decreases fuel(depth as nat), 0nat, 0nat,
    {
        let d = depth + 1;
        if d > MAX_DEPTH {
            return false;
        }
        match node {
            HtmlNode::Document { children } => self.walk_children(children, d),
            HtmlNode::Text { contents } => {
                self.emit_text(contents.as_slice());
                true
            },
            HtmlNode::Element { name, attrs, children } => self.handle_element(
                name,
                attrs,
                children,
                d,
            ),
            _ => true,
        }
    }

    /// Walks the children of a node at `depth`, in order, stopping at the first failure.
    pub fn walk_children(&mut self, kids: &Vec<HtmlNode>, depth: usize) -> (ok: bool)
        requires
            depth <= MAX_DEPTH,
        ensures
            (ok && old(self)@.tracks_output()) ==> (final(self)@.tracks_output() && frames_kept(
                old(self)@,
                final(self)@,
            )),
            fits(kids@, depth as nat) ==> ok,
            (final(self)@, ok) == walk_nodes(old(self)@, kids@, depth as nat),
        decreases fuel(depth as nat), 2nat, 0nat,
    {
        let ghost s0 = self@;
        let mut i: usize = 0;
        assert(kids@.skip(0) =~= kids@);
        while i < kids.len()
            invariant
                s0 == old(self)@,
                depth <= MAX_DEPTH,
                i <= kids@.len(),
                s0.tracks_output() ==> (self@.tracks_output() && frames_kept(s0, self@)),
                walk_nodes(s0, kids@, depth as nat) == walk_nodes(
                    self@,
                    kids@.skip(i as int),
                    depth as nat,
                ),
            decreases kids@.len() - i,
        {
            assert(kids@.skip(i as int).drop_first() =~= kids@.skip(i + 1));
            assert(kids@.skip(i as int)[0] == kids@[i as int]);
            let ghost before = self@;
            proof {
                if fits(kids@, depth as nat) {
                    lemma_max_height(kids@, i as int);
                }
            }
            let ok = self.walk(&kids[i], depth);
            if !ok {
                assert(walk_nodes(before, kids@.skip(i as int), depth as nat) == (self@, false));
                assert(!fits(kids@, depth as nat));
                return false;
            }
            i += 1;
        }
        assert(kids@.skip(i as int) =~= Seq::<HtmlNode>::empty());
        true
    }

    fn walk_inline_children(&mut self, kids: &Vec<HtmlNode>, depth: usize) -> (ok: bool)
        requires
            depth <= MAX_DEPTH,
        ensures
            (ok && old(self)@.tracks_output()) ==> (final(self)@.tracks_output() && frames_kept(
                old(self)@,
                final(self)@,
            )),
            fits(kids@, depth as nat) ==> ok,
            (final(self)@, ok) == walk_inline(old(self)@, kids@, depth as nat),
        decreases fuel(depth as nat), 4nat, 0nat,
    {
        if !self.compressed {
            return self.walk_children(kids, depth);
        }
        self.enter_redirect();
        let walked = self.walk_children(kids, depth);
        let state = match self.leave_redirect() {
            None => {
                return walked;
            },
            Some(st) => st,
        };
        if !walked {
            return false;
        }
        let buf = collapse_whitespace(state.buf.as_slice());
        proof {
            lemma_collapse_ws_one_line(state.buf@);
            if buf@.len() > 0 {
                assert(buf@[0] != ' ');
            }
        }
        self.raw_write(buf.as_slice());
        true
    }

    fn handle_element(
        &mut self,
        name: &Vec<char>,
        attrs: &Vec<Attr>,
        kids: &Vec<HtmlNode>,
        depth: usize,
    ) -> (ok: bool)
        requires
            depth <= MAX_DEPTH,
        ensures
            (ok && old(self)@.tracks_output()) ==> (final(self)@.tracks_output() && frames_kept(
                old(self)@,
                final(self)@,
            )),
            fits(kids@, depth as nat) ==> ok,
            (final(self)@, ok) == render_element(old(self)@, name@, attrs@, kids@, depth as nat),
        decreases fuel(depth as nat), 6nat, 0nat,
    {
        match classify(name.as_slice()) {
            Tag::Heading(l) => self.handle_heading(l, kids, depth),
            Tag::Paragraph => self.handle_paragraph(kids, depth),
            Tag::Blockquote => self.handle_blockquote(kids, depth),
            Tag::Pre => self.handle_pre(kids, depth),
            Tag::Rule => {
                self.handle_hr();
                true
            },
            Tag::Break => {
                self.handle_br();
                true
            },
            Tag::Section => {
                self.ensure_blank_line();
                self.walk_children(kids, depth)
            },
            Tag::List(o) => self.handle_list(o, attrs, kids, depth),
            Tag::Item => self.handle_list_item(kids, depth),
            Tag::Table => self.handle_table(kids, depth),
            Tag::TableHead => self.handle_thead(kids, depth),
            Tag::TableRow => self.handle_tr(kids, depth),
            Tag::Cell(th) => self.handle_cell(th, kids, depth),
            Tag::Strong => self.handle_inline(&['*', '*'], kids, depth),
            Tag::Emphasis => {
                let m = vec!['*'];
                assert(m@ =~= seq!['*']);
                self.handle_inline(m.as_slice(), kids, depth)
            },
            Tag::Strike => self.handle_inline(&['~', '~'], kids, depth),
            Tag::Code => self.handle_code(kids, depth),
            Tag::Link => self.handle_link(attrs, kids, depth),
            Tag::Image => {
                self.handle_image(attrs);
                true
            },
            Tag::Skip => true,
            Tag::Other => self.walk_children(kids, depth),
        }
    }

    fn handle_heading(&mut self, level: u8, kids: &Vec<HtmlNode>, depth: usize) -> (ok: bool)
        requires
            depth <= MAX_DEPTH,
        ensures
            (ok && old(self)@.tracks_output()) ==> (final(self)@.tracks_output() && frames_kept(
                old(self)@,
                final(self)@,
            )),
            fits(kids@, depth as nat) ==> ok,
            (final(self)@, ok) == render_heading(old(self)@, level, kids@, depth as nat),
        decreases fuel(depth as nat), 5nat, 0nat,
    {
        self.ensure_blank_line();
        let hashes = repeat_char('#', level as usize);
        self.emit(hashes.as_slice());
        self.emit_lit(' ');
        if !self.walk_inline_children(kids, depth) {
            return false;
        }
        self.end_block();
        true
    }

    fn handle_paragraph(&mut self, kids: &Vec<HtmlNode>, depth: usize) -> (ok: bool)
        requires
            depth <= MAX_DEPTH,
        ensures
            (ok && old(self)@.tracks_output()) ==> (final(self)@.tracks_output() && frames_kept(
                old(self)@,
                final(self)@,
            )),
            fits(kids@, depth as nat) ==> ok,
            (final(self)@, ok) == render_paragraph(old(self)@, kids@, depth as nat),
        decreases fuel(depth as nat), 5nat, 0nat,
    {
        if self.table_stack.len() > 0 {
            return self.walk_children(kids, depth);
        }
        self.ensure_blank_line();
        if !self.walk_children(kids, depth) {
            return false;
        }
        self.end_block();
        true
    }

    fn handle_blockquote(&mut self, kids: &Vec<HtmlNode>, depth: usize) -> (ok: bool)
        requires
            depth <= MAX_DEPTH,
        ensures
            (ok && old(self)@.tracks_output()) ==> (final(self)@.tracks_output() && frames_kept(
                old(self)@,
                final(self)@,
            )),
            fits(kids@, depth as nat) ==> ok,
            (final(self)@, ok) == render_blockquote(old(self)@, kids@, depth as nat),
        decreases fuel(depth as nat), 5nat, 0nat,
    {
        self.ensure_blank_line();
        self.enter_redirect();
        self.trailing_nls = 2;
        if !self.walk_children(kids, depth) {
            return false;
        }
        let state = match self.leave_redirect() {
            None => {
                return true;
            },
            Some(st) => st,
        };
        let mut content = state.buf;
        trim_end_newlines_spaces(&mut content);
        if content.len() == 0 {
            return true;
        }
        self.emit_quoted(&content);
        self.end_block();
        true
    }

    fn open_pre(&mut self, kids: &Vec<HtmlNode>)
        ensures
            final(self)@.compressed == old(self)@.compressed,
            final(self)@.redirects.len() == old(self)@.redirects.len() + 1,
            old(self)@.redirects.len() > 0 ==> final(self)@.redirects[0].saved_trailing_nls
                == old(self)@.redirects[0].saved_trailing_nls,
            old(self)@.tracks_output() ==> final(self)@.tracks_output(),
            old(self)@.wrote_any ==> final(self)@.wrote_any,
            (old(self)@.compressed && old(self)@.redirects.len() == 0) ==> final(self)@.wrote_any,
            final(self)@ == pre_open(old(self)@, kids@),
    {
        self.ensure_blank_line();
        let lang = code_language_exec(kids);
        let f = ['`', '`', '`'];
        assert(f@ =~= fence());
        assert(f@[0] == '`' && !all_newlines(f@));
        self.emit(&f);
        match lang {
            Some(l) => self.emit(l.as_slice()),
            None => {},
        }
        self.emit_lit('\n');
        self.enter_redirect();
        self.in_pre = true;
    }

    fn close_pre(&mut self)
        ensures
            final(self)@.compressed == old(self)@.compressed,
            old(self)@.redirects.len() > 0 ==> final(self)@.redirects.len()
                == old(self)@.redirects.len() - 1,
            old(self)@.redirects.len() > 1 ==> final(self)@.redirects[0].saved_trailing_nls
                == old(self)@.redirects[0].saved_trailing_nls,
            old(self)@.wrote_any ==> final(self)@.wrote_any,
            !final(self)@.in_pre,
            (old(self)@.tracks_output() && ((old(self)@.compressed && old(self)@.redirects.len()
                == 1) ==> old(self)@.wrote_any)) ==> final(self)@.tracks_output(),
            final(self)@ == pre_close(old(self)@),
    {
        self.in_pre = false;
        let state = match self.leave_redirect() {
            None => {
                return;
            },
            Some(st) => st,
        };
        let mut content = state.buf;
        trim_end_newlines(&mut content);
        self.raw_write(content.as_slice());
        self.trailing_nls = 0;
        let close = ['\n', '`', '`', '`', '\n'];
        assert(close@ =~= closing_fence());
        assert(close@[1] == '`' && !all_newlines(close@));
        self.emit(&close);
        self.at_line_start = true;
    }

    fn handle_pre(&mut self, kids: &Vec<HtmlNode>, depth: usize) -> (ok: bool)
        requires
            depth <= MAX_DEPTH,
        ensures
            (ok && old(self)@.tracks_output()) ==> (final(self)@.tracks_output() && frames_kept(
                old(self)@,
                final(self)@,
            )),
            fits(kids@, depth as nat) ==> ok,
            (final(self)@, ok) == render_pre(old(self)@, kids@, depth as nat),
        decreases fuel(depth as nat), 5nat, 0nat,
    {
        self.open_pre(kids);
        if !self.walk_children(kids, depth) {
            return false;
        }
        self.close_pre();
        true
    }

    fn handle_hr(&mut self)
        ensures
            frames_kept(old(self)@, final(self)@),
            old(self)@.tracks_output() ==> final(self)@.tracks_output(),
            final(self)@ == render_rule(old(self)@),
    {
        self.ensure_blank_line();
        self.emit(&['-', '-', '-', '\n']);
        self.at_line_start = true;
    }

    fn handle_br(&mut self)
        ensures
            frames_kept(old(self)@, final(self)@),
            old(self)@.tracks_output() ==> final(self)@.tracks_output(),
            final(self)@ == render_break(old(self)@),
    {
        if self.in_pre {
            self.emit_lit('\n');
        } else if self.compressed {
            if !self.at_line_start {
                self.emit(&[' ', ' ', '\n']);
            }
        } else {
            self.emit(&[' ', ' ', '\n']);
        }
        self.at_line_start = true;
    }

    fn open_list(&mut self, ordered: bool, attrs: &Vec<Attr>)
        ensures
            frames_kept(old(self)@, final(self)@),
            old(self)@.tracks_output() ==> final(self)@.tracks_output(),
            final(self)@ == list_open(old(self)@, ordered, attrs@),
    {
        if self.list_stack.len() == 0 {
            self.ensure_blank_line();
        } else if !self.at_line_start {
            self.emit_lit('\n');
        }
        let start = list_start_exec(ordered, attrs);
        self.list_stack.push(ListInfo { ordered, counter: start });
    }

    fn close_list(&mut self)
        ensures
            frames_kept(old(self)@, final(self)@),
            old(self)@.tracks_output() ==> final(self)@.tracks_output(),
            final(self)@ == list_close(old(self)@),
    {
        self.list_stack.pop();
        if self.list_stack.len() == 0 {
            self.emit_lit('\n');
            self.at_line_start = true;
        }
    }

    fn handle_list(&mut self, ordered: bool, attrs: &Vec<Attr>, kids: &Vec<HtmlNode>, depth: usize) -> (ok: bool)
        requires
            depth <= MAX_DEPTH,
        ensures
            (ok && old(self)@.tracks_output()) ==> (final(self)@.tracks_output() && frames_kept(
                old(self)@,
                final(self)@,
            )),
            fits(kids@, depth as nat) ==> ok,
            (final(self)@, ok) == render_list(old(self)@, ordered, attrs@, kids@, depth as nat),
        decreases fuel(depth as nat), 5nat, 0nat,
    {
        self.open_list(ordered, attrs);
        if !self.walk_children(kids, depth) {
            return false;
        }
        self.close_list();
        true
    }

    fn handle_list_item(&mut self, kids: &Vec<HtmlNode>, depth: usize) -> (ok: bool)
        requires
            depth <= MAX_DEPTH,
        ensures
            (ok && old(self)@.tracks_output()) ==> (final(self)@.tracks_output() && frames_kept(
                old(self)@,
                final(self)@,
            )),
            fits(kids@, depth as nat) ==> ok,
            (final(self)@, ok) == render_item(old(self)@, kids@, depth as nat),
        decreases fuel(depth as nat), 5nat, 0nat,
    {
        self.emit_item_marker();
        self.at_line_start = false;
        self.at_item_start = true;
        if !self.walk_children(kids, depth) {
            return false;
        }
        if !self.compressed || self.trailing_nls == 0 {
            self.emit_lit('\n');
        }
        self.at_line_start = true;
        true
    }

    fn handle_table(&mut self, kids: &Vec<HtmlNode>, depth: usize) -> (ok: bool)
        requires
            depth <= MAX_DEPTH,
        ensures
            (ok && old(self)@.tracks_output()) ==> (final(self)@.tracks_output() && frames_kept(
                old(self)@,
                final(self)@,
            )),
            fits(kids@, depth as nat) ==> ok,
            (final(self)@, ok) == render_table(old(self)@, kids@, depth as nat),
        decreases fuel(depth as nat), 5nat, 0nat,
    {
        if self.table_stack.len() == 0 {
            self.ensure_blank_line();
        }
        let ghost s1 = self@;
        let ts = TableState {
            rows: Vec::new(),
            current_row: Vec::new(),
            in_header: false,
            current_row_has_th: false,
        };
        assert(ts@.rows =~= Seq::<crate::state::RowV>::empty());
        assert(ts@.current_row =~= Seq::<Seq<char>>::empty());
        assert(ts@ == new_table());
        self.table_stack.push(ts);
        assert(tables_view(self.table_stack@) =~= s1.tables.push(new_table()));
        if !self.walk_children(kids, depth) {
            return false;
        }
        self.finish_table();
        true
    }

    fn handle_thead(&mut self, kids: &Vec<HtmlNode>, depth: usize) -> (ok: bool)
        requires
            depth <= MAX_DEPTH,
        ensures
            (ok && old(self)@.tracks_output()) ==> (final(self)@.tracks_output() && frames_kept(
                old(self)@,
                final(self)@,
            )),
            fits(kids@, depth as nat) ==> ok,
            (final(self)@, ok) == render_thead(old(self)@, kids@, depth as nat),
        decreases fuel(depth as nat), 5nat, 0nat,
    {
        self.set_table_header(true);
        if !self.walk_children(kids, depth) {
            return false;
        }
        self.set_table_header(false);
        true
    }

    fn handle_tr(&mut self, kids: &Vec<HtmlNode>, depth: usize) -> (ok: bool)
        requires
            depth <= MAX_DEPTH,
        ensures
            (ok && old(self)@.tracks_output()) ==> (final(self)@.tracks_output() && frames_kept(
                old(self)@,
                final(self)@,
            )),
            fits(kids@, depth as nat) ==> ok,
            (final(self)@, ok) == render_tr(old(self)@, kids@, depth as nat),
        decreases fuel(depth as nat), 5nat, 0nat,
    {
        if !self.walk_children(kids, depth) {
            return false;
        }
        self.finish_table_row();
        true
    }

    fn handle_cell(&mut self, is_th: bool, kids: &Vec<HtmlNode>, depth: usize) -> (ok: bool)
        requires
            depth <= MAX_DEPTH,
        ensures
            (ok && old(self)@.tracks_output()) ==> (final(self)@.tracks_output() && frames_kept(
                old(self)@,
                final(self)@,
            )),
            fits(kids@, depth as nat) ==> ok,
            (final(self)@, ok) == render_cell(old(self)@, is_th, kids@, depth as nat),
        decreases fuel(depth as nat), 5nat, 0nat,
    {
        self.enter_redirect();
        if !self.walk_children(kids, depth) {
            return false;
        }
        let state = match self.leave_redirect() {
            None => {
                return true;
            },
            Some(st) => st,
        };
        let cell = normalize_cell(state.buf.as_slice());
        self.add_table_cell(is_th, cell);
        true
    }

    fn handle_inline(&mut self, marker: &[char], kids: &Vec<HtmlNode>, depth: usize) -> (ok: bool)
        requires
            depth <= MAX_DEPTH,
            marker@.len() > 0,
            marker@[0] != '\n',
        ensures
            (ok && old(self)@.tracks_output()) ==> (final(self)@.tracks_output() && frames_kept(
                old(self)@,
                final(self)@,
            )),
            fits(kids@, depth as nat) ==> ok,
            (final(self)@, ok) == render_inline(old(self)@, marker@, kids@, depth as nat),
        decreases fuel(depth as nat), 5nat, 0nat,
    {
        let alt: Vec<char> = if chars_eq(marker, &['*', '*']) {
            vec!['_', '_']
        } else if marker.len() == 1 && marker[0] == '*' {
            assert(marker@ =~= seq!['*']);
            vec!['_']
        } else {
            let mut v: Vec<char> = Vec::new();
            push_all(&mut v, marker);
            v
        };
        assert(alt@ =~= alt_marker(marker@));
        assert(alt@.len() > 0 && alt@[0] != '\n');
        assert(!all_newlines(alt@) && !all_newlines(marker@));
        self.enter_redirect();
        if !self.walk_children(kids, depth) {
            return false;
        }
        let state = match self.leave_redirect() {
            None => {
                return true;
            },
            Some(st) => st,
        };
        let buf: Vec<char> = if self.compressed {
            collapse_whitespace(state.buf.as_slice())
        } else {
            state.buf
        };
        if buf.len() == 0 {
            return true;
        }
        let use_alt = !chars_eq(marker, alt.as_slice()) && slice_contains(
            buf.as_slice(),
            marker,
        ) && !slice_contains(buf.as_slice(), alt.as_slice());
        if use_alt {
            self.emit(alt.as_slice());
            self.raw_write(buf.as_slice());
            self.emit(alt.as_slice());
        } else {
            self.emit(marker);
            self.raw_write(buf.as_slice());
            self.emit(marker);
        }
        true
    }

    fn handle_code(&mut self, kids: &Vec<HtmlNode>, depth: usize) -> (ok: bool)
        requires
            depth <= MAX_DEPTH,
        ensures
            (ok && old(self)@.tracks_output()) ==> (final(self)@.tracks_output() && frames_kept(
                old(self)@,
                final(self)@,
            )),
            fits(kids@, depth as nat) ==> ok,
            (final(self)@, ok) == render_code(old(self)@, kids@, depth as nat),
        decreases fuel(depth as nat), 5nat, 0nat,
    {
        if self.in_pre {
            return self.walk_children(kids, depth);
        }
        let mut buf: Vec<char> = Vec::new();
        if !collect_texts_exec(kids, depth + 1, &mut buf) {
            return false;
        }
        assert(buf@ =~= Seq::<char>::empty() + collect_texts(kids@, (depth + 1) as nat)->0);
        self.emit_code_span(&buf);
        true
    }

    fn handle_link(&mut self, attrs: &Vec<Attr>, kids: &Vec<HtmlNode>, depth: usize) -> (ok: bool)
        requires
            depth <= MAX_DEPTH,
        ensures
            (ok && old(self)@.tracks_output()) ==> (final(self)@.tracks_output() && frames_kept(
                old(self)@,
                final(self)@,
            )),
            fits(kids@, depth as nat) ==> ok,
            (final(self)@, ok) == render_link(old(self)@, attrs@, kids@, depth as nat),
        decreases fuel(depth as nat), 5nat, 0nat,
    {
        let href = find_attr_value(attrs, &['h', 'r', 'e', 'f']);
        self.emit_lit('[');
        if !self.walk_inline_children(kids, depth) {
            return false;
        }
        self.emit(&[']', '(']);
        match href {
            Some(h) => self.emit_url(h.as_slice()),
            None => {},
        }
        self.emit_lit(')');
        true
    }

    fn handle_image(&mut self, attrs: &Vec<Attr>)
        ensures
            frames_kept(old(self)@, final(self)@),
            old(self)@.tracks_output() ==> final(self)@.tracks_output(),
            final(self)@ == render_image(old(self)@, attrs@),
    {
        let src = find_attr_value(attrs, &['s', 'r', 'c']);
        let alt = find_attr_value(attrs, &['a', 'l', 't']);
        self.emit(&['!', '[']);
        match alt {
            Some(a) => self.emit_alt(a.as_slice()),
            None => {},
        }
        self.emit(&[']', '(']);
        match src {
            Some(u) => self.emit_url(u.as_slice()),
            None => {},
        }
        self.emit_lit(')');
    }
}

} // verus!
