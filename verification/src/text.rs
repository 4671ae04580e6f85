//! Text transformations on character sequences: newline runs, whitespace
//! collapsing, Markdown escaping, code-span delimiters and table cells.

use vstd::prelude::*;
use crate::chars::{is_ascii_whitespace, is_ascii_ws, is_whitespace, is_ws, push_all, repeat, repeat_char};

verus! {

/// Number of `'\n'` characters at the end of `s`.
pub open spec fn trailing_nl(s: Seq<char>) -> nat
    decreases s.len(),
{
    if s.len() == 0 {
        0
    } else if s.last() == '\n' {
        1 + trailing_nl(s.drop_last())
    } else {
        0
    }
}

/// `n` capped at the longest allowed run of newlines (one blank line).
pub open spec fn cap2(n: int) -> u8 {
    if n >= 2 {
        2
    } else if n <= 0 {
        0
    } else {
        n as u8
    }
}

pub proof fn lemma_trailing_nl_bound(s: Seq<char>)
    ensures
        trailing_nl(s) <= s.len(),
        forall|i: int| s.len() - trailing_nl(s) <= i < s.len() ==> s[i] == '\n',
        trailing_nl(s) < s.len() ==> s[s.len() - trailing_nl(s) - 1] != '\n',
    decreases s.len(),
{
    if s.len() > 0 && s.last() == '\n' {
        lemma_trailing_nl_bound(s.drop_last());
        assert forall|i: int| s.len() - trailing_nl(s) <= i < s.len() implies s[i] == '\n' by {
            if i < s.len() - 1 {
                assert(s.drop_last()[i] == s[i]);
            }
        }
        if trailing_nl(s) < s.len() {
            assert(s.drop_last()[s.len() - trailing_nl(s) - 1] == s[s.len() - trailing_nl(s) - 1]);
        }
    }
}

/// The number of newlines at the end of `data`, capped at 2.
pub fn trailing_newlines(data: &[char]) -> (n: u8)
    ensures
        n == cap2(trailing_nl(data@) as int),
{
    let len = data.len();
    proof {
        reveal_with_fuel(trailing_nl, 3);
    }
    if len >= 1 && data[len - 1] == '\n' {
        if len >= 2 && data[len - 2] == '\n' {
            assert(data@.drop_last().drop_last().len() == len - 2);
            2
        } else {
            assert(trailing_nl(data@.drop_last()) == 0);
            1
        }
    } else {
        0
    }
}

/// The length of `data` without its trailing run of newlines.
pub fn content_end(data: &[char]) -> (end: usize)
    ensures
        end == data@.len() - trailing_nl(data@),
{
    let mut end = data.len();
    assert(data@.take(end as int) =~= data@);
    while end > 0 && data[end - 1] == '\n'
        invariant
            end <= data@.len(),
            trailing_nl(data@) == (data@.len() - end) + trailing_nl(data@.take(end as int)),
        decreases end,
    {
        assert(data@.take(end as int).drop_last() =~= data@.take(end - 1));
        end -= 1;
    }
    if end > 0 {
        assert(data@.take(end as int).last() == data@[end - 1]);
    }
    end
}

/// Whether every character of `s` is a newline (true for the empty sequence).
pub open spec fn all_newlines(s: Seq<char>) -> bool {
    forall|i: int| 0 <= i < s.len() ==> s[i] == '\n'
}

pub fn is_all_newlines(s: &[char]) -> (r: bool)
    ensures
        r == all_newlines(s@),
{
    let mut i: usize = 0;
    while i < s.len()
        invariant
            i <= s@.len(),
            forall|j: int| 0 <= j < i ==> s@[j] == '\n',
        decreases s@.len() - i,
    {
        if s[i] != '\n' {
            return false;
        }
        i += 1;
    }
    true
}

/// Whether `s` holds a character that is not ASCII whitespace.
pub open spec fn has_visible(s: Seq<char>) -> bool {
    exists|i: int| 0 <= i < s.len() && !is_ascii_ws(#[trigger] s[i])
}

pub fn has_visible_char(s: &[char]) -> (r: bool)
    ensures
        r == has_visible(s@),
{
    let mut i: usize = 0;
    while i < s.len()
        invariant
            i <= s@.len(),
            forall|j: int| 0 <= j < i ==> is_ascii_ws(#[trigger] s@[j]),
        decreases s@.len() - i,
    {
        if !is_ascii_whitespace(s[i]) {
            assert(!is_ascii_ws(s@[i as int]));
            return true;
        }
        i += 1;
    }
    false
}

/// Whether `s` is not empty and begins with `c`.
pub open spec fn starts_with(s: Seq<char>, c: char) -> bool {
    s.len() > 0 && s[0] == c
}

/// Whether `s` is not empty and ends with `c`.
pub open spec fn ends_with(s: Seq<char>, c: char) -> bool {
    s.len() > 0 && s.last() == c
}

/// Collapsing ASCII whitespace, left to right: the output so far and whether
/// a whitespace run is waiting to become one space.
pub open spec fn collapse_fold(s: Seq<char>) -> (Seq<char>, bool)
    decreases s.len(),
{
    if s.len() == 0 {
        (seq![], false)
    } else {
        let (o, pending) = collapse_fold(s.drop_last());
        let c = s.last();
        if is_ascii_ws(c) {
            (o, o.len() > 0)
        } else if pending {
            (o.push(' ').push(c), false)
        } else {
            (o.push(c), false)
        }
    }
}

/// `s` with every run of ASCII whitespace collapsed to one space and the
/// leading and trailing runs dropped.
pub open spec fn collapse_ws(s: Seq<char>) -> Seq<char> {
    collapse_fold(s).0
}

/// Collapses the ASCII whitespace of `buf` (see [`collapse_ws`]).
pub fn collapse_whitespace(buf: &[char]) -> (r: Vec<char>)
    ensures
        r@ == collapse_ws(buf@),
{
    let mut out: Vec<char> = Vec::new();
    let mut pending = false;
    let mut i: usize = 0;
    while i < buf.len()
        invariant
            i <= buf@.len(),
            (out@, pending) == collapse_fold(buf@.take(i as int)),
        decreases buf@.len() - i,
    {
        let b = buf[i];
        assert(buf@.take(i + 1).drop_last() =~= buf@.take(i as int));
        if is_ascii_whitespace(b) {
            pending = out.len() > 0;
        } else {
            if pending {
                out.push(' ');
                pending = false;
            }
            out.push(b);
        }
        i += 1;
    }
    assert(buf@.take(buf@.len() as int) =~= buf@);
    out
}

/// The characters of `s` that are not ASCII whitespace, in order.
pub open spec fn visible_chars(s: Seq<char>) -> Seq<char>
    decreases s.len(),
{
    if s.len() == 0 {
        seq![]
    } else if is_ascii_ws(s.last()) {
        visible_chars(s.drop_last())
    } else {
        visible_chars(s.drop_last()).push(s.last())
    }
}

/// Whether `r` is one line of words: its only whitespace is single spaces,
/// each between two visible characters.
pub open spec fn single_spaced(r: Seq<char>) -> bool {
    &&& forall|i: int| 0 <= i < r.len() && #[trigger] r[i] != ' ' ==> !is_ascii_ws(r[i])
    &&& forall|i: int|
        #![trigger r[i]]
        0 <= i < r.len() && r[i] == ' ' ==> (0 < i && i + 1 < r.len() && !is_ascii_ws(r[i - 1])
            && !is_ascii_ws(r[i + 1]))
}

proof fn lemma_collapse_fold(s: Seq<char>)
    ensures
        visible_chars(collapse_fold(s).0) == visible_chars(s),
        single_spaced(collapse_fold(s).0),
        collapse_fold(s).0.len() > 0 ==> !is_ascii_ws(collapse_fold(s).0.last()),
        collapse_fold(s).1 ==> collapse_fold(s).0.len() > 0,
    decreases s.len(),
{
    if s.len() > 0 {
        lemma_collapse_fold(s.drop_last());
        let (o, pending) = collapse_fold(s.drop_last());
        let c = s.last();
        if !is_ascii_ws(c) {
            if pending {
                let o1 = o.push(' ');
                let o2 = o1.push(c);
                assert(o1.drop_last() =~= o);
                assert(o2.drop_last() =~= o1);
                assert(visible_chars(o1) == visible_chars(o));
                assert forall|i: int| 0 <= i < o2.len() && #[trigger] o2[i] == ' ' implies (0 < i
                    && i + 1 < o2.len() && !is_ascii_ws(o2[i - 1]) && !is_ascii_ws(o2[i + 1])) by {
                    if i < o.len() {
                        assert(o2[i] == o[i]);
                        assert(o2[i - 1] == o[i - 1]);
                        if i + 1 < o.len() {
                            assert(o2[i + 1] == o[i + 1]);
                        }
                    }
                }
            } else {
                let o2 = o.push(c);
                assert(o2.drop_last() =~= o);
                assert forall|i: int| 0 <= i < o2.len() && #[trigger] o2[i] == ' ' implies (0 < i
                    && i + 1 < o2.len() && !is_ascii_ws(o2[i - 1]) && !is_ascii_ws(o2[i + 1])) by {
                    assert(o2[i] == o[i]);
                    assert(o2[i - 1] == o[i - 1]);
                    if i + 1 < o.len() {
                        assert(o2[i + 1] == o[i + 1]);
                    }
                }
            }
        }
    }
}

/// Collapsed whitespace leaves one line: the visible characters of `s` in
/// order, separated by single spaces, with no space at either end.
pub proof fn lemma_collapse_ws_one_line(s: Seq<char>)
    ensures
        visible_chars(collapse_ws(s)) == visible_chars(s),
        single_spaced(collapse_ws(s)),
        !starts_with(collapse_ws(s), ' '),
        !ends_with(collapse_ws(s), ' '),
{
    lemma_collapse_fold(s);
}

proof fn lemma_collapse_fold_single_spaced(r: Seq<char>, i: int)
    requires
        single_spaced(r),
        0 <= i <= r.len(),
    ensures
        collapse_fold(r.take(i)) == (if i > 0 && r[i - 1] == ' ' {
            (r.take(i - 1), true)
        } else {
            (r.take(i), false)
        }),
    decreases i,
{
    if i > 0 {
        lemma_collapse_fold_single_spaced(r, i - 1);
        let p = r.take(i - 1);
        assert(r.take(i).drop_last() =~= p);
        assert(r.take(i).last() == r[i - 1]);
        let c = r[i - 1];
        if c == ' ' {
            assert(0 < i - 1 && !is_ascii_ws(r[i - 2]));
        } else {
            assert(!is_ascii_ws(c));
            if i > 1 && r[i - 2] == ' ' {
                assert(r.take(i - 2).push(' ').push(c) =~= r.take(i));
            } else {
                assert(p.push(c) =~= r.take(i));
            }
        }
    }
}

/// Collapsing whitespace twice is collapsing it once.
pub proof fn lemma_collapse_ws_idempotent(s: Seq<char>)
    ensures
        collapse_ws(collapse_ws(s)) == collapse_ws(s),
{
    let r = collapse_ws(s);
    lemma_collapse_fold(s);
    lemma_collapse_fold_single_spaced(r, r.len() as int);
    assert(r.take(r.len() as int) =~= r);
    if r.len() > 0 {
        assert(r[r.len() - 1] != ' ');
    }
}

/// Whether `needle` occurs in `hay` (the empty needle always does).
pub open spec fn contains_seq(hay: Seq<char>, needle: Seq<char>) -> bool {
    needle.len() == 0 || exists|i: int|
        0 <= i && i + needle.len() <= hay.len() && #[trigger] hay.subrange(i, i + needle.len())
            == needle
}

/// Whether `needle` occurs anywhere in `hay`.
pub fn slice_contains(hay: &[char], needle: &[char]) -> (r: bool)
    ensures
        r == contains_seq(hay@, needle@),
{
    let n = needle.len();
    if n == 0 {
        return true;
    }
    if n > hay.len() {
        return false;
    }
    let mut i: usize = 0;
    while i <= hay.len() - n
        invariant
            n == needle@.len(),
            n > 0,
            n <= hay@.len(),
            i <= hay@.len() - n + 1,
            forall|k: int| 0 <= k < i ==> #[trigger] hay@.subrange(k, k + n) != needle@,
        decreases hay@.len() + 1 - i,
    {
        let mut j: usize = 0;
        let mut same = true;
        while j < n
            invariant
                n == needle@.len(),
                n <= hay@.len(),
                i <= hay@.len() - n,
                hay@.len() == hay.len(),
                j <= n,
                same == (forall|l: int| 0 <= l < j ==> hay@[i + l] == needle@[l]),
            decreases n - j,
        {
            if hay[i + j] != needle[j] {
                same = false;
            }
            j += 1;
        }
        if same {
            assert(hay@.subrange(i as int, i + n) =~= needle@);
            return true;
        } else {
            proof {
                let l = choose|l: int| 0 <= l < n && hay@[i + l] != needle@[l];
                assert(hay@.subrange(i as int, i + n)[l] != needle@[l]);
            }
        }
        i += 1;
    }
    proof {
        assert forall|k: int| 0 <= k && k + n <= hay@.len() implies #[trigger] hay@.subrange(
            k,
            k + n,
        ) != needle@ by {
            assert(k < i);
        }
    }
    false
}

/// The characters that are always escaped in text.
pub open spec fn always_escaped(c: char) -> bool {
    c == '\\' || c == '`' || c == '*' || c == '_' || c == '[' || c == ']' || c == '<' || c == '~'
}

/// The characters that are escaped when they begin an output line.
pub open spec fn line_start_escaped(c: char) -> bool {
    c == '#' || c == '+' || c == '-' || c == '>'
}

/// The Markdown form of one text character: preceded by a backslash when it
/// is significant, where `at_line_start` says the character begins a line.
pub open spec fn escape_char(c: char, at_line_start: bool) -> Seq<char> {
    if always_escaped(c) || (at_line_start && line_start_escaped(c)) {
        seq!['\\', c]
    } else {
        seq![c]
    }
}

/// Appends the escaped form of `ch` to `out`.
pub fn escape_markdown_char(out: &mut Vec<char>, ch: char, at_line_start: bool)
    ensures
        final(out)@ == old(out)@ + escape_char(ch, at_line_start),
{
    let needs = ch == '\\' || ch == '`' || ch == '*' || ch == '_' || ch == '[' || ch == ']' || ch
        == '<' || ch == '~' || (at_line_start && (ch == '#' || ch == '+' || ch == '-' || ch
        == '>'));
    if needs {
        out.push('\\');
    }
    out.push(ch);
    assert(out@ =~= old(out)@ + escape_char(ch, at_line_start));
}

/// Scanning for backtick runs: the longest run so far and the current run.
pub open spec fn backtick_fold(s: Seq<char>) -> (nat, nat)
    decreases s.len(),
{
    if s.len() == 0 {
        (0, 0)
    } else {
        let (m, cur) = backtick_fold(s.drop_last());
        if s.last() == '`' {
            let c = cur + 1;
            (if c > m {
                c
            } else {
                m
            }, c)
        } else {
            (m, 0)
        }
    }
}

/// The length of the longest run of consecutive backticks in `s`.
pub open spec fn longest_run(s: Seq<char>) -> nat {
    backtick_fold(s).0
}

proof fn lemma_backtick_fold_bound(s: Seq<char>)
    ensures
        backtick_fold(s).1 <= backtick_fold(s).0,
        backtick_fold(s).0 <= s.len(),
    decreases s.len(),
{
    if s.len() > 0 {
        lemma_backtick_fold_bound(s.drop_last());
    }
}

proof fn lemma_trailing_run(s: Seq<char>, k: nat)
    requires
        k <= s.len(),
        forall|j: int| s.len() - k <= j < s.len() ==> s[j] == '`',
    ensures
        backtick_fold(s).1 >= k,
    decreases k,
{
    if k > 0 {
        assert forall|j: int| s.drop_last().len() - (k - 1) <= j < s.drop_last().len() implies
            s.drop_last()[j] == '`' by {
            assert(s.drop_last()[j] == s[j]);
        }
        lemma_trailing_run(s.drop_last(), (k - 1) as nat);
        assert(s.last() == s[s.len() - 1]);
    }
}

/// Every run of backticks in `s` is at most [`longest_run`] long.
pub proof fn lemma_run_at_most_longest(s: Seq<char>, i: int, k: nat)
    requires
        0 <= i,
        i + k <= s.len(),
        s.subrange(i, i + k) == repeat('`', k),
    ensures
        k <= longest_run(s),
    decreases s.len(),
{
    if i + k < s.len() {
        assert(s.drop_last().subrange(i, i + k) =~= s.subrange(i, i + k));
        lemma_run_at_most_longest(s.drop_last(), i, k);
    } else {
        assert forall|j: int| s.len() - k <= j < s.len() implies s[j] == '`' by {
            assert(s.subrange(i, i + k)[j - i] == s[j]);
        }
        lemma_trailing_run(s, k);
        lemma_backtick_fold_bound(s);
    }
}

/// The length of the longest run of consecutive backticks in `s`.
pub fn longest_backtick_run(s: &[char]) -> (r: usize)
    ensures
        r == longest_run(s@),
        r <= s@.len(),
{
    let mut max_run: usize = 0;
    let mut current: usize = 0;
    let mut i: usize = 0;
    while i < s.len()
        invariant
            i <= s@.len(),
            (max_run as nat, current as nat) == backtick_fold(s@.take(i as int)),
            current <= max_run <= i,
        decreases s@.len() - i,
    {
        assert(s@.take(i + 1).drop_last() =~= s@.take(i as int));
        if s[i] == '`' {
            current += 1;
            if current > max_run {
                max_run = current;
            }
        } else {
            current = 0;
        }
        i += 1;
    }
    assert(s@.take(s@.len() as int) =~= s@);
    max_run
}

/// Flattening a table cell, left to right: the output so far and whether a
/// whitespace run is waiting.
pub open spec fn cell_fold(s: Seq<char>) -> (Seq<char>, bool)
    decreases s.len(),
{
    if s.len() == 0 {
        (seq![], false)
    } else {
        let (o, pending) = cell_fold(s.drop_last());
        let c = s.last();
        if is_ws(c) {
            (o, true)
        } else {
            let o1 = if pending && o.len() > 0 {
                o.push(' ')
            } else {
                o
            };
            let o2 = if c == '|' {
                o1.push('\\')
            } else {
                o1
            };
            (o2.push(c), false)
        }
    }
}

/// A table cell on one line: leading and trailing whitespace dropped, inner
/// whitespace runs reduced to one space, and `|` escaped.
pub open spec fn normalize_cell_spec(s: Seq<char>) -> Seq<char> {
    cell_fold(s).0
}

/// Whether `r` is one table cell line: its only whitespace is single
/// spaces, each between two visible characters, and every `|` follows a backslash.
pub open spec fn cell_line(r: Seq<char>) -> bool {
    &&& forall|i: int| 0 <= i < r.len() && #[trigger] r[i] != ' ' ==> !is_ws(r[i])
    &&& forall|i: int|
        #![trigger r[i]]
        0 <= i < r.len() && r[i] == ' ' ==> (0 < i && i + 1 < r.len() && !is_ws(r[i - 1])
            && !is_ws(r[i + 1]))
    &&& forall|i: int| #![trigger r[i]] 0 <= i < r.len() && r[i] == '|' ==> (0 < i && r[i - 1] == '\\')
}

proof fn lemma_cell_fold(s: Seq<char>)
    ensures
        cell_line(cell_fold(s).0),
        cell_fold(s).0.len() > 0 ==> !is_ws(cell_fold(s).0.last()),
    decreases s.len(),
{
    if s.len() > 0 {
        lemma_cell_fold(s.drop_last());
        let (o, pending) = cell_fold(s.drop_last());
        let c = s.last();
        if !is_ws(c) {
            let o1 = if pending && o.len() > 0 {
                o.push(' ')
            } else {
                o
            };
            let o2 = if c == '|' {
                o1.push('\\')
            } else {
                o1
            };
            let o3 = o2.push(c);
            assert(o1.len() > 0 ==> !is_ws(o1.last()) || o1.last() == ' ');
            assert forall|i: int| 0 <= i < o.len() implies #[trigger] o3[i] == o[i] by {
                assert(o1[i] == o[i]);
                assert(o2[i] == o1[i]);
            }
            assert(o.len() <= o1.len() <= o2.len() < o3.len());
            assert(o3[o3.len() - 1] == c);
            if o1.len() > o.len() {
                assert(o3[o.len() as int] == ' ');
                assert(o3[o.len() + 1int] == if c == '|' { '\\' } else { c });
            }
            if o2.len() > o1.len() {
                assert(o3[o1.len() as int] == '\\');
            }
            assert(cell_line(o3));
        }
    }
}

/// A normalized table cell is one line: no whitespace but single spaces
/// between visible characters, and every `|` escaped with a backslash.
pub proof fn lemma_cell_one_line(s: Seq<char>)
    ensures
        cell_line(normalize_cell_spec(s)),
{
    lemma_cell_fold(s);
}

/// Flattens a rendered table cell to one Markdown line.
pub fn normalize_cell(raw: &[char]) -> (r: Vec<char>)
    ensures
        r@ == normalize_cell_spec(raw@),
{
    let mut out: Vec<char> = Vec::new();
    let mut pending = false;
    let mut i: usize = 0;
    while i < raw.len()
        invariant
            i <= raw@.len(),
            (out@, pending) == cell_fold(raw@.take(i as int)),
        decreases raw@.len() - i,
    {
        let c = raw[i];
        assert(raw@.take(i + 1).drop_last() =~= raw@.take(i as int));
        if is_whitespace(c) {
            pending = true;
        } else {
            if pending && out.len() > 0 {
                out.push(' ');
            }
            pending = false;
            if c == '|' {
                out.push('\\');
            }
            out.push(c);
        }
        i += 1;
    }
    assert(raw@.take(raw@.len() as int) =~= raw@);
    out
}

/// The indent of a list item at nesting `level` (two spaces per level, at most 15 levels).
pub open spec fn list_indent(level: nat) -> Seq<char> {
    repeat(' ', 2 * if level > 15 {
        15
    } else {
        level
    })
}

/// The indent string for a list nesting level.
pub fn list_indent_str(level: usize) -> (r: Vec<char>)
    ensures
        r@ == list_indent(level as nat),
{
    let l: usize = if level > 15 {
        15
    } else {
        level
    };
    repeat_char(' ', 2 * l)
}

/// Index of the first character of `s` that is not whitespace (`s.len()` if none).
pub open spec fn first_non_ws(s: Seq<char>) -> nat
    decreases s.len(),
{
    if s.len() == 0 {
        0
    } else if is_ws(s[0]) {
        1 + first_non_ws(s.drop_first())
    } else {
        0
    }
}

/// `s` without its leading whitespace (as `str::trim_start`).
pub open spec fn trim_start(s: Seq<char>) -> Seq<char> {
    s.skip(first_non_ws(s) as int)
}

pub fn trim_start_chars(s: &[char]) -> (r: Vec<char>)
    ensures
        r@ == trim_start(s@),
{
    let mut i: usize = 0;
    assert(s@.skip(0) =~= s@);
    while i < s.len() && is_whitespace(s[i])
        invariant
            i <= s@.len(),
            first_non_ws(s@) == i + first_non_ws(s@.skip(i as int)),
        decreases s@.len() - i,
    {
        assert(s@.skip(i as int).drop_first() =~= s@.skip(i + 1));
        i += 1;
    }
    let mut r: Vec<char> = Vec::new();
    let mut j: usize = i;
    while j < s.len()
        invariant
            i <= j <= s@.len(),
            r@ == s@.subrange(i as int, j as int),
        decreases s@.len() - j,
    {
        r.push(s[j]);
        j += 1;
        assert(r@ =~= s@.subrange(i as int, j as int));
    }
    assert(r@ =~= s@.skip(i as int));
    r
}

/// Normalizing a text node, left to right: the escaped output so far, whether
/// the next visible character begins a line, and whether a whitespace run is waiting.
pub open spec fn text_fold(s: Seq<char>, at_line_start: bool) -> (Seq<char>, bool, bool)
    decreases s.len(),
{
    if s.len() == 0 {
        (seq![], at_line_start, false)
    } else {
        let (o, first, last_ws) = text_fold(s.drop_last(), at_line_start);
        let c = s.last();
        if is_ws(c) {
            (o, first, true)
        } else {
            let (o1, first1) = if last_ws {
                (o.push(' '), false)
            } else {
                (o, first)
            };
            (o1 + escape_char(c, first1), false, false)
        }
    }
}

/// Whether every Markdown-significant character of `r` (see
/// [`always_escaped`]) is escaped: read from the start, `r` is a sequence of
/// plain characters and of pairs made of a backslash and any character.
pub open spec fn all_escaped(r: Seq<char>) -> bool
    decreases r.len(),
{
    if r.len() == 0 {
        true
    } else if r[0] == '\\' {
        r.len() >= 2 && all_escaped(r.skip(2))
    } else {
        !always_escaped(r[0]) && all_escaped(r.skip(1))
    }
}

proof fn lemma_all_escaped_concat(a: Seq<char>, b: Seq<char>)
    requires
        all_escaped(a),
        all_escaped(b),
    ensures
        all_escaped(a + b),
    decreases a.len(),
{
    if a.len() == 0 {
        assert(a + b =~= b);
    } else if a[0] == '\\' {
        lemma_all_escaped_concat(a.skip(2), b);
        assert((a + b).skip(2) =~= a.skip(2) + b);
    } else {
        lemma_all_escaped_concat(a.skip(1), b);
        assert((a + b).skip(1) =~= a.skip(1) + b);
    }
}

proof fn lemma_escape_char_escaped(c: char, at_line_start: bool)
    ensures
        all_escaped(escape_char(c, at_line_start)),
{
    reveal_with_fuel(all_escaped, 2);
    let e = escape_char(c, at_line_start);
    if e.len() == 2 {
        assert(e.skip(2) =~= Seq::<char>::empty());
    } else {
        assert(e.skip(1) =~= Seq::<char>::empty());
    }
}

/// Normalized text escapes every Markdown-significant character: it reads as
/// plain characters and backslash pairs, so no `*`, `_`, `` ` ``, `[`, `]`,
/// `<`, `~` or backslash of the source text acts as markup.
pub proof fn lemma_text_escaped(s: Seq<char>, at_line_start: bool)
    ensures
        all_escaped(text_fold(s, at_line_start).0),
    decreases s.len(),
{
    if s.len() > 0 {
        lemma_text_escaped(s.drop_last(), at_line_start);
        let (o, first, last_ws) = text_fold(s.drop_last(), at_line_start);
        let c = s.last();
        if !is_ws(c) {
            let (o1, first1) = if last_ws {
                (o.push(' '), false)
            } else {
                (o, first)
            };
            if last_ws {
                assert(seq![' '].skip(1) =~= Seq::<char>::empty());
                assert(all_escaped(seq![' '])) by {
                    reveal_with_fuel(all_escaped, 2);
                }
                assert(o.push(' ') =~= o + seq![' ']);
                lemma_all_escaped_concat(o, seq![' ']);
            }
            lemma_escape_char_escaped(c, first1);
            lemma_all_escaped_concat(o1, escape_char(c, first1));
        }
    }
}

/// Normalized text never begins with a newline.
pub proof fn lemma_text_fold_start(s: Seq<char>, at_line_start: bool)
    ensures
        text_fold(s, at_line_start).0.len() > 0 ==> text_fold(s, at_line_start).0[0] != '\n',
    decreases s.len(),
{
    if s.len() > 0 {
        lemma_text_fold_start(s.drop_last(), at_line_start);
        let (o, first, last_ws) = text_fold(s.drop_last(), at_line_start);
        let c = s.last();
        if !is_ws(c) {
            let (o1, first1) = if last_ws {
                (o.push(' '), false)
            } else {
                (o, first)
            };
            let e = escape_char(c, first1);
            if o1.len() > 0 {
                assert((o1 + e)[0] == o1[0]);
            } else {
                assert((o1 + e)[0] == e[0]);
            }
        }
    }
}

/// Escapes and collapses the whitespace of a text node; returns the text and
/// whether it ended in whitespace.
pub fn normalize_text(text: &[char], at_line_start: bool) -> (r: (Vec<char>, bool))
    ensures
        (r.0@, r.1) == ({
            let f = text_fold(text@, at_line_start);
            (f.0, f.2)
        }),
{
    let mut buf: Vec<char> = Vec::new();
    let mut first_on_line = at_line_start;
    let mut last_ws = false;
    let mut i: usize = 0;
    while i < text.len()
        invariant
            i <= text@.len(),
            (buf@, first_on_line, last_ws) == text_fold(text@.take(i as int), at_line_start),
        decreases text@.len() - i,
    {
        let ch = text[i];
        assert(text@.take(i + 1).drop_last() =~= text@.take(i as int));
        if is_whitespace(ch) {
            last_ws = true;
        } else {
            if last_ws {
                buf.push(' ');
                first_on_line = false;
            }
            escape_markdown_char(&mut buf, ch, first_on_line);
            last_ws = false;
            first_on_line = false;
        }
        i += 1;
    }
    assert(text@.take(text@.len() as int) =~= text@);
    (buf, last_ws)
}

/// Collapsing whitespace in image alt text, left to right: the output so far
/// and whether a whitespace run is waiting.
pub open spec fn alt_fold(s: Seq<char>) -> (Seq<char>, bool)
    decreases s.len(),
{
    if s.len() == 0 {
        (seq![], false)
    } else {
        let (o, pending) = alt_fold(s.drop_last());
        let c = s.last();
        if is_ws(c) {
            (o, o.len() > 0)
        } else if pending {
            (o.push(' ').push(c), false)
        } else {
            (o.push(c), false)
        }
    }
}

/// Collapsed alt text begins with a visible character.
pub proof fn lemma_alt_fold_start(s: Seq<char>)
    ensures
        alt_fold(s).0.len() > 0 ==> !is_ws(alt_fold(s).0[0]),
        alt_fold(s).1 ==> alt_fold(s).0.len() > 0,
    decreases s.len(),
{
    if s.len() > 0 {
        lemma_alt_fold_start(s.drop_last());
        let (o, pending) = alt_fold(s.drop_last());
        let c = s.last();
        if !is_ws(c) {
            if pending {
                assert(o.push(' ').push(c)[0] == o[0]);
            } else if o.len() > 0 {
                assert(o.push(c)[0] == o[0]);
            }
        }
    }
}

/// The characters of `s` that are not Unicode whitespace, in order.
pub open spec fn words_chars(s: Seq<char>) -> Seq<char>
    decreases s.len(),
{
    if s.len() == 0 {
        seq![]
    } else if is_ws(s.last()) {
        words_chars(s.drop_last())
    } else {
        words_chars(s.drop_last()).push(s.last())
    }
}

/// Whether `r` is words joined by single spaces: its only whitespace is
/// single spaces, each between two characters that are not whitespace.
pub open spec fn joined_words(r: Seq<char>) -> bool {
    &&& forall|i: int| 0 <= i < r.len() && #[trigger] r[i] != ' ' ==> !is_ws(r[i])
    &&& forall|i: int|
        #![trigger r[i]]
        0 <= i < r.len() && r[i] == ' ' ==> (0 < i && i + 1 < r.len() && !is_ws(r[i - 1])
            && !is_ws(r[i + 1]))
}

/// Collapsed alt text is the words of the alt text, in order, joined by
/// single spaces (as splitting at whitespace and joining with a space gives).
pub proof fn lemma_alt_fold_words(s: Seq<char>)
    ensures
        words_chars(alt_fold(s).0) == words_chars(s),
        joined_words(alt_fold(s).0),
        alt_fold(s).0.len() > 0 ==> !is_ws(alt_fold(s).0.last()),
        alt_fold(s).1 ==> alt_fold(s).0.len() > 0,
    decreases s.len(),
{
    if s.len() > 0 {
        lemma_alt_fold_words(s.drop_last());
        let (o, pending) = alt_fold(s.drop_last());
        let c = s.last();
        assert(is_ws(' '));
        if !is_ws(c) {
            if pending {
                let o1 = o.push(' ');
                let o2 = o1.push(c);
                assert(o1.drop_last() =~= o);
                assert(o2.drop_last() =~= o1);
                assert(words_chars(o1) == words_chars(o));
                assert forall|i: int| 0 <= i < o2.len() && #[trigger] o2[i] == ' ' implies (0 < i
                    && i + 1 < o2.len() && !is_ws(o2[i - 1]) && !is_ws(o2[i + 1])) by {
                    if i < o.len() {
                        assert(o2[i] == o[i]);
                        assert(o2[i - 1] == o[i - 1]);
                        if i + 1 < o.len() {
                            assert(o2[i + 1] == o[i + 1]);
                        }
                    }
                }
            } else {
                let o2 = o.push(c);
                assert(o2.drop_last() =~= o);
                assert forall|i: int| 0 <= i < o2.len() && #[trigger] o2[i] == ' ' implies (0 < i
                    && i + 1 < o2.len() && !is_ws(o2[i - 1]) && !is_ws(o2[i + 1])) by {
                    assert(o2[i] == o[i]);
                    assert(o2[i - 1] == o[i - 1]);
                    if i + 1 < o.len() {
                        assert(o2[i + 1] == o[i + 1]);
                    }
                }
            }
        }
    }
}

/// Alt text on one line: whitespace runs collapse to a single space.
pub fn collapse_alt(alt: &[char]) -> (r: Vec<char>)
    ensures
        r@ == alt_fold(alt@).0,
{
    let mut out: Vec<char> = Vec::new();
    let mut pending = false;
    let mut i: usize = 0;
    while i < alt.len()
        invariant
            i <= alt@.len(),
            (out@, pending) == alt_fold(alt@.take(i as int)),
        decreases alt@.len() - i,
    {
        let ch = alt[i];
        assert(alt@.take(i + 1).drop_last() =~= alt@.take(i as int));
        if is_whitespace(ch) {
            pending = out.len() > 0;
        } else {
            if pending {
                out.push(' ');
                pending = false;
            }
            out.push(ch);
        }
        i += 1;
    }
    assert(alt@.take(alt@.len() as int) =~= alt@);
    out
}

/// Whether a link destination must be wrapped in angle brackets.
pub open spec fn url_needs_wrap(url: Seq<char>) -> bool {
    exists|i: int|
        0 <= i < url.len() && ({
            let c = #[trigger] url[i];
            c == '(' || c == ')' || c == '<' || c == '>' || c == '`' || is_ws(c)
        })
}

/// Escaping inside a wrapped destination: backslash before `<`, `>` and backticks.
pub open spec fn url_escape(url: Seq<char>) -> Seq<char>
    decreases url.len(),
{
    if url.len() == 0 {
        seq![]
    } else {
        let c = url.last();
        url_escape(url.drop_last()) + if c == '<' || c == '>' || c == '`' {
            seq!['\\', c]
        } else {
            seq![c]
        }
    }
}

/// Inside a wrapped destination every `<`, `>` and backtick follows a backslash.
pub proof fn lemma_url_escape_marks(url: Seq<char>)
    ensures
        forall|i: int|
            #![trigger url_escape(url)[i]]
            0 <= i < url_escape(url).len() && (url_escape(url)[i] == '<' || url_escape(url)[i]
                == '>' || url_escape(url)[i] == '`') ==> 0 < i && url_escape(url)[i - 1] == '\\',
    decreases url.len(),
{
    if url.len() > 0 {
        lemma_url_escape_marks(url.drop_last());
        let o = url_escape(url.drop_last());
        let c = url.last();
        let r = url_escape(url);
        assert forall|i: int|
            #![trigger r[i]]
            0 <= i < r.len() && (r[i] == '<' || r[i] == '>' || r[i] == '`') implies 0 < i && r[i
            - 1] == '\\' by {
            if i < o.len() {
                assert(r[i] == o[i]);
                assert(r[i - 1] == o[i - 1]);
            }
        }
    }
}

/// Undoing [`url_escape`]: a backslash before `<`, `>` or a backtick is dropped.
pub open spec fn url_unescape(e: Seq<char>) -> Seq<char>
    decreases e.len(),
{
    if e.len() == 0 {
        seq![]
    } else {
        let c = e.last();
        if (c == '<' || c == '>' || c == '`') && e.len() >= 2 && e[e.len() - 2] == '\\' {
            url_unescape(e.drop_last().drop_last()).push(c)
        } else {
            url_unescape(e.drop_last()).push(c)
        }
    }
}

/// Escaping a link destination loses nothing: dropping the backslashes it
/// put before `<`, `>` and backticks gives the destination back.
pub proof fn lemma_url_escape_round_trip(url: Seq<char>)
    ensures
        url_unescape(url_escape(url)) == url,
        url_needs_wrap(url) ==> url_unescape(
            url_text(url).subrange(1, url_text(url).len() - 1),
        ) == url,
        !url_needs_wrap(url) ==> url_text(url) == url,
    decreases url.len(),
{
    let w = seq!['<'] + url_escape(url) + seq!['>'];
    assert(w.subrange(1, w.len() - 1) =~= url_escape(url));
    if url.len() > 0 {
        lemma_url_escape_round_trip(url.drop_last());
        let x = url_escape(url.drop_last());
        let c = url.last();
        let e = url_escape(url);
        if c == '<' || c == '>' || c == '`' {
            assert(e =~= x + seq!['\\', c]);
            assert(e.drop_last().drop_last() =~= x);
            assert(e[e.len() - 2] == '\\');
        } else {
            assert(e =~= x.push(c));
            assert(e.drop_last() =~= x);
        }
        assert(url.drop_last().push(c) =~= url);
    }
}

/// A link or image destination as written between the parentheses.
pub open spec fn url_text(url: Seq<char>) -> Seq<char> {
    if url_needs_wrap(url) {
        seq!['<'] + url_escape(url) + seq!['>']
    } else {
        url
    }
}

/// The destination text for `url` (see [`url_text`]).
pub fn format_url(url: &[char]) -> (r: Vec<char>)
    ensures
        r@ == url_text(url@),
{
    let mut needs = false;
    let mut i: usize = 0;
    while i < url.len()
        invariant
            i <= url@.len(),
            needs == (exists|j: int|
                0 <= j < i && ({
                    let c = #[trigger] url@[j];
                    c == '(' || c == ')' || c == '<' || c == '>' || c == '`' || is_ws(c)
                })),
        decreases url@.len() - i,
    {
        let c = url[i];
        if c == '(' || c == ')' || c == '<' || c == '>' || c == '`' || is_whitespace(c) {
            needs = true;
        }
        i += 1;
    }
    if !needs {
        let mut r: Vec<char> = Vec::new();
        push_all(&mut r, url);
        assert(r@ =~= url@);
        return r;
    }
    let mut r: Vec<char> = Vec::new();
    r.push('<');
    let mut k: usize = 0;
    while k < url.len()
        invariant
            k <= url@.len(),
            r@ == seq!['<'] + url_escape(url@.take(k as int)),
        decreases url@.len() - k,
    {
        let c = url[k];
        assert(url@.take(k + 1).drop_last() =~= url@.take(k as int));
        if c == '<' || c == '>' || c == '`' {
            r.push('\\');
        }
        r.push(c);
        k += 1;
        assert(r@ =~= seq!['<'] + url_escape(url@.take(k as int)));
    }
    r.push('>');
    assert(url@.take(url@.len() as int) =~= url@);
    assert(r@ =~= seq!['<'] + url_escape(url@) + seq!['>']);
    r
}

/// `s` without its trailing newlines and spaces.
pub open spec fn trim_end_nl_space(s: Seq<char>) -> Seq<char>
    decreases s.len(),
{
    if s.len() > 0 && (s.last() == '\n' || s.last() == ' ') {
        trim_end_nl_space(s.drop_last())
    } else {
        s
    }
}

pub fn trim_end_newlines_spaces(s: &mut Vec<char>)
    ensures
        final(s)@ == trim_end_nl_space(old(s)@),
{
    while s.len() > 0 && (s[s.len() - 1] == '\n' || s[s.len() - 1] == ' ')
        invariant
            trim_end_nl_space(s@) == trim_end_nl_space(old(s)@),
        decreases s@.len(),
    {
        s.pop();
    }
}

/// `s` without its trailing newlines.
pub open spec fn trim_end_nl(s: Seq<char>) -> Seq<char> {
    s.take(s.len() - trailing_nl(s))
}

pub fn trim_end_newlines(s: &mut Vec<char>)
    ensures
        final(s)@ == trim_end_nl(old(s)@),
{
    let end = content_end(s.as_slice());
    proof {
        lemma_trailing_nl_bound(s@);
    }
    s.truncate(end);
}

} // verus!
