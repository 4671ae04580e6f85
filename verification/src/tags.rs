//! What each HTML element becomes in Markdown.

use vstd::prelude::*;
use crate::chars::chars_eq;

verus! {

/// The Markdown rendering chosen for an element, by its local name.
#[derive(Clone, Copy)]
pub enum Tag {
    /// `h1` .. `h6`, with the level.
    Heading(u8),
    Paragraph,
    Blockquote,
    Pre,
    Rule,
    Break,
    /// Block containers (`div`, `section`, ...): a blank line, then the children.
    Section,
    /// `ul` (false) or `ol` (true).
    List(bool),
    Item,
    Table,
    TableHead,
    TableRow,
    /// `th` (true) or `td` (false).
    Cell(bool),
    Strong,
    Emphasis,
    Strike,
    Code,
    Link,
    Image,
    /// Elements whose content is dropped (`script`, `style`, `head`, ...).
    Skip,
    /// Anything else: the children, without block spacing.
    Other,
}

/// Whether `name` is one of the block container elements.
pub open spec fn is_section(n: Seq<char>) -> bool {
    n == seq!['d', 'i', 'v'] || n == seq!['s', 'e', 'c', 't', 'i', 'o', 'n'] || n == seq![
        'a',
        'r',
        't',
        'i',
        'c',
        'l',
        'e',
    ] || n == seq!['m', 'a', 'i', 'n'] || n == seq!['h', 'e', 'a', 'd', 'e', 'r'] || n == seq![
        'f',
        'o',
        'o',
        't',
        'e',
        'r',
    ] || n == seq!['n', 'a', 'v'] || n == seq!['a', 's', 'i', 'd', 'e'] || n == seq![
        'f',
        'i',
        'g',
        'u',
        'r',
        'e',
    ] || n == seq!['f', 'i', 'g', 'c', 'a', 'p', 't', 'i', 'o', 'n'] || n == seq![
        'd',
        'e',
        't',
        'a',
        'i',
        'l',
        's',
    ] || n == seq!['s', 'u', 'm', 'm', 'a', 'r', 'y'] || n == seq![
        'a',
        'd',
        'd',
        'r',
        'e',
        's',
        's',
    ]
}

/// Whether `name` is an element whose content is dropped.
pub open spec fn is_skipped(n: Seq<char>) -> bool {
    n == seq!['s', 'c', 'r', 'i', 'p', 't'] || n == seq!['s', 't', 'y', 'l', 'e'] || n == seq![
        'n',
        'o',
        's',
        'c',
        'r',
        'i',
        'p',
        't',
    ] || n == seq!['h', 'e', 'a', 'd'] || n == seq!['m', 'e', 't', 'a'] || n == seq![
        'l',
        'i',
        'n',
        'k',
    ]
}

/// Whether `n` is the one character `c`.
fn is_single(n: &[char], c: char) -> (r: bool)
    ensures
        r == (n@ == seq![c]),
{
    let r = n.len() == 1 && n[0] == c;
    if r {
        assert(n@ =~= seq![c]);
    }
    r
}

/// The rendering chosen for an element named `n`.
pub open spec fn tag_of(n: Seq<char>) -> Tag {
    if n.len() == 2 && n[0] == 'h' && '1' <= n[1] && n[1] <= '6' {
        Tag::Heading(((n[1] as u32) - 48) as u8)
    } else if n == seq!['p'] {
        Tag::Paragraph
    } else if n == seq!['b', 'l', 'o', 'c', 'k', 'q', 'u', 'o', 't', 'e'] {
        Tag::Blockquote
    } else if n == seq!['p', 'r', 'e'] {
        Tag::Pre
    } else if n == seq!['h', 'r'] {
        Tag::Rule
    } else if n == seq!['b', 'r'] {
        Tag::Break
    } else if is_section(n) {
        Tag::Section
    } else if n == seq!['u', 'l'] {
        Tag::List(false)
    } else if n == seq!['o', 'l'] {
        Tag::List(true)
    } else if n == seq!['l', 'i'] {
        Tag::Item
    } else if n == seq!['t', 'a', 'b', 'l', 'e'] {
        Tag::Table
    } else if n == seq!['t', 'h', 'e', 'a', 'd'] {
        Tag::TableHead
    } else if n == seq!['t', 'r'] {
        Tag::TableRow
    } else if n == seq!['t', 'h'] {
        Tag::Cell(true)
    } else if n == seq!['t', 'd'] {
        Tag::Cell(false)
    } else if n == seq!['s', 't', 'r', 'o', 'n', 'g'] || n == seq!['b'] {
        Tag::Strong
    } else if n == seq!['e', 'm'] || n == seq!['i'] {
        Tag::Emphasis
    } else if n == seq!['d', 'e', 'l'] || n == seq!['s'] || n == seq![
        's',
        't',
        'r',
        'i',
        'k',
        'e',
    ] {
        Tag::Strike
    } else if n == seq!['c', 'o', 'd', 'e'] {
        Tag::Code
    } else if n == seq!['a'] {
        Tag::Link
    } else if n == seq!['i', 'm', 'g'] {
        Tag::Image
    } else if is_skipped(n) {
        Tag::Skip
    } else {
        Tag::Other
    }
}

fn is_section_name(n: &[char]) -> (r: bool)
    ensures
        r == is_section(n@),
{
    chars_eq(n, &['d', 'i', 'v']) || chars_eq(n, &['s', 'e', 'c', 't', 'i', 'o', 'n'])
        || chars_eq(n, &['a', 'r', 't', 'i', 'c', 'l', 'e']) || chars_eq(n, &['m', 'a', 'i', 'n'])
        || chars_eq(n, &['h', 'e', 'a', 'd', 'e', 'r']) || chars_eq(
        n,
        &['f', 'o', 'o', 't', 'e', 'r'],
    ) || chars_eq(n, &['n', 'a', 'v']) || chars_eq(n, &['a', 's', 'i', 'd', 'e']) || chars_eq(
        n,
        &['f', 'i', 'g', 'u', 'r', 'e'],
    ) || chars_eq(n, &['f', 'i', 'g', 'c', 'a', 'p', 't', 'i', 'o', 'n']) || chars_eq(
        n,
        &['d', 'e', 't', 'a', 'i', 'l', 's'],
    ) || chars_eq(n, &['s', 'u', 'm', 'm', 'a', 'r', 'y']) || chars_eq(
        n,
        &['a', 'd', 'd', 'r', 'e', 's', 's'],
    )
}

fn is_skipped_name(n: &[char]) -> (r: bool)
    ensures
        r == is_skipped(n@),
{
    chars_eq(n, &['s', 'c', 'r', 'i', 'p', 't']) || chars_eq(n, &['s', 't', 'y', 'l', 'e'])
        || chars_eq(n, &['n', 'o', 's', 'c', 'r', 'i', 'p', 't']) || chars_eq(
        n,
        &['h', 'e', 'a', 'd'],
    ) || chars_eq(n, &['m', 'e', 't', 'a']) || chars_eq(n, &['l', 'i', 'n', 'k'])
}

/// The rendering chosen for the element named `n`.
#[verifier::rlimit(30)]
pub fn classify(n: &[char]) -> (t: Tag)
    ensures
        t == tag_of(n@),
{
    let is_heading = n.len() == 2 && n[0] == 'h' && '1' <= n[1] && n[1] <= '6';
    assert(is_heading == (n@.len() == 2 && n@[0] == 'h' && '1' <= n@[1] && n@[1] <= '6'));
    if is_heading {
        let t = Tag::Heading(((n[1] as u32) - 48) as u8);
        assert(t == tag_of(n@));
        t
    } else if is_single(n, 'p') {
        Tag::Paragraph
    } else if chars_eq(n, &['b', 'l', 'o', 'c', 'k', 'q', 'u', 'o', 't', 'e']) {
        Tag::Blockquote
    } else if chars_eq(n, &['p', 'r', 'e']) {
        Tag::Pre
    } else if chars_eq(n, &['h', 'r']) {
        Tag::Rule
    } else if chars_eq(n, &['b', 'r']) {
        Tag::Break
    } else if is_section_name(n) {
        Tag::Section
    } else if chars_eq(n, &['u', 'l']) {
        Tag::List(false)
    } else if chars_eq(n, &['o', 'l']) {
        Tag::List(true)
    } else if chars_eq(n, &['l', 'i']) {
        Tag::Item
    } else if chars_eq(n, &['t', 'a', 'b', 'l', 'e']) {
        Tag::Table
    } else if chars_eq(n, &['t', 'h', 'e', 'a', 'd']) {
        Tag::TableHead
    } else if chars_eq(n, &['t', 'r']) {
        Tag::TableRow
    } else if chars_eq(n, &['t', 'h']) {
        Tag::Cell(true)
    } else if chars_eq(n, &['t', 'd']) {
        Tag::Cell(false)
    } else if chars_eq(n, &['s', 't', 'r', 'o', 'n', 'g']) || is_single(n, 'b') {
        Tag::Strong
    } else if chars_eq(n, &['e', 'm']) || is_single(n, 'i') {
        Tag::Emphasis
    } else if chars_eq(n, &['d', 'e', 'l']) || is_single(n, 's') || chars_eq(
        n,
        &['s', 't', 'r', 'i', 'k', 'e'],
    ) {
        Tag::Strike
    } else if chars_eq(n, &['c', 'o', 'd', 'e']) {
        Tag::Code
    } else if is_single(n, 'a') {
        Tag::Link
    } else if chars_eq(n, &['i', 'm', 'g']) {
        Tag::Image
    } else if is_skipped_name(n) {
        Tag::Skip
    } else {
        Tag::Other
    }
}

} // verus!
