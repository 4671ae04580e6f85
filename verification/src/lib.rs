//! Conversion of HTML documents to Markdown.
//!
//! The HTML is parsed with html5ever into a [`HtmlNode`] tree, which is
//! walked to write Markdown: headings, paragraphs, inline formatting, links
//! and images, nested lists, blockquotes, fenced code blocks, tables and
//! rules. The output is UTF-8 and ends with a newline.

use vstd::prelude::*;
use vstd::string::StringExecFns;
use vstd::utf8::encode_utf8;

pub mod chars;
pub mod text;
pub mod tree;
pub mod html;
pub mod state;
pub mod tags;
pub mod table;
pub mod render_spec;
pub mod render;
pub mod blank;
pub mod frames;

pub use crate::tree::{Attr, HtmlNode};
use crate::chars::push_utf8_all;
use crate::html::{parse_html, parsed_document, TREE_DEPTH_LIMIT};
use crate::render_spec::{convert_spec, lemma_convert_same_tree, MAX_DEPTH};
use crate::state::{initial_state, lemma_finalize, well_terminated, Converter};
use crate::blank::{
    lemma_cut_keeps_plain, lemma_finalize_blank, lemma_walk_keeps_blank, no_triple_nl, plain_node,
};
use crate::tree::{cut_to, height, lemma_cut_height, lemma_cut_unique};

verus! {

/// The error type for HTML-to-Markdown conversion.
#[derive(Debug)]
pub enum Error {
    /// The HTML input could not be parsed; the parser's message.
    Parse(String),
    /// The conversion failed; the reason (the document nests too deeply).
    Io(String),
}

/// The reason given when a document nests deeper than [`MAX_DEPTH`].
pub open spec fn depth_error() -> Seq<char> {
    "HTML nesting exceeds maximum depth of 200"@
}

/// How an error reads.
pub open spec fn error_text(e: Error) -> Seq<char> {
    match e {
        Error::Parse(m) => "HTML parse error: "@ + m@,
        Error::Io(m) => "I/O error: "@ + m@,
    }
}

impl Error {
    /// The error as text: `HTML parse error: ...` or `I/O error: ...`.
    pub fn to_string(&self) -> (r: String)
        ensures
            r@ == error_text(*self),
    {
        match self {
            Error::Parse(m) => {
                let mut r = "HTML parse error: ".to_owned();
                r.append(m.as_str());
                r
            },
            Error::Io(m) => {
                let mut r = "I/O error: ".to_owned();
                r.append(m.as_str());
                r
            },
        }
    }
}

/// Options that control the Markdown output.
#[derive(Debug, Clone, Copy)]
pub struct Options {
    /// Compact output: unpadded tables (`|a|b|`), inline content (link text,
    /// emphasis, headings, alt text) collapsed onto one line, tight lists,
    /// at most one blank line between blocks and no blank padding at the
    /// start or end of the document. When false (the default), tables are
    /// padded to aligned columns and blocks keep blank lines around them.
    pub compressed: bool,
}

impl Default for Options {
    fn default() -> (o: Self)
        ensures
            !o.compressed,
    {
        Options { compressed: false }
    }
}

/// Converts a parsed document to Markdown, appending the UTF-8 output to
/// `out`. When the document nests deeper than [`MAX_DEPTH`] the conversion
/// stops with [`Error::Io`]; what was written up to that point stays in `out`.
pub fn convert_document(doc: &HtmlNode, out: &mut Vec<u8>, opts: &Options) -> (res: Result<
    (),
    Error,
>)
    ensures
        final(out)@ == old(out)@ + encode_utf8(convert_spec(*doc, opts.compressed).0),
        res is Ok <==> convert_spec(*doc, opts.compressed).1,
        res matches Err(e) ==> (e matches Error::Io(m) && m@ == depth_error()),
        height(*doc) < MAX_DEPTH ==> res is Ok,
        convert_spec(*doc, opts.compressed).1 ==> well_terminated(
            convert_spec(*doc, opts.compressed).0,
            opts.compressed,
        ),
        plain_node(*doc) ==> no_triple_nl(convert_spec(*doc, opts.compressed).0),
{
    let mut c = Converter::new(opts.compressed);
    let ok = c.walk(doc, 0);
    proof {
        if ok {
            lemma_finalize(c@);
        }
        lemma_finalize_blank(c@, opts.compressed);
        if plain_node(*doc) {
            lemma_walk_keeps_blank(initial_state(opts.compressed), *doc, 0);
        }
    }
    if !ok {
        push_utf8_all(out, c.sink.as_slice());
        let m = "HTML nesting exceeds maximum depth of 200".to_owned();
        return Err(Error::Io(m));
    }
    c.finalize();
    push_utf8_all(out, c.sink.as_slice());
    Ok(())
}

/// The Markdown of `html` (the text, and whether the conversion succeeds):
/// the conversion of the document html5ever parses from `html`, cut below
/// depth [`TREE_DEPTH_LIMIT`]. Every such cut is the same tree
/// ([`crate::tree::lemma_cut_unique`]) and converts the same way
/// ([`crate::render_spec::lemma_convert_same_tree`]).
pub open spec fn markdown(html: Seq<u8>, compressed: bool) -> (Seq<char>, bool) {
    convert_spec(
        choose|d: HtmlNode| cut_to(d, parsed_document(html), TREE_DEPTH_LIMIT as nat),
        compressed,
    )
}

/// Converts HTML to Markdown using `opts`, appending the UTF-8 output to `out`.
///
/// The document that html5ever parses from `html` is converted as
/// [`convert_document`] does (see [`markdown`]). Parsing a byte slice never
/// fails, so [`Error::Parse`] is not returned.
pub fn convert_with(html: &[u8], out: &mut Vec<u8>, opts: &Options) -> (res: Result<(), Error>)
    ensures
        final(out)@ == old(out)@ + encode_utf8(markdown(html@, opts.compressed).0),
        res is Ok <==> markdown(html@, opts.compressed).1,
        res matches Err(e) ==> (e matches Error::Io(m) && m@ == depth_error()),
        height(parsed_document(html@)) < MAX_DEPTH ==> res is Ok,
        res is Ok ==> well_terminated(markdown(html@, opts.compressed).0, opts.compressed),
        plain_node(parsed_document(html@)) ==> no_triple_nl(markdown(html@, opts.compressed).0),
{
    match parse_html(html) {
        Err(m) => Err(Error::Parse(m)),
        Ok(doc) => {
            let res = convert_document(&doc, out, opts);
            proof {
                let p = parsed_document(html@);
                let c = choose|d: HtmlNode| cut_to(d, p, TREE_DEPTH_LIMIT as nat);
                assert(cut_to(doc, p, TREE_DEPTH_LIMIT as nat));
                lemma_cut_unique(doc, c, p, TREE_DEPTH_LIMIT as nat);
                lemma_convert_same_tree(doc, c, opts.compressed);
                lemma_cut_height(doc, p, TREE_DEPTH_LIMIT as nat);
                if plain_node(p) {
                    lemma_cut_keeps_plain(doc, p, TREE_DEPTH_LIMIT as nat);
                }
            }
            res
        },
    }
}

/// Converts HTML to Markdown with the default [`Options`], appending the
/// UTF-8 output to `out`: what [`convert_with`] does when `compressed` is false.
pub fn convert(html: &[u8], out: &mut Vec<u8>) -> (res: Result<(), Error>)
    ensures
        final(out)@ == old(out)@ + encode_utf8(markdown(html@, false).0),
        res is Ok <==> markdown(html@, false).1,
        res matches Err(e) ==> (e matches Error::Io(m) && m@ == depth_error()),
        height(parsed_document(html@)) < MAX_DEPTH ==> res is Ok,
        res is Ok ==> well_terminated(markdown(html@, false).0, false),
        plain_node(parsed_document(html@)) ==> no_triple_nl(markdown(html@, false).0),
{
    let o = Options::default();
    convert_with(html, out, &o)
}

} // verus!
