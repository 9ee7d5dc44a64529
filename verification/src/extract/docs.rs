//! Parsing of documentation comments.

use vstd::prelude::*;
use crate::schema::{DocComment, DocTag, tags_view};

verus! {

/// What `spdcp::Comment::parse` makes of a comment's raw text: its brief
/// and its (tag, text) pairs in source order.
pub uninterp spec fn doc_comment_of(text: Seq<char>) -> (Seq<char>, Seq<(Seq<char>, Seq<char>)>);

/// Wraps `spdcp::Comment::parse`, moving its brief and tags into a
/// `DocComment`; the result is named, as a function of the text alone.
#[verifier::external_body]
pub fn parse_doc_comment(text: &str) -> (r: DocComment)
    ensures
        (r.brief@, tags_view(r.tags@)) == doc_comment_of(text@),
{
    let c = spdcp::Comment::parse(text);
    DocComment { brief: c.brief, tags: c.tags.into_iter().map(|t| DocTag { tag: t.tag, text: t.text }).collect() }
}

} // verus!
