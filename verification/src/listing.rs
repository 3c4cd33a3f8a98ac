//! The listing: the blank-line remover, which is the last stage, and the
//! whole pipeline from source text to compact listing.

use vstd::prelude::*;
use vstd::string::*;
use crate::expand::{expand_all, translate_tokens, ExpandError, Failure, outcome};
use crate::labels::{comment_text, label_to_linum, labels_to_comments, resolve_text};
use crate::text::{concat_lines, join_lines, lines, split_lines, texts};

verus! {

/// The lines among `ls` that are not empty, in their order.
pub open spec fn non_blank(ls: Seq<Seq<char>>) -> Seq<Seq<char>>
    decreases ls.len(),
{
    if ls.len() == 0 {
        ls
    } else if ls.last().len() == 0 {
        non_blank(ls.drop_last())
    } else {
        non_blank(ls.drop_last()).push(ls.last())
    }
}

/// The text without its empty lines: the other lines joined by line feeds.
pub open spec fn compact_text(text: Seq<char>) -> Seq<char> {
    join_lines(non_blank(lines(text)))
}

/// The listing of a source text: the macros are expanded, the label
/// references resolved, the label definitions turned into comments and the
/// empty lines removed, in this order. Where a line cannot be expanded, the
/// failure of the first such line.
pub open spec fn listing(source: Seq<char>) -> Result<Seq<char>, Failure> {
    match expand_all(lines(source)) {
        Ok(expanded) => Ok(compact_text(comment_text(resolve_text(expanded)))),
        Err(e) => Err(e),
    }
}

/// Removes the empty lines of a text.
pub fn remove_newlines(input: String) -> (out: String)
    ensures
        out@ == compact_text(input@),
{
    let source = split_lines(input.as_str());
    let ghost ls = texts(source@);
    let mut kept: Vec<String> = Vec::new();
    let mut i: usize = 0;
    assert(texts(kept@) =~= non_blank(ls.take(0)));
    while i < source.len()
        invariant
            i <= source.len(),
            ls == texts(source@),
            texts(kept@) == non_blank(ls.take(i as int)),
        decreases source.len() - i,
    {
        proof {
            assert(ls.take(i + 1).drop_last() =~= ls.take(i as int));
            assert(ls.take(i + 1).last() == source@[i as int]@);
        }
        if !source[i].as_str().is_empty() {
            let line = source[i].clone();
            assert(texts(kept@.push(line)) =~= texts(kept@).push(line@));
            kept.push(line);
        }
        i += 1;
    }
    assert(ls.take(i as int) =~= ls);
    concat_lines(kept)
}

/// Assembles a source text into its listing.
pub fn assemble(input: String) -> (r: Result<String, ExpandError>)
    ensures
        outcome(r) == listing(input@),
{
    match translate_tokens(input) {
        Ok(expanded) => Ok(remove_newlines(labels_to_comments(label_to_linum(expanded)))),
        Err(e) => Err(e),
    }
}

} // verus!
