//! Associates comments with declarations.
//!
//! This follows the rules of the SourcePawn lexer that the old docparse tool
//! relied on:
//! - A *tail* comment block starts with a single line comment that follows a
//!   token on the same line and extends over directly following comments
//!   (no blank line).
//! - A *front* comment block is a sequence of comments with at most one line
//!   between them, followed by a token on its own line.
//!
//! A declaration on line `L` is documented by the front block ending on line
//! `L - 1`, or otherwise by a tail block starting on line `L`.

use vstd::prelude::*;
use crate::preprocess::{Item, RawComment};

verus! {

/// A block of comments: byte range and first and last line
#[derive(Clone, Copy, Debug, PartialEq, Eq, Structural)]
pub struct CommentRange {
    pub start: usize,
    pub end: usize,
    pub start_line: usize,
    pub end_line: usize,
}

/// The comment blocks of a file, front and tail
pub struct Comments {
    front: Vec<CommentRange>,
    tail: Vec<CommentRange>,
}

/// The block from comment `a` to comment `b`
pub open spec fn range(a: RawComment, b: RawComment) -> CommentRange {
    CommentRange { start: a.start, end: b.end, start_line: a.start_line, end_line: b.end_line }
}

fn make_range(a: &RawComment, b: &RawComment) -> (r: CommentRange)
    ensures
        r == range(*a, *b),
{
    CommentRange { start: a.start, end: b.end, start_line: a.start_line, end_line: b.end_line }
}

/// Whether comment `next` continues a block ending with `last`: no blank
/// line between them
pub open spec fn adjacent(last: RawComment, next: RawComment) -> bool {
    next.start_line <= last.end_line + 1
}

/// Comment line numbers that leave room for the next line
pub open spec fn lines_fit(items: Seq<Item>) -> bool {
    forall|k: int| 0 <= k < items.len() ==> (#[trigger] items[k] matches Item::Comment(c) ==> c.end_line < usize::MAX)
}

/// Extends a tail block ending with `last` over the adjacent comments from
/// `i`: the index after the block and its last comment
pub open spec fn tail_end(items: Seq<Item>, i: int, last: RawComment) -> (int, RawComment)
    decreases items.len() - i,
{
    if 0 <= i < items.len() && (items[i] matches Item::Comment(next) && adjacent(last, next)) {
        tail_end(items, i + 1, items[i]->Comment_0)
    } else {
        (i, last)
    }
}

/// Extends a front block from comment `start` over the adjacent comments
/// from `i`; `last` is the block's last comment so far and `committed` the
/// end it has when a token on the last comment's line follows. Gives the
/// index where the block ends and its last comment, if it documents what
/// follows
pub open spec fn front_scan(items: Seq<Item>, i: int, start: RawComment, last: RawComment,
    committed: Option<RawComment>) -> (int, Option<RawComment>)
    decreases items.len() - i,
{
    if i < 0 || i >= items.len() {
        (i, Some(last))
    } else {
        match items[i] {
            Item::Comment(next) => if !adjacent(last, next) {
                (i, Some(last))
            } else {
                front_scan(items, i + 1, start, next, Some(last))
            },
            Item::Token { line, directive } => (i, if start.start_line == line || directive {
                None
            } else if line != last.end_line {
                Some(last)
            } else {
                committed
            }),
        }
    }
}

pub proof fn lemma_tail_end(items: Seq<Item>, i: int, last: RawComment)
    requires
        0 <= i,
    ensures
        i <= tail_end(items, i, last).0 <= items.len() || tail_end(items, i, last).0 == i,
    decreases items.len() - i,
{
    if 0 <= i < items.len() && (items[i] matches Item::Comment(next) && adjacent(last, next)) {
        lemma_tail_end(items, i + 1, items[i]->Comment_0);
    }
}

pub proof fn lemma_front_scan(items: Seq<Item>, i: int, start: RawComment, last: RawComment,
    committed: Option<RawComment>)
    requires
        0 <= i,
    ensures
        i <= front_scan(items, i, start, last, committed).0,
        i <= items.len() ==> front_scan(items, i, start, last, committed).0 <= items.len(),
    decreases items.len() - i,
{
    if 0 <= i < items.len() {
        match items[i] {
            Item::Comment(next) => if adjacent(last, next) {
                lemma_front_scan(items, i + 1, start, next, Some(last));
            },
            _ => {},
        }
    }
}

/// The block scan from `i`, the line of the last token being `token_line`:
/// the front and tail blocks found so far are extended
pub open spec fn block_scan(items: Seq<Item>, i: int, token_line: usize, front: Seq<CommentRange>,
    tail: Seq<CommentRange>) -> (Seq<CommentRange>, Seq<CommentRange>)
    decreases items.len() - i,
{
    if i < 0 || i >= items.len() {
        (front, tail)
    } else {
        match items[i] {
            Item::Token { line, .. } => block_scan(items, i + 1, line, front, tail),
            Item::Comment(first) => {
                if token_line == first.start_line && first.start_line == first.end_line {
                    proof {
                        lemma_tail_end(items, i + 1, first);
                    }
                    let (j, last) = tail_end(items, i + 1, first);
                    block_scan(items, j, token_line, front, tail.push(range(first, last)))
                } else {
                    proof {
                        lemma_front_scan(items, i + 1, first, first, None);
                    }
                    let (j, committed) = front_scan(items, i + 1, first, first, None);
                    let f = match committed {
                        Some(end) => front.push(range(first, end)),
                        None => front,
                    };
                    block_scan(items, j, token_line, f, tail)
                }
            },
        }
    }
}


/// Items `i` through `j` are comments, each continuing the one before with
/// no blank line between
pub open spec fn comment_run(items: Seq<Item>, i: int, j: int) -> bool {
    &&& 0 <= i <= j < items.len()
    &&& forall|m: int| i <= m <= j ==> (#[trigger] items[m]) is Comment
    &&& forall|m: int| i <= m < j ==> #[trigger] adjacent(items[m]->Comment_0, items[m + 1]->Comment_0)
}

/// The line of the last token before item `i`; 0 when there is none
pub open spec fn last_token_line(items: Seq<Item>, i: int) -> usize
    decreases i,
{
    if i <= 0 || i > items.len() {
        0
    } else {
        match items[i - 1] {
            Item::Token { line, .. } => line,
            Item::Comment(_) => last_token_line(items, i - 1),
        }
    }
}

/// A block spans comments `i` through `j`, a run with no blank line between
pub open spec fn spans_run(items: Seq<Item>, r: CommentRange) -> bool {
    exists|i: int, j: int|
        #![trigger comment_run(items, i, j)]
        comment_run(items, i, j) && r == range(items[i]->Comment_0, items[j]->Comment_0)
}

/// A tail block spans such a run whose first comment is one line, on the
/// line of the last token before it
pub open spec fn tail_run(items: Seq<Item>, r: CommentRange) -> bool {
    exists|i: int, j: int|
        #![trigger comment_run(items, i, j)]
        comment_run(items, i, j) && r == range(items[i]->Comment_0, items[j]->Comment_0)
            && items[i]->Comment_0.start_line == items[i]->Comment_0.end_line
            && items[i]->Comment_0.start_line == last_token_line(items, i)
}

proof fn lemma_tail_end_run(items: Seq<Item>, i: int, k: int, last: RawComment)
    requires
        i < k,
        comment_run(items, i, k - 1),
        last == items[k - 1]->Comment_0,
    ensures
        ({
            let (j, l) = tail_end(items, k, last);
            &&& i < j
            &&& comment_run(items, i, j - 1)
            &&& l == items[j - 1]->Comment_0
        }),
    decreases items.len() - k,
{
    if 0 <= k < items.len() && (items[k] matches Item::Comment(next) && adjacent(last, next)) {
        assert(comment_run(items, i, k));
        lemma_tail_end_run(items, i, k + 1, items[k]->Comment_0);
    }
}

proof fn lemma_front_scan_run(items: Seq<Item>, i: int, k: int, start: RawComment, last: RawComment, committed: Option<RawComment>)
    requires
        i < k,
        comment_run(items, i, k - 1),
        start == items[i]->Comment_0,
        last == items[k - 1]->Comment_0,
        committed matches Some(c) ==> exists|m: int| i <= m < k && #[trigger] comment_run(items, i, m) && c == items[m]->Comment_0,
    ensures
        front_scan(items, k, start, last, committed).1 matches Some(c) ==> exists|m: int|
            #![trigger comment_run(items, i, m)]
            comment_run(items, i, m) && c == items[m]->Comment_0,
    decreases items.len() - k,
{
    if 0 <= k < items.len() {
        match items[k] {
            Item::Comment(next) => if adjacent(last, next) {
                assert(comment_run(items, i, k));
                assert(comment_run(items, i, k - 1));
                lemma_front_scan_run(items, i, k + 1, start, next, Some(last));
            } else {
                assert(comment_run(items, i, k - 1));
            },
            _ => {
                assert(comment_run(items, i, k - 1));
            },
        }
    } else {
        assert(comment_run(items, i, k - 1));
    }
}

#[verifier::rlimit(40)]
proof fn lemma_block_scan_runs(items: Seq<Item>, i: int, token_line: usize, front: Seq<CommentRange>, tail: Seq<CommentRange>)
    requires
        0 <= i,
        token_line == last_token_line(items, i),
        forall|q: int| 0 <= q < front.len() ==> spans_run(items, #[trigger] front[q]),
        forall|q: int| 0 <= q < tail.len() ==> tail_run(items, #[trigger] tail[q]),
    ensures
        forall|q: int| 0 <= q < block_scan(items, i, token_line, front, tail).0.len() ==> spans_run(
            items,
            #[trigger] block_scan(items, i, token_line, front, tail).0[q],
        ),
        forall|q: int| 0 <= q < block_scan(items, i, token_line, front, tail).1.len() ==> tail_run(
            items,
            #[trigger] block_scan(items, i, token_line, front, tail).1[q],
        ),
    decreases items.len() - i,
{
    if i < items.len() {
        match items[i] {
            Item::Token { line, .. } => {
                assert(last_token_line(items, i + 1) == line);
                assert(block_scan(items, i, token_line, front, tail) == block_scan(items, i + 1, line, front, tail));
                lemma_block_scan_runs(items, i + 1, line, front, tail);
            },
            Item::Comment(first) => {
                assert(comment_run(items, i, i));
                if token_line == first.start_line && first.start_line == first.end_line {
                    lemma_tail_end(items, i + 1, first);
                    lemma_tail_end_run(items, i, i + 1, first);
                    let (j, last) = tail_end(items, i + 1, first);
                    let r = range(first, last);
                    assert(comment_run(items, i, j - 1));
                    assert(tail_run(items, r));
                    let t2 = tail.push(r);
                    assert forall|q: int| 0 <= q < t2.len() implies tail_run(items, #[trigger] t2[q]) by {
                        if q < tail.len() {
                            assert(t2[q] == tail[q]);
                        }
                    }
                    lemma_token_line_over_comments(items, i, j);
                    assert(block_scan(items, i, token_line, front, tail) == block_scan(items, j, token_line, front, t2));
                    lemma_block_scan_runs(items, j, token_line, front, t2);
                } else {
                    lemma_front_scan(items, i + 1, first, first, None);
                    lemma_front_scan_run(items, i, i + 1, first, first, None);
                    let (j, committed) = front_scan(items, i + 1, first, first, None);
                    let f = match committed {
                        Some(end) => front.push(range(first, end)),
                        None => front,
                    };
                    assert forall|q: int| 0 <= q < f.len() implies spans_run(items, #[trigger] f[q]) by {
                        if q < front.len() {
                            assert(f[q] == front[q]);
                        } else {
                            let end = committed->0;
                            let m = choose|m: int| comment_run(items, i, m) && end == items[m]->Comment_0;
                            assert(comment_run(items, i, m));
                        }
                    }
                    front_scan_comments(items, i + 1, first, first, None);
                    lemma_token_line_over_comments(items, i, j);
                    assert(block_scan(items, i, token_line, front, tail) == block_scan(items, j, token_line, f, tail));
                    lemma_block_scan_runs(items, j, token_line, f, tail);
                }
            },
        }
    }
}

proof fn lemma_token_line_over_comments(items: Seq<Item>, i: int, j: int)
    requires
        0 <= i <= j <= items.len(),
        forall|m: int| i <= m < j ==> (#[trigger] items[m]) is Comment,
    ensures
        last_token_line(items, j) == last_token_line(items, i),
    decreases j - i,
{
    if j > i {
        lemma_token_line_over_comments(items, i, j - 1);
    }
}

/// The items a front scan passes over are comments
proof fn front_scan_comments(items: Seq<Item>, k: int, start: RawComment, last: RawComment, committed: Option<RawComment>)
    requires
        0 <= k,
    ensures
        forall|m: int| k <= m < front_scan(items, k, start, last, committed).0 ==> (#[trigger] items[m]) is Comment,
    decreases items.len() - k,
{
    if 0 <= k < items.len() {
        match items[k] {
            Item::Comment(next) => if adjacent(last, next) {
                front_scan_comments(items, k + 1, start, next, Some(last));
            },
            _ => {},
        }
    }
}

/// The blocks of a file span runs of comments with no blank line between;
/// a tail block starts with a one-line comment on the line of the last
/// token before it
pub proof fn law_blocks_span_runs(items: Seq<Item>)
    ensures
        forall|q: int| 0 <= q < block_scan(items, 0, 0, Seq::empty(), Seq::empty()).0.len() ==> spans_run(
            items,
            #[trigger] block_scan(items, 0, 0, Seq::empty(), Seq::empty()).0[q],
        ),
        forall|q: int| 0 <= q < block_scan(items, 0, 0, Seq::empty(), Seq::empty()).1.len() ==> tail_run(
            items,
            #[trigger] block_scan(items, 0, 0, Seq::empty(), Seq::empty()).1[q],
        ),
{
    lemma_block_scan_runs(items, 0, 0, Seq::empty(), Seq::empty());
}

/// The front blocks among the first `k` that end on line `line`; the first
pub open spec fn first_ending(rs: Seq<CommentRange>, line: int, k: int) -> Option<CommentRange>
    decreases rs.len() - k,
{
    if k < 0 || k >= rs.len() {
        None
    } else if rs[k].end_line == line {
        Some(rs[k])
    } else {
        first_ending(rs, line, k + 1)
    }
}

/// The first block from index `k` starting on line `line`
pub open spec fn first_starting(rs: Seq<CommentRange>, line: int, k: int) -> Option<CommentRange>
    decreases rs.len() - k,
{
    if k < 0 || k >= rs.len() {
        None
    } else if rs[k].start_line == line {
        Some(rs[k])
    } else {
        first_starting(rs, line, k + 1)
    }
}

fn tail_block(items: &[Item], i: usize, first: RawComment) -> (r: (usize, RawComment))
    requires
        i <= items.len(),
        lines_fit(items@),
        first.end_line < usize::MAX,
    ensures
        r.0 as int == tail_end(items@, i as int, first).0,
        r.1 == tail_end(items@, i as int, first).1,
        i <= r.0 <= items.len(),
        r.1.end_line < usize::MAX,
{
    let mut j = i;
    let mut last = first;
    let mut done = false;
    while !done && j < items.len()
        invariant
            i <= j <= items.len(),
            lines_fit(items@),
            last.end_line < usize::MAX,
            tail_end(items@, i as int, first) == tail_end(items@, j as int, last) || done,
            done ==> tail_end(items@, i as int, first) == (j as int, last),
        decreases items.len() - j, if done { 0int } else { 1int },
    {
        match items[j] {
            Item::Comment(next) => {
                if next.start_line > last.end_line + 1 {
                    done = true;
                } else {
                    last = next;
                    j = j + 1;
                }
            },
            _ => {
                done = true;
            },
        }
    }
    (j, last)
}

fn front_block(items: &[Item], i: usize, start: RawComment) -> (r: (usize, Option<RawComment>))
    requires
        i <= items.len(),
        lines_fit(items@),
        start.end_line < usize::MAX,
    ensures
        r.0 as int == front_scan(items@, i as int, start, start, None).0,
        r.1 == front_scan(items@, i as int, start, start, None).1,
        i <= r.0 <= items.len(),
{
    let ghost target = front_scan(items@, i as int, start, start, None);
    let mut j = i;
    let mut last = start;
    let mut committed: Option<RawComment> = None;
    loop
        invariant
            i <= j <= items.len(),
            lines_fit(items@),
            last.end_line < usize::MAX,
            target == front_scan(items@, i as int, start, start, None),
            front_scan(items@, j as int, start, last, committed) == target,
        decreases items.len() - j,
    {
        if j >= items.len() {
            return (j, Some(last));
        }
        match items[j] {
            Item::Comment(next) => {
                committed = Some(last);
                if next.start_line > last.end_line + 1 {
                    return (j, committed);
                }
                last = next;
                j = j + 1;
            },
            Item::Token { line, directive } => {
                if start.start_line == line || directive {
                    committed = None;
                } else if line != last.end_line {
                    committed = Some(last);
                }
                return (j, committed);
            },
        }
    }
}

impl Comments {
    /// The front blocks, in order
    pub closed spec fn front(&self) -> Seq<CommentRange> {
        self.front@
    }

    /// The tail blocks, in order
    pub closed spec fn tail(&self) -> Seq<CommentRange> {
        self.tail@
    }

    /// Groups the comments among `items` into front and tail blocks
    pub fn new(items: &[Item]) -> (c: Self)
        requires
            lines_fit(items@),
        ensures
            (c.front(), c.tail()) == block_scan(items@, 0, 0, Seq::empty(), Seq::empty()),
    {
        let mut front: Vec<CommentRange> = Vec::new();
        let mut tail: Vec<CommentRange> = Vec::new();
        let ghost target = block_scan(items@, 0, 0, Seq::empty(), Seq::empty());
        let mut i: usize = 0;
        let mut last_token_line: usize = 0;
        while i < items.len()
            invariant
                i <= items.len(),
                lines_fit(items@),
                block_scan(items@, i as int, last_token_line, front@, tail@) == target,
            decreases items.len() - i,
        {
            match items[i] {
                Item::Token { line, .. } => {
                    last_token_line = line;
                    i = i + 1;
                },
                Item::Comment(first) => {
                    assert(items@[i as int] matches Item::Comment(c) ==> c.end_line < usize::MAX);
                    if last_token_line == first.start_line && first.start_line == first.end_line {
                        let (j, last) = tail_block(items, i + 1, first);
                        tail.push(make_range(&first, &last));
                        i = j;
                    } else {
                        let (j, committed) = front_block(items, i + 1, first);
                        match committed {
                            Some(end) => {
                                front.push(make_range(&first, &end));
                            },
                            None => {},
                        }
                        i = j;
                    }
                },
            }
        }
        Comments { front: front, tail: tail }
    }

    /// The documentation comment for a declaration on `line`: a front
    /// comment ending on the line before, else a trailing comment starting on it
    pub open spec fn find_spec(&self, line: usize) -> Option<CommentRange> {
        if line == 0 {
            None
        } else {
            match first_ending(self.front(), line - 1, 0) {
                Some(f) => Some(f),
                None => first_starting(self.tail(), line as int, 0),
            }
        }
    }

    /// Finds the documentation comment for a declaration on `line`
    pub fn find(&self, line: usize) -> (r: Option<CommentRange>)
        ensures
            r == self.find_spec(line),
    {
        if line == 0 {
            return None;
        }
        let mut k: usize = 0;
        while k < self.front.len()
            invariant
                line > 0,
                k <= self.front.len(),
                first_ending(self.front@, line - 1, 0) == first_ending(self.front@, line - 1, k as int),
            decreases self.front.len() - k,
        {
            if self.front[k].end_line == line - 1 {
                return Some(self.front[k]);
            }
            k = k + 1;
        }
        let mut k: usize = 0;
        while k < self.tail.len()
            invariant
                line > 0,
                first_ending(self.front@, line - 1, 0) is None,
                k <= self.tail.len(),
                first_starting(self.tail@, line as int, 0) == first_starting(self.tail@, line as int, k as int),
            decreases self.tail.len() - k,
        {
            if self.tail[k].start_line == line {
                return Some(self.tail[k]);
            }
            k = k + 1;
        }
        None
    }
}

proof fn lemma_first_ending_in(rs: Seq<CommentRange>, line: int, k: int)
    requires
        0 <= k,
    ensures
        first_ending(rs, line, k) matches Some(r) ==> exists|q: int| k <= q < rs.len() && #[trigger] rs[q] == r && r.end_line == line,
    decreases rs.len() - k,
{
    if k < rs.len() && rs[k].end_line != line {
        lemma_first_ending_in(rs, line, k + 1);
    }
}

proof fn lemma_first_starting_in(rs: Seq<CommentRange>, line: int, k: int)
    requires
        0 <= k,
    ensures
        first_starting(rs, line, k) matches Some(r) ==> exists|q: int| k <= q < rs.len() && #[trigger] rs[q] == r && r.start_line == line,
    decreases rs.len() - k,
{
    if k < rs.len() && rs[k].start_line != line {
        lemma_first_starting_in(rs, line, k + 1);
    }
}

/// The comment found for a declaration spans a run of comments with no
/// blank line between; one found as a trailing comment starts with a
/// one-line comment on the declaration's line, after a token on that line
pub proof fn law_found_block(items: Seq<Item>, c: Comments, line: usize)
    requires
        (c.front(), c.tail()) == block_scan(items, 0, 0, Seq::empty(), Seq::empty()),
    ensures
        c.find_spec(line) matches Some(r) ==> spans_run(items, r),
        line > 0 && first_ending(c.front(), line - 1, 0) is None ==> (c.find_spec(line) matches Some(r) ==> tail_run(items, r)
            && r.start_line == line),
{
    law_blocks_span_runs(items);
    if line > 0 {
        lemma_first_ending_in(c.front(), line - 1, 0);
        lemma_first_starting_in(c.tail(), line as int, 0);
        match c.find_spec(line) {
            Some(r) => {
                if first_ending(c.front(), line - 1, 0) is Some {
                    let q = choose|q: int| 0 <= q < c.front().len() && #[trigger] c.front()[q] == r && r.end_line == line - 1;
                    let bs = block_scan(items, 0, 0, Seq::empty(), Seq::empty());
                    assert(c.front() == bs.0);
                    assert(spans_run(items, bs.0[q]));
                } else {
                    let q = choose|q: int| 0 <= q < c.tail().len() && #[trigger] c.tail()[q] == r && r.start_line == line;
                    let bs = block_scan(items, 0, 0, Seq::empty(), Seq::empty());
                    assert(c.tail() == bs.1);
                    assert(tail_run(items, bs.1[q]));
                    let (i, j) = choose|i: int, j: int| comment_run(items, i, j) && r == range(items[i]->Comment_0, items[j]->Comment_0)
                        && items[i]->Comment_0.start_line == items[i]->Comment_0.end_line
                        && items[i]->Comment_0.start_line == last_token_line(items, i);
                    assert(comment_run(items, i, j));
                }
            },
            None => {},
        }
    }
}

} // verus!
