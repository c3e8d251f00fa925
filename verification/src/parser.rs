//! Recursive-descent parser from a token stream to a program tree.
//!
//! Tokens are single characters.  Six characters denote the primitive
//! operations, `[` opens a loop body, `]` closes one, and every other
//! character is commentary that produces no node.  An unmatched `]`
//! ends the scope in which it appears; an unmatched `[` swallows the
//! rest of the stream as its body.  Parsing never fails.

use vstd::prelude::*;
use crate::ast::LanguageNode;
use crate::ast::NodeView;
use crate::ast::deep_view_seq;
use crate::ast::lemma_deep_view_seq_push;
use crate::ast::loop_count;
use crate::ast::loop_count_seq;

verus! {

/// Outcome of one parsing step: a node, a discarded token, or the end
/// of the current scope.
pub enum ParseResult<T> {
    Nop,
    Eof,
    Node(T),
}

/// A finite stream of one-character tokens, consumed front to back.
pub struct TokenStream {
    pub toks: Vec<char>,
    pub pos: usize,
}

impl TokenStream {
    /// The position never passes the end of the token vector.
    pub open spec fn wf(self) -> bool {
        self.pos <= self.toks@.len()
    }

    /// A stream over the given tokens, positioned at the first.
    pub fn new(toks: Vec<char>) -> (s: TokenStream)
        ensures
            s.toks@ == toks@,
            s.pos == 0,
            s.wf(),
    {
        TokenStream { toks, pos: 0 }
    }
}

/// Does this character denote one of the six primitive operations?
pub open spec fn is_op_char(c: char) -> bool {
    c == '>' || c == '<' || c == '+' || c == '-' || c == ',' || c == '.'
}

/// The leaf node a primitive-operation character denotes.
pub open spec fn leaf_of(c: char) -> NodeView {
    if c == '>' {
        NodeView::IncrementPointer
    } else if c == '<' {
        NodeView::DecrementPointer
    } else if c == '+' {
        NodeView::IncrementCounter
    } else if c == '-' {
        NodeView::DecrementCounter
    } else if c == ',' {
        NodeView::ReadFromStd
    } else {
        NodeView::WriteToStd
    }
}

/// `p` forced into `[lo, hi]`; the identity whenever `lo <= p <= hi`.
pub open spec fn clamp_pos(p: int, lo: int, hi: int) -> int {
    if p < lo {
        lo
    } else if p > hi {
        hi
    } else {
        p
    }
}

/// What parsing one scope from position `pos` yields: the scope's nodes
/// in order, and the position just past the `]` that closed the scope,
/// or the stream's length if the stream ran out first.
pub open spec fn spec_parse(toks: Seq<char>, pos: int) -> (Seq<NodeView>, int)
    decreases toks.len() - pos,
{
    if pos < 0 || pos >= toks.len() {
        (Seq::<NodeView>::empty(), pos)
    } else {
        let c = toks[pos];
        if c == ']' {
            (Seq::<NodeView>::empty(), pos + 1)
        } else if c == '[' {
            let body = spec_parse(toks, pos + 1);
            let p1 = clamp_pos(body.1, pos + 1, toks.len() as int);
            let rest = spec_parse(toks, p1);
            (
                seq![NodeView::Brackets(Box::new(NodeView::Many(body.0)))] + rest.0,
                rest.1,
            )
        } else if is_op_char(c) {
            let rest = spec_parse(toks, pos + 1);
            (seq![leaf_of(c)] + rest.0, rest.1)
        } else {
            spec_parse(toks, pos + 1)
        }
    }
}

/// Parsing a scope moves the position forward, never past the end; it
/// stands still only on an exhausted stream.
pub proof fn lemma_spec_parse_bounds(toks: Seq<char>, pos: int)
    requires
        0 <= pos <= toks.len(),
    ensures
        pos <= spec_parse(toks, pos).1 <= toks.len(),
        pos < toks.len() ==> pos + 1 <= spec_parse(toks, pos).1,
    decreases toks.len() - pos,
{
    if pos < toks.len() {
        let c = toks[pos];
        if c == '[' {
            lemma_spec_parse_bounds(toks, pos + 1);
            let p1 = clamp_pos(spec_parse(toks, pos + 1).1, pos + 1, toks.len() as int);
            lemma_spec_parse_bounds(toks, p1);
        } else if c != ']' {
            lemma_spec_parse_bounds(toks, pos + 1);
        }
    }
}

/// What one call of `parse_next` does, as a function of the token under
/// the old position.
pub open spec fn parse_next_post(
    toks: Seq<char>,
    pos: int,
    new_pos: int,
    r: ParseResult<LanguageNode>,
) -> bool {
    if pos >= toks.len() {
        &&& r is Eof
        &&& new_pos == pos
    } else if toks[pos] == ']' {
        &&& r is Eof
        &&& new_pos == pos + 1
    } else if toks[pos] == '[' {
        &&& r matches ParseResult::Node(n) && n.deep_view() == NodeView::Brackets(
            Box::new(NodeView::Many(spec_parse(toks, pos + 1).0)),
        )
        &&& new_pos == spec_parse(toks, pos + 1).1
    } else if is_op_char(toks[pos]) {
        &&& r matches ParseResult::Node(n) && n.deep_view() == leaf_of(toks[pos])
        &&& new_pos == pos + 1
    } else {
        &&& r is Nop
        &&& new_pos == pos + 1
    }
}

/// One parsing step: consume one semantic unit from the stream.
///
/// A primitive character yields its leaf; `[` recursively parses the
/// whole loop body, up to and including its closing `]`; `]` and an
/// exhausted stream yield `Eof`; anything else yields `Nop`.
pub fn parse_next(strs: &mut TokenStream) -> (r: ParseResult<LanguageNode>)
    requires
        old(strs).wf(),
    ensures
        final(strs).wf(),
        final(strs).toks@ == old(strs).toks@,
        old(strs).pos <= final(strs).pos,
        parse_next_post(old(strs).toks@, old(strs).pos as int, final(strs).pos as int, r),
    decreases strs.toks@.len() - strs.pos, 0int,
{
    if strs.pos >= strs.toks.len() {
        return ParseResult::Eof;
    }
    let c = strs.toks[strs.pos];
    strs.pos = strs.pos + 1;
    match c {
        '>' => ParseResult::Node(LanguageNode::IncrementPointer),
        '<' => ParseResult::Node(LanguageNode::DecrementPointer),
        '+' => ParseResult::Node(LanguageNode::IncrementCounter),
        '-' => ParseResult::Node(LanguageNode::DecrementCounter),
        ',' => ParseResult::Node(LanguageNode::ReadFromStd),
        '.' => ParseResult::Node(LanguageNode::WriteToStd),
        '[' => {
            proof {
                lemma_spec_parse_bounds(strs.toks@, strs.pos as int);
            }
            let body = parse(strs);
            ParseResult::Node(LanguageNode::Brackets(Box::new(body)))
        },
        ']' => ParseResult::Eof,
        _ => ParseResult::Nop,
    }
}

/// Parse one scope: collect nodes until the scope closes or the stream
/// runs out, and return them as a `Many`.
#[verifier::loop_isolation(false)]
pub fn parse(strs: &mut TokenStream) -> (n: LanguageNode)
    requires
        old(strs).wf(),
    ensures
        final(strs).wf(),
        final(strs).toks@ == old(strs).toks@,
        n.deep_view() == NodeView::Many(spec_parse(old(strs).toks@, old(strs).pos as int).0),
        final(strs).pos as int == spec_parse(old(strs).toks@, old(strs).pos as int).1,
    decreases strs.toks@.len() - strs.pos, 1int,
{
    let ghost toks = strs.toks@;
    let ghost pos0 = strs.pos as int;
    let mut out_vec: Vec<LanguageNode> = Vec::new();
    let mut done: bool = false;
    proof {
        assert(deep_view_seq(out_vec@) + spec_parse(toks, pos0).0 =~= spec_parse(toks, pos0).0);
    }
    while !done
        invariant
            strs.wf(),
            strs.toks@ == toks,
            pos0 <= strs.pos as int,
            !done ==> spec_parse(toks, pos0).0 == deep_view_seq(out_vec@) + spec_parse(
                toks,
                strs.pos as int,
            ).0,
            !done ==> spec_parse(toks, pos0).1 == spec_parse(toks, strs.pos as int).1,
            done ==> spec_parse(toks, pos0).0 == deep_view_seq(out_vec@),
            done ==> spec_parse(toks, pos0).1 == strs.pos as int,
        decreases toks.len() - strs.pos + (if done { 0int } else { 1int }),
    {
        let ghost pos_before = strs.pos as int;
        let parse_result = parse_next(strs);
        proof {
            lemma_spec_parse_bounds(toks, pos_before);
            if pos_before < toks.len() && toks[pos_before] == '[' {
                lemma_spec_parse_bounds(toks, pos_before + 1);
            }
        }
        match parse_result {
            ParseResult::Eof => {
                proof {
                    assert(deep_view_seq(out_vec@) + spec_parse(toks, pos_before).0
                        =~= deep_view_seq(out_vec@));
                }
                done = true;
            },
            ParseResult::Node(p) => {
                proof {
                    lemma_deep_view_seq_push(out_vec@, p);
                    assert(deep_view_seq(out_vec@.push(p)) + spec_parse(toks, strs.pos as int).0
                        =~= deep_view_seq(out_vec@) + spec_parse(toks, pos_before).0);
                }
                out_vec.push(p);
            },
            ParseResult::Nop => {},
        }
    }
    LanguageNode::Many(out_vec)
}

/// The number of `[` tokens in `toks[from..to)`.
pub open spec fn count_opens(toks: Seq<char>, from: int, to: int) -> int
    decreases to - from,
{
    if from >= to {
        0
    } else {
        (if toks[from] == '[' {
            1int
        } else {
            0int
        }) + count_opens(toks, from + 1, to)
    }
}

/// The number of `]` tokens in `toks[from..to)`.
pub open spec fn count_closes(toks: Seq<char>, from: int, to: int) -> int
    decreases to - from,
{
    if from >= to {
        0
    } else {
        (if toks[from] == ']' {
            1int
        } else {
            0int
        }) + count_closes(toks, from + 1, to)
    }
}

/// Opens minus closes in `toks[from..to)`: the bracket-nesting depth
/// the region leaves behind.
pub open spec fn depth_delta(toks: Seq<char>, from: int, to: int) -> int {
    count_opens(toks, from, to) - count_closes(toks, from, to)
}

/// The counts of a one-token region.
pub proof fn lemma_counts_one(toks: Seq<char>, pos: int)
    requires
        0 <= pos < toks.len(),
    ensures
        count_opens(toks, pos, pos + 1) == if toks[pos] == '[' {
            1int
        } else {
            0int
        },
        count_closes(toks, pos, pos + 1) == if toks[pos] == ']' {
            1int
        } else {
            0int
        },
{
    assert(count_opens(toks, pos + 1, pos + 1) == 0);
    assert(count_closes(toks, pos + 1, pos + 1) == 0);
}

/// Counts over adjacent regions add up.
pub proof fn lemma_count_split(toks: Seq<char>, a: int, b: int, c: int)
    requires
        a <= b <= c,
    ensures
        count_opens(toks, a, c) == count_opens(toks, a, b) + count_opens(toks, b, c),
        count_closes(toks, a, c) == count_closes(toks, a, b) + count_closes(toks, b, c),
    decreases b - a,
{
    if a < b {
        lemma_count_split(toks, a + 1, b, c);
    }
}

/// Each tree the parser builds from a region holds one `Brackets` node
/// for every `[` token the region holds.
pub proof fn lemma_parse_loop_count(toks: Seq<char>, pos: int)
    requires
        0 <= pos <= toks.len(),
    ensures
        loop_count_seq(spec_parse(toks, pos).0) == count_opens(
            toks,
            pos,
            spec_parse(toks, pos).1,
        ),
    decreases toks.len() - pos,
{
    lemma_spec_parse_bounds(toks, pos);
    if pos < toks.len() {
        let c = toks[pos];
        let items = spec_parse(toks, pos).0;
        if c == '[' {
            lemma_spec_parse_bounds(toks, pos + 1);
            lemma_parse_loop_count(toks, pos + 1);
            let body = spec_parse(toks, pos + 1);
            let p1 = clamp_pos(body.1, pos + 1, toks.len() as int);
            assert(p1 == body.1);
            lemma_spec_parse_bounds(toks, p1);
            lemma_parse_loop_count(toks, p1);
            let rest = spec_parse(toks, p1);
            assert(items[0] == NodeView::Brackets(Box::new(NodeView::Many(body.0))));
            assert(items.subrange(1, items.len() as int) =~= rest.0);
            assert(loop_count(NodeView::Many(body.0)) == loop_count_seq(body.0));
            assert(loop_count(items[0]) == 1 + loop_count(NodeView::Many(body.0)));
            assert(loop_count_seq(items) == loop_count(items[0]) + loop_count_seq(rest.0));
            lemma_count_split(toks, pos, pos + 1, rest.1);
            lemma_count_split(toks, pos + 1, p1, rest.1);
            lemma_counts_one(toks, pos);
        } else if c == ']' {
            lemma_counts_one(toks, pos);
        } else {
            lemma_spec_parse_bounds(toks, pos + 1);
            lemma_parse_loop_count(toks, pos + 1);
            let rest = spec_parse(toks, pos + 1);
            lemma_count_split(toks, pos, pos + 1, rest.1);
            lemma_counts_one(toks, pos);
            if is_op_char(c) {
                assert(items[0] == leaf_of(c));
                assert(items.subrange(1, items.len() as int) =~= rest.0);
                assert(loop_count(items[0]) == 0);
                assert(loop_count_seq(items) == loop_count(items[0]) + loop_count_seq(rest.0));
            }
        }
    }
}

/// Where parsing a scope stops: either at the stream's end, with the
/// region's nesting depth never negative, or just past the first `]`
/// that closes more than the region opened.
pub proof fn lemma_parse_stop(toks: Seq<char>, pos: int)
    requires
        0 <= pos <= toks.len(),
    ensures
        ({
            let p = spec_parse(toks, pos).1;
            &&& forall|j: int| pos <= j < p ==> depth_delta(toks, pos, j) >= 0
            &&& ((p == toks.len() && depth_delta(toks, pos, p) >= 0) || (pos < p && depth_delta(
                toks,
                pos,
                p,
            ) == -1))
        }),
    decreases toks.len() - pos,
{
    lemma_spec_parse_bounds(toks, pos);
    if pos < toks.len() {
        let c = toks[pos];
        let p = spec_parse(toks, pos).1;
        if c == '[' {
            lemma_spec_parse_bounds(toks, pos + 1);
            lemma_parse_stop(toks, pos + 1);
            let body = spec_parse(toks, pos + 1);
            let p1 = clamp_pos(body.1, pos + 1, toks.len() as int);
            assert(p1 == body.1);
            lemma_counts_one(toks, pos);
            assert(depth_delta(toks, pos, pos + 1) == 1);
            if body.1 == toks.len() && depth_delta(toks, pos + 1, body.1) >= 0 {
                assert(spec_parse(toks, p1).1 == p1);
                assert(p == toks.len());
                assert forall|j: int| pos <= j < p implies depth_delta(toks, pos, j) >= 0 by {
                    if j > pos {
                        lemma_count_split(toks, pos, pos + 1, j);
                        assert(depth_delta(toks, pos + 1, j) >= 0);
                        assert(depth_delta(toks, pos, j) == depth_delta(toks, pos, pos + 1)
                            + depth_delta(toks, pos + 1, j));
                    }
                }
                lemma_count_split(toks, pos, pos + 1, p);
                assert(depth_delta(toks, pos + 1, p) >= 0);
            } else {
                assert(depth_delta(toks, pos + 1, p1) == -1);
                lemma_count_split(toks, pos, pos + 1, p1);
                assert(depth_delta(toks, pos, p1) == 0);
                lemma_spec_parse_bounds(toks, p1);
                lemma_parse_stop(toks, p1);
                let rest = spec_parse(toks, p1);
                assert(p == rest.1);
                assert forall|j: int| pos <= j < p implies depth_delta(toks, pos, j) >= 0 by {
                    if pos < j && j < p1 {
                        lemma_count_split(toks, pos, pos + 1, j);
                        assert(depth_delta(toks, pos + 1, j) >= 0);
                        assert(depth_delta(toks, pos, j) == depth_delta(toks, pos, pos + 1)
                            + depth_delta(toks, pos + 1, j));
                    }
                    if p1 <= j {
                        lemma_count_split(toks, pos, p1, j);
                        assert(depth_delta(toks, p1, j) >= 0);
                        assert(depth_delta(toks, pos, j) == depth_delta(toks, pos, p1)
                            + depth_delta(toks, p1, j));
                    }
                }
                lemma_count_split(toks, pos, p1, p);
                assert(depth_delta(toks, p1, p) == -1 || (p == toks.len() && depth_delta(
                    toks,
                    p1,
                    p,
                ) >= 0));
            }
        } else if c == ']' {
            lemma_counts_one(toks, pos);
            assert(depth_delta(toks, pos, pos) == 0);
            assert(depth_delta(toks, pos, pos + 1) == -1);
        } else {
            lemma_parse_stop(toks, pos + 1);
            lemma_spec_parse_bounds(toks, pos + 1);
            lemma_counts_one(toks, pos);
            assert(depth_delta(toks, pos, pos + 1) == 0);
            assert forall|j: int| pos <= j < p implies depth_delta(toks, pos, j) >= 0 by {
                if j > pos {
                    lemma_count_split(toks, pos, pos + 1, j);
                    assert(depth_delta(toks, pos + 1, j) >= 0);
                    assert(depth_delta(toks, pos, j) == depth_delta(toks, pos, pos + 1)
                        + depth_delta(toks, pos + 1, j));
                }
            }
            lemma_count_split(toks, pos, pos + 1, p);
            assert(depth_delta(toks, pos, p) == depth_delta(toks, pos, pos + 1) + depth_delta(
                toks,
                pos + 1,
                p,
            ));
        }
    }
}

/// Well-formed nesting: no prefix of the text closes more brackets
/// than it opened, and at the end every opened bracket is closed.
pub open spec fn balanced(toks: Seq<char>) -> bool {
    &&& forall|j: int| 0 <= j <= toks.len() ==> depth_delta(toks, 0, j) >= 0
    &&& depth_delta(toks, 0, toks.len() as int) == 0
}

/// Balanced-loop law: on well-nested token text the parser consumes
/// every token, and the tree holds exactly one `Brackets` node for
/// each `[` token — equally, one for each `]` token.
pub proof fn lemma_balanced_loop_count(toks: Seq<char>)
    requires
        balanced(toks),
    ensures
        spec_parse(toks, 0).1 == toks.len(),
        loop_count_seq(spec_parse(toks, 0).0) == count_opens(toks, 0, toks.len() as int),
        count_opens(toks, 0, toks.len() as int) == count_closes(toks, 0, toks.len() as int),
{
    lemma_spec_parse_bounds(toks, 0);
    lemma_parse_stop(toks, 0);
    let p = spec_parse(toks, 0).1;
    assert(depth_delta(toks, 0, p) >= 0);
    assert(p == toks.len());
    lemma_parse_loop_count(toks, 0);
}

} // verus!
