//! Printer from a program tree back to token text, and the round-trip
//! law relating it to the parser.

use vstd::prelude::*;
use crate::ast::LanguageNode;
use crate::ast::NodeView;
use crate::ast::node_size;
use crate::ast::seq_size;
use crate::parser::is_op_char;
use crate::parser::leaf_of;
use crate::parser::spec_parse;
use crate::parser::clamp_pos;
use crate::parser::lemma_spec_parse_bounds;
use crate::parser::balanced;
use crate::parser::depth_delta;
use crate::parser::lemma_count_split;
use crate::parser::lemma_counts_one;
use crate::parser::lemma_parse_stop;

verus! {

/// The character that prints a primitive-operation leaf.
pub open spec fn leaf_char(n: NodeView) -> char {
    match n {
        NodeView::IncrementPointer => '>',
        NodeView::DecrementPointer => '<',
        NodeView::IncrementCounter => '+',
        NodeView::DecrementCounter => '-',
        NodeView::ReadFromStd => ',',
        NodeView::WriteToStd => '.',
        _ => ' ',
    }
}

/// The token text that prints one tree.
pub open spec fn spec_print(n: NodeView) -> Seq<char>
    decreases n,
{
    match n {
        NodeView::Brackets(body) => seq!['['] + spec_print(*body) + seq![']'],
        NodeView::Many(items) => spec_print_seq(items),
        _ => seq![leaf_char(n)],
    }
}

/// The token text that prints an ordered list of trees.
pub open spec fn spec_print_seq(items: Seq<NodeView>) -> Seq<char>
    decreases items,
{
    if items.len() == 0 {
        Seq::<char>::empty()
    } else {
        spec_print(items[0]) + spec_print_seq(items.subrange(1, items.len() as int))
    }
}

/// Is this tree one the parser can put into a scope?  Leaves qualify;
/// a loop qualifies when its body is a scope of such trees; a bare
/// `Many` never stands inside another scope.
pub open spec fn parsed_item(n: NodeView) -> bool
    decreases n,
{
    match n {
        NodeView::Brackets(body) => match *body {
            NodeView::Many(items) => parsed_items(items),
            _ => false,
        },
        NodeView::Many(_) => false,
        _ => true,
    }
}

/// Are these trees, in order, ones the parser can put into one scope?
pub open spec fn parsed_items(items: Seq<NodeView>) -> bool
    decreases items,
{
    if items.len() == 0 {
        true
    } else {
        parsed_item(items[0]) && parsed_items(items.subrange(1, items.len() as int))
    }
}

/// Print one tree as a vector of tokens.
#[verifier::loop_isolation(false)]
pub fn print_tokens(n: &LanguageNode) -> (out: Vec<char>)
    ensures
        out@ == spec_print(n.deep_view()),
    decreases *n,
{
    let mut out: Vec<char> = Vec::new();
    match n {
        LanguageNode::IncrementPointer => {
            out.push('>');
        },
        LanguageNode::DecrementPointer => {
            out.push('<');
        },
        LanguageNode::IncrementCounter => {
            out.push('+');
        },
        LanguageNode::DecrementCounter => {
            out.push('-');
        },
        LanguageNode::ReadFromStd => {
            out.push(',');
        },
        LanguageNode::WriteToStd => {
            out.push('.');
        },
        LanguageNode::Brackets(body) => {
            out.push('[');
            let mut inner = print_tokens(&**body);
            out.append(&mut inner);
            out.push(']');
            proof {
                assert(out@ =~= spec_print(n.deep_view()));
            }
        },
        LanguageNode::Many(items) => {
            let ghost iv = crate::ast::deep_view_seq(items@);
            proof {
                crate::ast::lemma_deep_view_seq_index(items@);
                assert(iv.subrange(0, 0) =~= Seq::<NodeView>::empty());
            }
            let mut i: usize = 0;
            while i < items.len()
                invariant
                    i <= items@.len(),
                    iv == crate::ast::deep_view_seq(items@),
                    iv.len() == items@.len(),
                    out@ == spec_print_seq(iv.subrange(0, i as int)),
                decreases items@.len() - i,
            {
                let mut piece = print_tokens(&items[i]);
                out.append(&mut piece);
                proof {
                    crate::ast::lemma_deep_view_seq_index(items@);
                    lemma_spec_print_seq_push(iv.subrange(0, i as int), iv[i as int]);
                    assert(iv.subrange(0, i as int).push(iv[i as int]) =~= iv.subrange(
                        0,
                        i as int + 1,
                    ));
                }
                i = i + 1;
            }
            proof {
                assert(iv.subrange(0, iv.len() as int) =~= iv);
            }
        },
    }
    out
}

/// Each primitive leaf prints as one operation character, which parses
/// back to the same leaf.
proof fn lemma_leaf_roundtrip(n: NodeView)
    requires
        parsed_item(n),
        !(n is Brackets),
    ensures
        spec_print(n) == seq![leaf_char(n)],
        is_op_char(leaf_char(n)),
        leaf_of(leaf_char(n)) == n,
{
    match n {
        NodeView::IncrementPointer => {},
        NodeView::DecrementPointer => {},
        NodeView::IncrementCounter => {},
        NodeView::DecrementCounter => {},
        NodeView::ReadFromStd => {},
        NodeView::WriteToStd => {},
        _ => {},
    }
}

/// Everything the parser produces is in parsed form: a scope of leaves
/// and of loops whose bodies are again such scopes.
pub proof fn lemma_parse_output_parsed(toks: Seq<char>, pos: int)
    requires
        0 <= pos <= toks.len(),
    ensures
        parsed_items(spec_parse(toks, pos).0),
    decreases toks.len() - pos,
{
    if pos < toks.len() {
        let c = toks[pos];
        if c == '[' {
            lemma_spec_parse_bounds(toks, pos + 1);
            lemma_parse_output_parsed(toks, pos + 1);
            let p1 = clamp_pos(spec_parse(toks, pos + 1).1, pos + 1, toks.len() as int);
            lemma_parse_output_parsed(toks, p1);
            let items = spec_parse(toks, pos).0;
            assert(items[0] == NodeView::Brackets(
                Box::new(NodeView::Many(spec_parse(toks, pos + 1).0)),
            ));
            assert(parsed_item(items[0]));
            assert(items.subrange(1, items.len() as int) =~= spec_parse(toks, p1).0);
        } else if c == ']' {
        } else if is_op_char(c) {
            lemma_parse_output_parsed(toks, pos + 1);
            let items = spec_parse(toks, pos).0;
            assert(items[0] == leaf_of(c));
            assert(parsed_item(items[0]));
            assert(items.subrange(1, items.len() as int) =~= spec_parse(toks, pos + 1).0);
        } else {
            lemma_parse_output_parsed(toks, pos + 1);
        }
    }
}

/// Parsing printed text: from `pos`, text that prints `items` followed
/// by a closing `]` or by the end of the stream parses back to exactly
/// `items`, consuming the whole region, close included.
pub proof fn lemma_print_then_parse(toks: Seq<char>, pos: int, items: Seq<NodeView>)
    requires
        parsed_items(items),
        0 <= pos,
        pos + spec_print_seq(items).len() <= toks.len(),
        toks.subrange(pos, pos + spec_print_seq(items).len()) == spec_print_seq(items),
        pos + spec_print_seq(items).len() == toks.len() || toks[pos + spec_print_seq(
            items,
        ).len()] == ']',
    ensures
        spec_parse(toks, pos).0 == items,
        spec_parse(toks, pos).1 == if pos + spec_print_seq(items).len() == toks.len() {
            toks.len() as int
        } else {
            pos + spec_print_seq(items).len() + 1
        },
    decreases seq_size(items), items.len(),
{
    let whole = spec_print_seq(items);
    let plen = whole.len() as int;
    assert forall|j: int| 0 <= j < plen implies toks[pos + j] == whole[j] by {
        assert(toks.subrange(pos, pos + plen)[j] == toks[pos + j]);
    }
    if items.len() == 0 {
        assert(spec_parse(toks, pos).0 =~= items);
    } else {
        let head = items[0];
        let rest = items.subrange(1, items.len() as int);
        let ph = spec_print(head);
        let pr = spec_print_seq(rest);
        match head {
            NodeView::Brackets(bx) => {
                match *bx {
                    NodeView::Many(body) => {
                        let pb = spec_print_seq(body);
                        assert(head == NodeView::Brackets(bx));
                        assert(spec_print(*bx) == pb);
                        assert(ph == seq!['['] + pb + seq![']']);
                        assert(whole == ph + pr);
                        assert(whole[0] == ph[0]);
                        assert(ph[0] == '[');
                        assert(toks[pos] == '[');
                        assert forall|j: int| 0 <= j < pb.len() implies toks[pos + 1 + j]
                            == pb[j] by {
                            assert(whole[1 + j] == ph[1 + j]);
                            assert(ph[1 + j] == pb[j]);
                        }
                        assert(toks.subrange(pos + 1, pos + 1 + pb.len()) =~= pb);
                        let k = 1 + pb.len() as int;
                        assert(whole[k] == ph[k]);
                        assert(ph[k] == ']');
                        assert(toks[pos + k] == whole[k]);
                        assert(items[0] == head);
                        assert(node_size(head) == 1 + node_size(*bx));
                        assert(node_size(*bx) == 1 + seq_size(body));
                        assert(seq_size(items) == node_size(items[0]) + seq_size(rest));
                        assert(parsed_item(head));
                        assert(parsed_items(body));
                        lemma_print_then_parse(toks, pos + 1, body);
                        lemma_spec_parse_bounds(toks, pos + 1);
                        let p1 = spec_parse(toks, pos + 1).1;
                        assert(p1 == pos + 2 + pb.len());
                        assert(clamp_pos(p1, pos + 1, toks.len() as int) == p1);
                        assert forall|j: int| 0 <= j < pr.len() implies toks[p1 + j]
                            == pr[j] by {
                            assert(whole[2 + pb.len() + j] == pr[j]);
                        }
                        assert(toks.subrange(p1, p1 + pr.len()) =~= pr);
                        assert(p1 + pr.len() == pos + plen);
                        lemma_print_then_parse(toks, p1, rest);
                        assert(Box::new(NodeView::Many(body)) == bx);
                        assert(spec_parse(toks, pos).0 =~= items);
                    },
                    _ => {
                        assert(items[0] == head);
                        assert(parsed_item(head));
                        assert(false);
                    },
                }
            },
            _ => {
                assert(items[0] == head);
                assert(parsed_item(head));
                lemma_leaf_roundtrip(head);
                assert(whole == ph + pr);
                assert(ph == seq![leaf_char(head)]);
                assert(whole[0] == ph[0]);
                assert(toks[pos + 0] == whole[0]);
                assert(toks[pos] == leaf_char(head));
                assert forall|j: int| 0 <= j < pr.len() implies toks[pos + 1 + j] == pr[j] by {
                    assert(whole[1 + j] == pr[j]);
                }
                assert(toks.subrange(pos + 1, pos + 1 + pr.len()) =~= pr);
                assert(pos + 1 + pr.len() == pos + plen);
                lemma_print_then_parse(toks, pos + 1, rest);
                assert(spec_parse(toks, pos).0 =~= items);
            },
        }
    }
}

/// Round-trip law: printing a tree in parsed form and re-parsing the
/// printed tokens yields a structurally identical tree, with every
/// printed token consumed.
pub proof fn lemma_parse_print_round_trip(items: Seq<NodeView>)
    requires
        parsed_items(items),
    ensures
        spec_parse(spec_print_seq(items), 0).0 == items,
        spec_parse(spec_print_seq(items), 0).1 == spec_print_seq(items).len(),
{
    let p = spec_print_seq(items);
    assert(p.subrange(0, p.len() as int) =~= p);
    lemma_print_then_parse(p, 0, items);
}

/// Printing a list with one more tree appends that tree's text.
pub proof fn lemma_spec_print_seq_push(items: Seq<NodeView>, x: NodeView)
    ensures
        spec_print_seq(items.push(x)) == spec_print_seq(items) + spec_print(x),
    decreases items,
{
    if items.len() == 0 {
        assert(items.push(x).subrange(1, 1) =~= Seq::<NodeView>::empty());
        assert(spec_print_seq(items.push(x).subrange(1, 1)) =~= Seq::<char>::empty());
        assert(items =~= Seq::<NodeView>::empty());
        assert(spec_print_seq(items) =~= Seq::<char>::empty());
        assert(items.push(x)[0] == x);
        assert(spec_print_seq(items.push(x)) =~= spec_print_seq(items) + spec_print(x));
    } else {
        let tail = items.subrange(1, items.len() as int);
        assert(items.push(x).subrange(1, items.len() as int + 1) =~= tail.push(x));
        lemma_spec_print_seq_push(tail, x);
        assert(spec_print_seq(items.push(x)) =~= spec_print_seq(items) + spec_print(x));
    }
}

/// Is this character one of the eight recognized tokens?
pub open spec fn is_recognized(c: char) -> bool {
    is_op_char(c) || c == '[' || c == ']'
}

/// The recognized tokens of `toks[from..to)`, in order.
pub open spec fn filter_region(toks: Seq<char>, from: int, to: int) -> Seq<char>
    decreases to - from,
{
    if from >= to {
        Seq::<char>::empty()
    } else {
        (if is_recognized(toks[from]) {
            seq![toks[from]]
        } else {
            Seq::<char>::empty()
        }) + filter_region(toks, from + 1, to)
    }
}

/// The recognized tokens of a one-token region.
proof fn lemma_filter_one(toks: Seq<char>, pos: int)
    requires
        0 <= pos < toks.len(),
    ensures
        filter_region(toks, pos, pos + 1) == if is_recognized(toks[pos]) {
            seq![toks[pos]]
        } else {
            Seq::<char>::empty()
        },
{
    assert(filter_region(toks, pos + 1, pos + 1) =~= Seq::<char>::empty());
    assert(filter_region(toks, pos, pos + 1) =~= (if is_recognized(toks[pos]) {
        seq![toks[pos]]
    } else {
        Seq::<char>::empty()
    }));
}

/// Filtering adjacent regions concatenates.
proof fn lemma_filter_split(toks: Seq<char>, a: int, b: int, c: int)
    requires
        a <= b <= c,
    ensures
        filter_region(toks, a, c) == filter_region(toks, a, b) + filter_region(toks, b, c),
    decreases b - a,
{
    if a >= b {
        assert(filter_region(toks, a, b) =~= Seq::<char>::empty());
        assert(filter_region(toks, a, c) =~= filter_region(toks, a, b) + filter_region(toks, b, c));
    } else {
        lemma_filter_split(toks, a + 1, b, c);
        assert(filter_region(toks, a, c) =~= filter_region(toks, a, b) + filter_region(toks, b, c));
    }
}

/// Printing the trees parsed from a region yields the region's
/// recognized tokens, provided the region does not leave an open
/// bracket behind: without the terminating `]` when the scope was
/// closed by one, with nothing missing when the stream just ended.
proof fn lemma_parse_print_filter(toks: Seq<char>, pos: int)
    requires
        0 <= pos <= toks.len(),
        depth_delta(toks, pos, spec_parse(toks, pos).1) <= 0,
    ensures
        ({
            let r = spec_parse(toks, pos);
            if depth_delta(toks, pos, r.1) == -1 {
                spec_print_seq(r.0).push(']') == filter_region(toks, pos, r.1)
            } else {
                spec_print_seq(r.0) == filter_region(toks, pos, r.1)
            }
        }),
    decreases toks.len() - pos,
{
    lemma_spec_parse_bounds(toks, pos);
    lemma_parse_stop(toks, pos);
    let r = spec_parse(toks, pos);
    let items = r.0;
    let p = r.1;
    if pos >= toks.len() {
        assert(filter_region(toks, pos, p) =~= Seq::<char>::empty());
        assert(spec_print_seq(items) =~= Seq::<char>::empty());
    } else {
        let c = toks[pos];
        lemma_counts_one(toks, pos);
        lemma_filter_one(toks, pos);
        if c == ']' {
            assert(depth_delta(toks, pos, p) == -1);
            assert(spec_print_seq(items) =~= Seq::<char>::empty());
            assert(spec_print_seq(items).push(']') =~= filter_region(toks, pos, p));
        } else if c == '[' {
            lemma_spec_parse_bounds(toks, pos + 1);
            lemma_parse_stop(toks, pos + 1);
            let body = spec_parse(toks, pos + 1);
            let p1 = clamp_pos(body.1, pos + 1, toks.len() as int);
            assert(p1 == body.1);
            lemma_count_split(toks, pos, pos + 1, p1);
            if body.1 == toks.len() && depth_delta(toks, pos + 1, body.1) >= 0 {
                // an open bracket the region never closes: excluded by
                // the hypothesis on the region's depth
                assert(spec_parse(toks, p1).1 == p1);
                assert(p == toks.len());
                assert(depth_delta(toks, pos, p) >= 1);
                assert(false);
            } else {
                assert(depth_delta(toks, pos + 1, p1) == -1);
                lemma_parse_print_filter(toks, pos + 1);
                lemma_spec_parse_bounds(toks, p1);
                lemma_parse_stop(toks, p1);
                lemma_count_split(toks, pos, p1, p);
                assert(depth_delta(toks, pos, p1) == 0);
                assert(depth_delta(toks, p1, p) == depth_delta(toks, pos, p));
                lemma_parse_print_filter(toks, p1);
                let rest = spec_parse(toks, p1);
                lemma_filter_split(toks, pos, pos + 1, p1);
                lemma_filter_split(toks, pos, p1, p);
                assert(items[0] == NodeView::Brackets(Box::new(NodeView::Many(body.0))));
                assert(items.subrange(1, items.len() as int) =~= rest.0);
                assert(spec_print(NodeView::Many(body.0)) == spec_print_seq(body.0));
                assert(spec_print(items[0]) == seq!['['] + spec_print_seq(body.0) + seq![']']);
                assert(spec_print_seq(items) == spec_print(items[0]) + spec_print_seq(rest.0));
                assert(filter_region(toks, pos, pos + 1) =~= seq!['[']);
                assert(spec_print_seq(body.0).push(']') == filter_region(toks, pos + 1, p1));
                if depth_delta(toks, pos, p) == -1 {
                    assert(spec_print_seq(rest.0).push(']') == filter_region(toks, p1, p));
                    assert(spec_print_seq(items).push(']') =~= filter_region(toks, pos, p));
                } else {
                    assert(spec_print_seq(rest.0) == filter_region(toks, p1, p));
                    assert(spec_print_seq(items) =~= filter_region(toks, pos, p));
                }
            }
        } else {
            lemma_spec_parse_bounds(toks, pos + 1);
            let rest = spec_parse(toks, pos + 1);
            lemma_count_split(toks, pos, pos + 1, p);
            assert(depth_delta(toks, pos + 1, p) == depth_delta(toks, pos, p));
            lemma_parse_print_filter(toks, pos + 1);
            lemma_filter_split(toks, pos, pos + 1, p);
            if is_op_char(c) {
                assert(items[0] == leaf_of(c));
                assert(items.subrange(1, items.len() as int) =~= rest.0);
                assert(spec_print_seq(items) == spec_print(items[0]) + spec_print_seq(rest.0));
                assert(leaf_char(leaf_of(c)) == c);
                assert(spec_print(items[0]) == seq![c]);
                assert(filter_region(toks, pos, pos + 1) =~= seq![c]);
                if depth_delta(toks, pos, p) == -1 {
                    assert(spec_print_seq(items).push(']') =~= filter_region(toks, pos, p));
                } else {
                    assert(spec_print_seq(items) =~= filter_region(toks, pos, p));
                }
            } else {
                assert(filter_region(toks, pos, pos + 1) =~= Seq::<char>::empty());
                if depth_delta(toks, pos, p) == -1 {
                    assert(spec_print_seq(items).push(']') =~= filter_region(toks, pos, p));
                } else {
                    assert(spec_print_seq(items) =~= filter_region(toks, pos, p));
                }
            }
        }
    }
}

/// Matching-depth law: on well-nested token text, printing the parse
/// tree reproduces exactly the recognized tokens of the text, brackets
/// included and in place — the tree nests its loops precisely as the
/// bracket pairs of the text do.
pub proof fn lemma_balanced_print_filter(toks: Seq<char>)
    requires
        balanced(toks),
    ensures
        spec_print_seq(spec_parse(toks, 0).0) == filter_region(toks, 0, toks.len() as int),
{
    lemma_spec_parse_bounds(toks, 0);
    lemma_parse_stop(toks, 0);
    let p = spec_parse(toks, 0).1;
    assert(depth_delta(toks, 0, p) >= 0);
    assert(p == toks.len());
    assert(depth_delta(toks, 0, p) == 0);
    lemma_parse_print_filter(toks, 0);
}

} // verus!
