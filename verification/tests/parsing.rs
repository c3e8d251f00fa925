use snowlang::ast::LanguageNode;
use snowlang::ast::optimise;
use snowlang::parser::ParseResult;
use snowlang::parser::TokenStream;
use snowlang::parser::parse;
use snowlang::parser::parse_next;
use snowlang::printer::print_tokens;

fn stream(text: &str) -> TokenStream {
    TokenStream::new(text.chars().collect())
}

fn parse_text(text: &str) -> LanguageNode {
    let mut strs = stream(text);
    parse(&mut strs)
}

#[test]
fn parse_primitives_in_order() {
    let tree = parse_text("><+-,.");
    let expected = LanguageNode::Many(vec![
        LanguageNode::IncrementPointer,
        LanguageNode::DecrementPointer,
        LanguageNode::IncrementCounter,
        LanguageNode::DecrementCounter,
        LanguageNode::ReadFromStd,
        LanguageNode::WriteToStd,
    ]);
    assert_eq!(tree, expected);
}

#[test]
fn parse_empty_program_is_empty_sequence() {
    assert_eq!(parse_text(""), LanguageNode::Many(vec![]));
}

#[test]
fn parse_loop_nests_to_matching_depth() {
    let tree = parse_text("[[]]");
    let inner = LanguageNode::Brackets(Box::new(LanguageNode::Many(vec![])));
    let outer = LanguageNode::Brackets(Box::new(LanguageNode::Many(vec![inner])));
    assert_eq!(tree, LanguageNode::Many(vec![outer]));
}

#[test]
fn parse_loop_with_body() {
    let tree = parse_text("+[-]");
    let body = LanguageNode::Many(vec![LanguageNode::DecrementCounter]);
    let expected = LanguageNode::Many(vec![
        LanguageNode::IncrementCounter,
        LanguageNode::Brackets(Box::new(body)),
    ]);
    assert_eq!(tree, expected);
}

#[test]
fn stray_close_truncates_rest() {
    // A stray `]` acts as end of input for the outer scope: the
    // trailing `+` never reaches the tree.
    let tree = parse_text("]+");
    assert_eq!(tree, LanguageNode::Many(vec![]));
}

#[test]
fn stray_close_consumes_one_token() {
    let mut strs = stream("]+");
    let _ = parse(&mut strs);
    assert_eq!(strs.pos, 1);
}

#[test]
fn unmatched_open_swallows_rest() {
    let tree = parse_text("[+");
    let body = LanguageNode::Many(vec![LanguageNode::IncrementCounter]);
    assert_eq!(
        tree,
        LanguageNode::Many(vec![LanguageNode::Brackets(Box::new(body))])
    );
}

#[test]
fn unrecognized_token_contributes_no_node() {
    assert_eq!(parse_text("+z+"), parse_text("++"));
    assert_eq!(parse_text("z"), parse_text(""));
    assert_eq!(parse_text("+[z-]"), parse_text("+[-]"));
}

#[test]
fn parse_next_classifies_one_token() {
    let mut strs = stream("+");
    assert!(matches!(
        parse_next(&mut strs),
        ParseResult::Node(LanguageNode::IncrementCounter)
    ));
    assert!(matches!(parse_next(&mut strs), ParseResult::Eof));
}

#[test]
fn parse_next_discards_commentary() {
    let mut strs = stream("z");
    assert!(matches!(parse_next(&mut strs), ParseResult::Nop));
}

#[test]
fn parse_next_takes_whole_loop() {
    let mut strs = stream("[+]-");
    let r = parse_next(&mut strs);
    let body = LanguageNode::Many(vec![LanguageNode::IncrementCounter]);
    match r {
        ParseResult::Node(n) => assert_eq!(n, LanguageNode::Brackets(Box::new(body))),
        _ => panic!("expected a node"),
    }
    assert_eq!(strs.pos, 3);
}

#[test]
fn print_then_parse_is_identity() {
    let tree = parse_text("+[->+<]z.[[-],]");
    let printed = print_tokens(&tree);
    let mut strs = TokenStream::new(printed);
    let reparsed = parse(&mut strs);
    assert_eq!(tree, reparsed);
}

#[test]
fn print_tokens_restores_recognized_text() {
    let tree = parse_text("a+[-].b");
    let printed: String = print_tokens(&tree).into_iter().collect();
    assert_eq!(printed, "+[-].");
}

#[test]
fn optimise_declines_every_tree() {
    assert!(optimise(parse_text("+[->+<].")).is_none());
    assert!(optimise(LanguageNode::IncrementCounter).is_none());
    assert!(optimise(LanguageNode::Brackets(Box::new(LanguageNode::Many(vec![])))).is_none());
}
