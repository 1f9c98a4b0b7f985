use ra_fmt::block::Block;
use ra_fmt::edit_tree::EditTree;
use ra_fmt::syntax::{SyntaxElement, TextRange, WHITESPACE};
use ra_fmt::whitespace::{Indentation, Whitespace};

const IDENT: u16 = 10;
const PUNCT: u16 = 11;
const NODE: u16 = 20;
const FILE: u16 = 21;

fn tok(kind: u16, start: u32, text: &str) -> SyntaxElement {
    SyntaxElement::Token {
        kind,
        range: TextRange::new(start, start + text.len() as u32),
        text: text.to_string(),
    }
}

fn node(kind: u16, start: u32, end: u32, children: Vec<SyntaxElement>) -> SyntaxElement {
    SyntaxElement::Node { kind, range: TextRange::new(start, end), children }
}

/// A file of the given tokens, each following the other with no gap.
fn flat_file(texts: &[&str]) -> SyntaxElement {
    let mut children = Vec::new();
    let mut at = 0u32;
    for t in texts {
        children.push(tok(IDENT, at, t));
        at += t.len() as u32;
    }
    node(FILE, 0, at, children)
}

fn ws(leading: u32, trailing: u32, lead_nl: bool, trail_nl: bool) -> Whitespace {
    Whitespace { locations: (leading, trailing), new_line: (lead_nl, trail_nl) }
}

fn token_texts(tree: &EditTree) -> Vec<String> {
    let mut t = tree.walk_tokens();
    let mut out = Vec::new();
    while let Some(b) = t.next() {
        out.push(b.as_str().to_string());
    }
    out
}

#[test]
fn single_token_renders_as_itself() {
    let file = flat_file(&["x"]);
    let tree = EditTree::new(&file);
    assert_eq!(tree.apply_edits(), "x");
}

#[test]
fn empty_tree_renders_empty() {
    let file = node(FILE, 0, 0, vec![]);
    let tree = EditTree::new(&file);
    assert_eq!(tree.apply_edits(), "");
    assert!(tree.last_token().is_none());
}

#[test]
fn one_space_between_two_tokens() {
    let file = flat_file(&["a", "b"]);
    let mut tree = EditTree::new(&file);
    tree.root.children[0].set_spacing(ws(0, 1, false, false));
    tree.root.children[1].set_spacing(ws(1, 0, false, false));
    assert_eq!(tree.apply_edits(), "a b");
}

#[test]
fn forced_newline_with_indentation() {
    let file = flat_file(&["{", "}"]);
    let mut tree = EditTree::new(&file);
    tree.root.children[0].set_spacing(ws(0, 0, false, true));
    tree.root.children[1].set_spacing(ws(0, 0, true, false));
    tree.root.children[1].set_indent(Indentation { depth: 1, unit: 2 });
    assert_eq!(tree.apply_edits(), "{\n  }");
}

#[test]
fn trailing_newline_alone_uses_next_indentation() {
    let file = flat_file(&["{", "}"]);
    let mut tree = EditTree::new(&file);
    tree.root.children[0].set_spacing(ws(0, 0, false, true));
    tree.root.children[1].set_indent(Indentation { depth: 2, unit: 3 });
    assert_eq!(tree.apply_edits(), "{\n      }");
}

#[test]
fn trailing_spaces_emitted_once() {
    let file = flat_file(&["a", "b"]);
    let mut tree = EditTree::new(&file);
    tree.root.children[0].set_spacing(ws(0, 2, false, false));
    tree.root.children[1].set_spacing(ws(0, 0, false, false));
    assert_eq!(tree.apply_edits(), "a  b");
}

#[test]
fn leading_spaces_win_over_trailing_spaces() {
    let file = flat_file(&["a", "b"]);
    let mut tree = EditTree::new(&file);
    tree.root.children[0].set_spacing(ws(0, 2, false, false));
    tree.root.children[1].set_spacing(ws(3, 0, false, false));
    assert_eq!(tree.apply_edits(), "a   b");
}

#[test]
fn trailing_spaces_beat_leading_newline() {
    let file = flat_file(&["a", "b"]);
    let mut tree = EditTree::new(&file);
    tree.root.children[0].set_spacing(ws(0, 1, false, false));
    tree.root.children[1].set_spacing(ws(0, 0, true, false));
    assert_eq!(tree.apply_edits(), "a b");
}

#[test]
fn first_and_last_token_use_their_own_requests() {
    let file = flat_file(&["a"]);
    let mut tree = EditTree::new(&file);
    tree.root.children[0].set_spacing(ws(2, 1, false, false));
    assert_eq!(tree.apply_edits(), "  a ");
    tree.root.children[0].set_spacing(ws(0, 5, true, true));
    assert_eq!(tree.apply_edits(), "\na\n");
}

#[test]
fn whitespace_tokens_get_no_block() {
    let file = node(
        FILE,
        0,
        5,
        vec![tok(IDENT, 0, "a"), tok(WHITESPACE, 1, "   "), tok(IDENT, 4, "b")],
    );
    let tree = EditTree::new(&file);
    assert_eq!(tree.root().children().len(), 2);
    assert_eq!(token_texts(&tree), vec!["a", "b"]);
    assert_eq!(tree.text(), "a   b");
    assert_eq!(tree.apply_edits(), "ab");
}

/// `fn f ( ) { }` as a file holding one function node with a nested
/// parameter list node and block node.
fn nested_file() -> SyntaxElement {
    let params = node(NODE, 4, 6, vec![tok(PUNCT, 4, "("), tok(PUNCT, 5, ")")]);
    let body = node(NODE, 7, 9, vec![tok(PUNCT, 7, "{"), tok(PUNCT, 8, "}")]);
    let func = node(
        NODE,
        0,
        9,
        vec![
            tok(IDENT, 0, "fn"),
            tok(WHITESPACE, 2, " "),
            tok(IDENT, 3, "f"),
            params,
            tok(WHITESPACE, 6, " "),
            body,
        ],
    );
    node(FILE, 0, 9, vec![func])
}

fn starts(t: &mut ra_fmt::block::Traversal) -> Vec<(u32, bool)> {
    let mut out = Vec::new();
    while let Some(b) = t.next() {
        out.push((b.text_range().start, b.as_element().is_token()));
    }
    out
}

#[test]
fn traversals_share_one_order() {
    let file = nested_file();
    let tree = EditTree::new(&file);
    let all = starts(&mut tree.walk());
    assert_eq!(
        all,
        vec![
            (0, false),
            (0, false),
            (0, true),
            (3, true),
            (4, false),
            (4, true),
            (5, true),
            (7, false),
            (7, true),
            (8, true)
        ]
    );
    let exc = starts(&mut tree.walk_exc_root());
    assert_eq!(exc, all[1..].to_vec());
    let toks = starts(&mut tree.walk_tokens());
    let expect_toks: Vec<_> = all.iter().copied().filter(|p| p.1).collect();
    assert_eq!(toks, expect_toks);
    let nodes = starts(&mut tree.walk_nodes());
    let expect_nodes: Vec<_> = all.iter().copied().filter(|p| !p.1).collect();
    assert_eq!(nodes, expect_nodes);
}

#[test]
fn block_traversals_from_inner_block() {
    let file = nested_file();
    let tree = EditTree::new(&file);
    let func = &tree.root().children()[0];
    assert_eq!(starts(&mut func.traverse_inc()).len(), 9);
    assert_eq!(starts(&mut func.traverse_exc()).len(), 8);
    assert_eq!(starts(&mut func.traverse_tokens()).len(), 6);
    assert_eq!(starts(&mut func.traverse_nodes()).len(), 3);
    assert_eq!(func.kind(), NODE);
    assert_eq!(func.as_str(), "fn f() {}");
}

#[test]
fn nested_tree_keeps_every_token() {
    let file = nested_file();
    let tree = EditTree::new(&file);
    assert_eq!(token_texts(&tree), vec!["fn", "f", "(", ")", "{", "}"]);
    assert_eq!(tree.apply_edits(), "fnf(){}");
    assert_eq!(tree.text(), "fn f() {}");
    assert_eq!(tree.last_token().unwrap().as_str(), "}");
}

#[test]
fn formatting_again_gives_the_same_text() {
    let file = flat_file(&["let", "x", "=", "1", ";"]);
    let mut tree = EditTree::new(&file);
    for i in 0..4 {
        tree.root.children[i].set_spacing(ws(0, 1, false, false));
    }
    let once = tree.apply_edits();
    assert_eq!(once, "let x = 1 ;");
    // reparse: the same tokens, now with whitespace tokens between them
    let mut children = Vec::new();
    let mut at = 0u32;
    for (i, t) in ["let", "x", "=", "1", ";"].iter().enumerate() {
        if i > 0 {
            children.push(tok(WHITESPACE, at, " "));
            at += 1;
        }
        children.push(tok(IDENT, at, t));
        at += t.len() as u32;
    }
    let reparsed = node(FILE, 0, at, children);
    let mut again = EditTree::new(&reparsed);
    assert_eq!(again.text(), once);
    for i in 0..4 {
        again.root.children[i].set_spacing(ws(0, 1, false, false));
    }
    assert_eq!(again.apply_edits(), once);
}

#[test]
fn show_me_the_progress() {
    let rs_file = "pub(crate) struct Test{x: usize }";
    let pieces: [(&str, u16); 13] = [
        ("pub", IDENT),
        ("(", PUNCT),
        ("crate", IDENT),
        (")", PUNCT),
        (" ", WHITESPACE),
        ("struct", IDENT),
        (" ", WHITESPACE),
        ("Test", IDENT),
        ("{", PUNCT),
        ("x", IDENT),
        (":", PUNCT),
        (" ", WHITESPACE),
        ("usize", IDENT),
    ];
    let mut children = Vec::new();
    let mut at = 0u32;
    for (t, k) in pieces.iter() {
        children.push(tok(*k, at, t));
        at += t.len() as u32;
    }
    children.push(tok(WHITESPACE, at, " "));
    at += 1;
    children.push(tok(PUNCT, at, "}"));
    at += 1;
    let file = node(FILE, 0, at, children);
    let fmt = EditTree::new(&file);
    assert_eq!(fmt.text(), rs_file);
    let x = fmt.apply_edits();
    println!("{:#?}", x);
    assert_eq!(x, "pub(crate)structTest{x:usize}");
}

#[test]
fn block_accessors() {
    let file = flat_file(&["ab"]);
    let tree = EditTree::new(&file);
    let b: &Block = &tree.root().children()[0];
    assert_eq!(b.text_range(), TextRange::new(0, 2));
    assert_eq!(b.space_value(), (0, 0));
    assert_eq!(b.eol_value(), (false, false));
    assert_eq!(b.get_indent(), Indentation::new());
    assert_eq!(b.get_spacing().locations, Whitespace::new().locations);
}

use ra_fmt::spacing::SpaceValue;

#[test]
fn rule_one_space_between() {
    let file = flat_file(&["a", "b"]);
    let mut tree = EditTree::new(&file);
    tree.apply_spacing(&vec![Some(SpaceValue::Spaces(1))]);
    assert_eq!(tree.apply_edits(), "a b");
}

#[test]
fn no_rule_means_one_space() {
    let file = flat_file(&["a", "b", "c"]);
    let mut tree = EditTree::new(&file);
    tree.apply_spacing(&vec![None, Some(SpaceValue::NoSpace)]);
    assert_eq!(tree.apply_edits(), "a bc");
    assert_eq!(tree.root().children()[1].space_value(), (1, 0));
}

#[test]
fn rule_forced_newline_with_indentation() {
    let file = flat_file(&["{", "}"]);
    let mut tree = EditTree::new(&file);
    tree.root.children[1].set_indent(Indentation { depth: 1, unit: 2 });
    tree.apply_spacing(&vec![Some(SpaceValue::Newline)]);
    assert_eq!(tree.root().children()[0].eol_value(), (false, true));
    assert_eq!(tree.root().children()[1].eol_value(), (true, false));
    assert_eq!(tree.apply_edits(), "{\n  }");
}

#[test]
fn rules_reach_nested_tokens() {
    let file = nested_file();
    let mut tree = EditTree::new(&file);
    let n = tree.walk_tokens().blocks.len();
    assert_eq!(n, 6);
    let mut dirs = vec![Some(SpaceValue::Spaces(1)); n - 1];
    dirs[1] = Some(SpaceValue::NoSpace);
    dirs[2] = Some(SpaceValue::NoSpace);
    tree.apply_spacing(&dirs);
    assert_eq!(tree.apply_edits(), "fn f() { }");
    assert_eq!(tree.text(), "fn f() {}");
}

#[test]
fn blocks_compare_by_range_text_and_element() {
    let file = nested_file();
    let same = nested_file();
    let t1 = EditTree::new(&file);
    let t2 = EditTree::new(&same);
    assert!(t1.root() == t2.root());
    let kids = &t1.root().children()[0].children;
    assert!(kids[0] != kids[1]);
    assert!(kids[0] < kids[1]);
    assert!(kids[2] > kids[1]);
    let other = flat_file(&["fn f() {}"]);
    let t3 = EditTree::new(&other);
    assert!(t1.root() != t3.root());
    assert_eq!(t1.root().partial_cmp(t3.root()), Some(std::cmp::Ordering::Equal));
}

#[test]
fn trailing_newline_replaces_leading_spaces() {
    let file = flat_file(&["a", "b"]);
    let mut tree = EditTree::new(&file);
    tree.root.children[0].set_spacing(ws(0, 0, false, true));
    tree.root.children[1].set_spacing(ws(2, 0, false, false));
    tree.root.children[1].set_indent(Indentation { depth: 1, unit: 1 });
    assert_eq!(tree.apply_edits(), "a\n b");
}

#[test]
fn stripping_separators_gives_the_tokens_back() {
    let file = nested_file();
    let mut tree = EditTree::new(&file);
    let dirs = vec![
        Some(SpaceValue::Spaces(3)),
        None,
        Some(SpaceValue::Newline),
        Some(SpaceValue::NoSpace),
        Some(SpaceValue::Newline),
    ];
    tree.apply_spacing(&dirs);
    let out = tree.apply_edits();
    assert_eq!(out, "fn   f (\n){\n}");
    let stripped: String = out.chars().filter(|c| *c != ' ' && *c != '\n').collect();
    assert_eq!(stripped, token_texts(&tree).concat());
}

#[test]
fn traversal_moves_on_past_the_end() {
    let file = flat_file(&["a"]);
    let tree = EditTree::new(&file);
    let mut t = tree.walk_tokens();
    assert_eq!(t.next().unwrap().as_str(), "a");
    assert_eq!(t.idx, 1);
    assert!(t.next().is_none());
    assert_eq!(t.idx, 2);
    assert!(t.next().is_none());
    assert_eq!(t.idx, 3);
    assert!(t.collect_remaining().is_empty());
}
