use typing_assists::edit::{AtomEdit, EditBuilder, LocalEdit};
use typing_assists::syntax::{NodeData, SyntaxKind, SyntaxTree};
use typing_assists::text::TextRange;
use typing_assists::typing::{join_lines, on_enter, on_eq_typed};

struct Tb {
    text: Vec<u8>,
    nodes: Vec<NodeData>,
    stack: Vec<usize>,
    pos: usize,
}

fn tb(text: &str) -> Tb {
    let root = NodeData {
        kind: SyntaxKind::OtherNode,
        start: 0,
        end: 0,
        parent: 0,
        children: Vec::new(),
    };
    Tb { text: text.as_bytes().to_vec(), nodes: vec![root], stack: vec![0], pos: 0 }
}

fn open_node(b: &mut Tb, kind: SyntaxKind) {
    let id = b.nodes.len();
    let parent = *b.stack.last().unwrap();
    b.nodes.push(NodeData { kind, start: b.pos, end: 0, parent, children: Vec::new() });
    b.nodes[parent].children.push(id);
    b.stack.push(id);
}

fn close_node(b: &mut Tb) {
    let id = b.stack.pop().unwrap();
    b.nodes[id].end = b.pos;
}

fn tok(b: &mut Tb, kind: SyntaxKind, s: &str) {
    let end = b.pos + s.len();
    assert!(end <= b.text.len(), "token past end of text");
    assert_eq!(&b.text[b.pos..end], s.as_bytes(), "token text mismatch at {}", b.pos);
    let id = b.nodes.len();
    let parent = *b.stack.last().unwrap();
    b.nodes.push(NodeData { kind, start: b.pos, end, parent, children: Vec::new() });
    b.nodes[parent].children.push(id);
    b.pos = end;
}

fn build(mut b: Tb) -> SyntaxTree {
    assert_eq!(b.pos, b.text.len(), "tokens do not cover the text");
    assert_eq!(b.stack.len(), 1, "unclosed nodes");
    b.nodes[0].end = b.pos;
    SyntaxTree::new(b.text, b.nodes).expect("hand-built tree must be well formed")
}

fn extract_offset(s: &str) -> (usize, String) {
    let pos = s.find("<|>").expect("no cursor marker");
    let text = format!("{}{}", &s[..pos], &s[pos + 3..]);
    (pos, text)
}

fn extract_range(s: &str) -> (usize, usize, String) {
    let a = s.find("<|>").expect("no first marker");
    let rest = format!("{}{}", &s[..a], &s[a + 3..]);
    let b = rest.find("<|>").expect("no second marker");
    let text = format!("{}{}", &rest[..b], &rest[b + 3..]);
    (a, b, text)
}

fn apply_edit(res: &LocalEdit, text: &str) -> String {
    let out = res.edit.apply(&text.as_bytes().to_vec());
    String::from_utf8(out).unwrap()
}

fn add_cursor(text: &str, pos: usize) -> String {
    format!("{}<|>{}", &text[..pos], &text[pos..])
}

fn strip_cursor(s: &str) -> String {
    let pos = s.find("<|>").expect("no cursor marker");
    format!("{}{}", &s[..pos], &s[pos + 3..])
}

fn assert_disjoint(atoms: &Vec<AtomEdit>) {
    let probe = typing_assists::edit::Edit { atoms: atoms.clone() };
    assert!(probe.is_disjoint());
    for i in 0..atoms.len() {
        for j in 0..atoms.len() {
            if i != j {
                let a = atoms[i].delete;
                let b = atoms[j].delete;
                assert!(
                    a.end <= b.start || b.end <= a.start,
                    "operations {} and {} overlap",
                    i,
                    j
                );
            }
        }
    }
}

// The parse of "\nfn foo() {\n    foo(1,\n    )\n}\n".
fn tree_fn_call_trailing_comma(text: &str) -> SyntaxTree {
    let mut b = tb(text);
    tok(&mut b, SyntaxKind::Whitespace, "\n");
    open_node(&mut b, SyntaxKind::OtherNode);
    tok(&mut b, SyntaxKind::OtherToken, "fn");
    tok(&mut b, SyntaxKind::Whitespace, " ");
    tok(&mut b, SyntaxKind::OtherToken, "foo");
    tok(&mut b, SyntaxKind::OtherToken, "()");
    tok(&mut b, SyntaxKind::Whitespace, " ");
    open_node(&mut b, SyntaxKind::Block);
    tok(&mut b, SyntaxKind::LCurly, "{");
    tok(&mut b, SyntaxKind::Whitespace, "\n    ");
    open_node(&mut b, SyntaxKind::Expr);
    tok(&mut b, SyntaxKind::Expr, "foo");
    open_node(&mut b, SyntaxKind::OtherNode);
    tok(&mut b, SyntaxKind::LParen, "(");
    tok(&mut b, SyntaxKind::Expr, "1");
    tok(&mut b, SyntaxKind::Comma, ",");
    tok(&mut b, SyntaxKind::Whitespace, "\n    ");
    tok(&mut b, SyntaxKind::RParen, ")");
    close_node(&mut b);
    close_node(&mut b);
    tok(&mut b, SyntaxKind::Whitespace, "\n");
    tok(&mut b, SyntaxKind::RCurly, "}");
    close_node(&mut b);
    close_node(&mut b);
    tok(&mut b, SyntaxKind::Whitespace, "\n");
    build(b)
}

#[test]
fn test_join_lines_comma() {
    let before = "\nfn foo() {\n    <|>foo(1,\n    )\n}\n";
    let after = "\nfn foo() {\n    <|>foo(1)\n}\n";
    let (offset, text) = extract_offset(before);
    let tree = tree_fn_call_trailing_comma(&text);
    let res = join_lines(&tree, TextRange { start: offset, end: offset });
    assert_eq!(apply_edit(&res, &text), strip_cursor(after));
    assert!(res.cursor_position.is_none());
}

#[test]
fn test_join_lines_lambda_block() {
    let before = "\npub fn reparse(&self, edit: &AtomEdit) -> File {\n    <|>self.incremental_reparse(edit).unwrap_or_else(|| {\n        self.full_reparse(edit)\n    })\n}\n";
    let after = "\npub fn reparse(&self, edit: &AtomEdit) -> File {\n    <|>self.incremental_reparse(edit).unwrap_or_else(|| self.full_reparse(edit))\n}\n";
    let (offset, text) = extract_offset(before);
    let mut b = tb(&text);
    tok(&mut b, SyntaxKind::Whitespace, "\n");
    open_node(&mut b, SyntaxKind::OtherNode);
    tok(&mut b, SyntaxKind::OtherToken, "pub fn reparse(&self, edit: &AtomEdit) -> File");
    tok(&mut b, SyntaxKind::Whitespace, " ");
    open_node(&mut b, SyntaxKind::Block);
    tok(&mut b, SyntaxKind::LCurly, "{");
    tok(&mut b, SyntaxKind::Whitespace, "\n    ");
    open_node(&mut b, SyntaxKind::Expr);
    tok(&mut b, SyntaxKind::Expr, "self.incremental_reparse(edit)");
    tok(&mut b, SyntaxKind::Dot, ".");
    tok(&mut b, SyntaxKind::OtherToken, "unwrap_or_else");
    open_node(&mut b, SyntaxKind::OtherNode);
    tok(&mut b, SyntaxKind::LParen, "(");
    open_node(&mut b, SyntaxKind::Expr);
    tok(&mut b, SyntaxKind::OtherToken, "||");
    tok(&mut b, SyntaxKind::Whitespace, " ");
    open_node(&mut b, SyntaxKind::BlockExpr);
    open_node(&mut b, SyntaxKind::Block);
    tok(&mut b, SyntaxKind::LCurly, "{");
    tok(&mut b, SyntaxKind::Whitespace, "\n        ");
    tok(&mut b, SyntaxKind::Expr, "self.full_reparse(edit)");
    tok(&mut b, SyntaxKind::Whitespace, "\n    ");
    tok(&mut b, SyntaxKind::RCurly, "}");
    close_node(&mut b);
    close_node(&mut b);
    close_node(&mut b);
    tok(&mut b, SyntaxKind::RParen, ")");
    close_node(&mut b);
    close_node(&mut b);
    tok(&mut b, SyntaxKind::Whitespace, "\n");
    tok(&mut b, SyntaxKind::RCurly, "}");
    close_node(&mut b);
    close_node(&mut b);
    tok(&mut b, SyntaxKind::Whitespace, "\n");
    let tree = build(b);
    let res = join_lines(&tree, TextRange { start: offset, end: offset });
    assert_eq!(apply_edit(&res, &text), strip_cursor(after));
}

#[test]
fn test_join_lines_block() {
    let before = "\nfn foo() {\n    foo(<|>{\n        92\n    })\n}";
    let after = "\nfn foo() {\n    foo(<|>92)\n}";
    let (offset, text) = extract_offset(before);
    let mut b = tb(&text);
    tok(&mut b, SyntaxKind::Whitespace, "\n");
    open_node(&mut b, SyntaxKind::OtherNode);
    tok(&mut b, SyntaxKind::OtherToken, "fn foo()");
    tok(&mut b, SyntaxKind::Whitespace, " ");
    open_node(&mut b, SyntaxKind::Block);
    tok(&mut b, SyntaxKind::LCurly, "{");
    tok(&mut b, SyntaxKind::Whitespace, "\n    ");
    open_node(&mut b, SyntaxKind::Expr);
    tok(&mut b, SyntaxKind::Expr, "foo");
    open_node(&mut b, SyntaxKind::OtherNode);
    tok(&mut b, SyntaxKind::LParen, "(");
    open_node(&mut b, SyntaxKind::BlockExpr);
    open_node(&mut b, SyntaxKind::Block);
    tok(&mut b, SyntaxKind::LCurly, "{");
    tok(&mut b, SyntaxKind::Whitespace, "\n        ");
    tok(&mut b, SyntaxKind::Expr, "92");
    tok(&mut b, SyntaxKind::Whitespace, "\n    ");
    tok(&mut b, SyntaxKind::RCurly, "}");
    close_node(&mut b);
    close_node(&mut b);
    tok(&mut b, SyntaxKind::RParen, ")");
    close_node(&mut b);
    close_node(&mut b);
    tok(&mut b, SyntaxKind::Whitespace, "\n");
    tok(&mut b, SyntaxKind::RCurly, "}");
    close_node(&mut b);
    close_node(&mut b);
    let tree = build(b);
    let res = join_lines(&tree, TextRange { start: offset, end: offset });
    assert_eq!(apply_edit(&res, &text), strip_cursor(after));
}

// The parse of "\nfn foo() {\n    foo(1,\n        2,\n        3,\n    )\n}\n    ".
fn tree_fn_call_three_args(text: &str) -> SyntaxTree {
    let mut b = tb(text);
    tok(&mut b, SyntaxKind::Whitespace, "\n");
    open_node(&mut b, SyntaxKind::OtherNode);
    tok(&mut b, SyntaxKind::OtherToken, "fn foo()");
    tok(&mut b, SyntaxKind::Whitespace, " ");
    open_node(&mut b, SyntaxKind::Block);
    tok(&mut b, SyntaxKind::LCurly, "{");
    tok(&mut b, SyntaxKind::Whitespace, "\n    ");
    open_node(&mut b, SyntaxKind::Expr);
    tok(&mut b, SyntaxKind::Expr, "foo");
    open_node(&mut b, SyntaxKind::OtherNode);
    tok(&mut b, SyntaxKind::LParen, "(");
    tok(&mut b, SyntaxKind::Expr, "1");
    tok(&mut b, SyntaxKind::Comma, ",");
    tok(&mut b, SyntaxKind::Whitespace, "\n        ");
    tok(&mut b, SyntaxKind::Expr, "2");
    tok(&mut b, SyntaxKind::Comma, ",");
    tok(&mut b, SyntaxKind::Whitespace, "\n        ");
    tok(&mut b, SyntaxKind::Expr, "3");
    tok(&mut b, SyntaxKind::Comma, ",");
    tok(&mut b, SyntaxKind::Whitespace, "\n    ");
    tok(&mut b, SyntaxKind::RParen, ")");
    close_node(&mut b);
    close_node(&mut b);
    tok(&mut b, SyntaxKind::Whitespace, "\n");
    tok(&mut b, SyntaxKind::RCurly, "}");
    close_node(&mut b);
    close_node(&mut b);
    tok(&mut b, SyntaxKind::Whitespace, "\n    ");
    build(b)
}

#[test]
fn test_join_lines_selection_fn_args() {
    let before = "\nfn foo() {\n    <|>foo(1,\n        2,\n        3,\n    <|>)\n}\n    ";
    let after = "\nfn foo() {\n    foo(1, 2, 3)\n}\n    ";
    let (start, end, text) = extract_range(before);
    let tree = tree_fn_call_three_args(&text);
    let res = join_lines(&tree, TextRange { start, end });
    assert_eq!(apply_edit(&res, &text), after);
    assert_disjoint(&res.edit.atoms);
}

#[test]
fn test_join_lines_selection_struct() {
    let before = "\nstruct Foo <|>{\n    f: u32,\n}<|>\n    ";
    let after = "\nstruct Foo { f: u32 }\n    ";
    let (start, end, text) = extract_range(before);
    let mut b = tb(&text);
    tok(&mut b, SyntaxKind::Whitespace, "\n");
    open_node(&mut b, SyntaxKind::OtherNode);
    tok(&mut b, SyntaxKind::OtherToken, "struct");
    tok(&mut b, SyntaxKind::Whitespace, " ");
    tok(&mut b, SyntaxKind::OtherToken, "Foo");
    tok(&mut b, SyntaxKind::Whitespace, " ");
    tok(&mut b, SyntaxKind::LCurly, "{");
    tok(&mut b, SyntaxKind::Whitespace, "\n    ");
    tok(&mut b, SyntaxKind::OtherToken, "f: u32");
    tok(&mut b, SyntaxKind::Comma, ",");
    tok(&mut b, SyntaxKind::Whitespace, "\n");
    tok(&mut b, SyntaxKind::RCurly, "}");
    close_node(&mut b);
    tok(&mut b, SyntaxKind::Whitespace, "\n    ");
    let tree = build(b);
    let res = join_lines(&tree, TextRange { start, end });
    assert_eq!(apply_edit(&res, &text), after);
    assert_disjoint(&res.edit.atoms);
}

#[test]
fn test_join_lines_selection_dot_chain() {
    let before = "\nfn foo() {\n    join(<|>type_params.type_params()\n            .filter_map(|it| it.name())\n            .map(|it| it.text())<|>)\n}";
    let after = "\nfn foo() {\n    join(type_params.type_params().filter_map(|it| it.name()).map(|it| it.text()))\n}";
    let (start, end, text) = extract_range(before);
    let mut b = tb(&text);
    tok(&mut b, SyntaxKind::Whitespace, "\n");
    open_node(&mut b, SyntaxKind::OtherNode);
    tok(&mut b, SyntaxKind::OtherToken, "fn foo()");
    tok(&mut b, SyntaxKind::Whitespace, " ");
    open_node(&mut b, SyntaxKind::Block);
    tok(&mut b, SyntaxKind::LCurly, "{");
    tok(&mut b, SyntaxKind::Whitespace, "\n    ");
    open_node(&mut b, SyntaxKind::Expr);
    tok(&mut b, SyntaxKind::Expr, "join");
    open_node(&mut b, SyntaxKind::OtherNode);
    tok(&mut b, SyntaxKind::LParen, "(");
    open_node(&mut b, SyntaxKind::Expr);
    tok(&mut b, SyntaxKind::Expr, "type_params.type_params()");
    tok(&mut b, SyntaxKind::Whitespace, "\n            ");
    tok(&mut b, SyntaxKind::Dot, ".");
    tok(&mut b, SyntaxKind::OtherToken, "filter_map(|it| it.name())");
    tok(&mut b, SyntaxKind::Whitespace, "\n            ");
    tok(&mut b, SyntaxKind::Dot, ".");
    tok(&mut b, SyntaxKind::OtherToken, "map(|it| it.text())");
    close_node(&mut b);
    tok(&mut b, SyntaxKind::RParen, ")");
    close_node(&mut b);
    close_node(&mut b);
    tok(&mut b, SyntaxKind::Whitespace, "\n");
    tok(&mut b, SyntaxKind::RCurly, "}");
    close_node(&mut b);
    close_node(&mut b);
    let tree = build(b);
    let res = join_lines(&tree, TextRange { start, end });
    assert_eq!(apply_edit(&res, &text), after);
    assert_disjoint(&res.edit.atoms);
}

#[test]
fn test_join_lines_selection_lambda_block_body() {
    let before = "\npub fn handle_find_matching_brace() {\n    params.offsets\n        .map(|offset| <|>{\n            world.analysis().matching_brace(&file, offset).unwrap_or(offset)\n        }<|>)\n        .collect();\n}";
    let after = "\npub fn handle_find_matching_brace() {\n    params.offsets\n        .map(|offset| world.analysis().matching_brace(&file, offset).unwrap_or(offset))\n        .collect();\n}";
    let (start, end, text) = extract_range(before);
    let mut b = tb(&text);
    tok(&mut b, SyntaxKind::Whitespace, "\n");
    open_node(&mut b, SyntaxKind::OtherNode);
    tok(&mut b, SyntaxKind::OtherToken, "pub fn handle_find_matching_brace()");
    tok(&mut b, SyntaxKind::Whitespace, " ");
    open_node(&mut b, SyntaxKind::Block);
    tok(&mut b, SyntaxKind::LCurly, "{");
    tok(&mut b, SyntaxKind::Whitespace, "\n    ");
    open_node(&mut b, SyntaxKind::OtherNode);
    tok(&mut b, SyntaxKind::Expr, "params.offsets");
    tok(&mut b, SyntaxKind::Whitespace, "\n        ");
    tok(&mut b, SyntaxKind::Dot, ".");
    tok(&mut b, SyntaxKind::OtherToken, "map");
    open_node(&mut b, SyntaxKind::OtherNode);
    tok(&mut b, SyntaxKind::LParen, "(");
    open_node(&mut b, SyntaxKind::Expr);
    tok(&mut b, SyntaxKind::OtherToken, "|offset|");
    tok(&mut b, SyntaxKind::Whitespace, " ");
    open_node(&mut b, SyntaxKind::BlockExpr);
    open_node(&mut b, SyntaxKind::Block);
    tok(&mut b, SyntaxKind::LCurly, "{");
    tok(&mut b, SyntaxKind::Whitespace, "\n            ");
    tok(
        &mut b,
        SyntaxKind::Expr,
        "world.analysis().matching_brace(&file, offset).unwrap_or(offset)",
    );
    tok(&mut b, SyntaxKind::Whitespace, "\n        ");
    tok(&mut b, SyntaxKind::RCurly, "}");
    close_node(&mut b);
    close_node(&mut b);
    close_node(&mut b);
    tok(&mut b, SyntaxKind::RParen, ")");
    close_node(&mut b);
    tok(&mut b, SyntaxKind::Whitespace, "\n        ");
    tok(&mut b, SyntaxKind::Dot, ".");
    tok(&mut b, SyntaxKind::OtherToken, "collect()");
    tok(&mut b, SyntaxKind::Semi, ";");
    close_node(&mut b);
    tok(&mut b, SyntaxKind::Whitespace, "\n");
    tok(&mut b, SyntaxKind::RCurly, "}");
    close_node(&mut b);
    close_node(&mut b);
    let tree = build(b);
    let res = join_lines(&tree, TextRange { start, end });
    assert_eq!(apply_edit(&res, &text), after);
    assert_disjoint(&res.edit.atoms);
}

// The parse of "\nfn foo() {\n    let foo = 1 + 1\n}\n" and variants.
fn tree_let_stmt(text: &str, with_semi: bool, ws_after_eq: &str) -> SyntaxTree {
    let mut b = tb(text);
    tok(&mut b, SyntaxKind::Whitespace, "\n");
    open_node(&mut b, SyntaxKind::OtherNode);
    tok(&mut b, SyntaxKind::OtherToken, "fn foo()");
    tok(&mut b, SyntaxKind::Whitespace, " ");
    open_node(&mut b, SyntaxKind::Block);
    tok(&mut b, SyntaxKind::LCurly, "{");
    tok(&mut b, SyntaxKind::Whitespace, "\n    ");
    open_node(&mut b, SyntaxKind::LetStmt);
    tok(&mut b, SyntaxKind::OtherToken, "let");
    tok(&mut b, SyntaxKind::Whitespace, " ");
    tok(&mut b, SyntaxKind::OtherToken, "foo");
    tok(&mut b, SyntaxKind::Whitespace, " ");
    tok(&mut b, SyntaxKind::OtherToken, "=");
    tok(&mut b, SyntaxKind::Whitespace, ws_after_eq);
    tok(&mut b, SyntaxKind::Expr, "1 + 1");
    if with_semi {
        tok(&mut b, SyntaxKind::Semi, ";");
    }
    close_node(&mut b);
    tok(&mut b, SyntaxKind::Whitespace, "\n");
    tok(&mut b, SyntaxKind::RCurly, "}");
    close_node(&mut b);
    close_node(&mut b);
    tok(&mut b, SyntaxKind::Whitespace, "\n");
    build(b)
}

#[test]
fn test_on_eq_typed() {
    let before = "\nfn foo() {\n    let foo =<|> 1 + 1\n}\n";
    let after = "\nfn foo() {\n    let foo = 1 + 1;\n}\n";
    let (offset, text) = extract_offset(before);
    let tree = tree_let_stmt(&text, false, " ");
    let res = on_eq_typed(&tree, offset).unwrap();
    assert_eq!(apply_edit(&res, &text), after);
    assert!(res.cursor_position.is_none());
}

#[test]
fn test_on_eq_typed_noop_with_semi() {
    let before = "\nfn foo() {\n    let foo =<|> 1 + 1;\n}\n";
    let (offset, text) = extract_offset(before);
    let tree = tree_let_stmt(&text, true, " ");
    assert!(on_eq_typed(&tree, offset).is_none());
}

#[test]
fn test_on_eq_typed_noop_newline_before_initializer() {
    let before = "\nfn foo() {\n    let foo =<|>\n        1 + 1\n}\n";
    let (offset, text) = extract_offset(before);
    let tree = tree_let_stmt(&text, false, "\n        ");
    assert!(on_eq_typed(&tree, offset).is_none());
}

#[test]
fn test_on_enter() {
    // Continuing a doc comment at the end of its line.
    let before = "\n/// Some docs<|>\nfn foo() {\n}\n";
    let after = "\n/// Some docs\n/// <|>\nfn foo() {\n}\n";
    let (offset, text) = extract_offset(before);
    let mut b = tb(&text);
    tok(&mut b, SyntaxKind::Whitespace, "\n");
    open_node(&mut b, SyntaxKind::OtherNode);
    tok(&mut b, SyntaxKind::Comment, "/// Some docs");
    tok(&mut b, SyntaxKind::Whitespace, "\n");
    tok(&mut b, SyntaxKind::OtherToken, "fn foo()");
    tok(&mut b, SyntaxKind::Whitespace, " ");
    open_node(&mut b, SyntaxKind::Block);
    tok(&mut b, SyntaxKind::LCurly, "{");
    tok(&mut b, SyntaxKind::Whitespace, "\n");
    tok(&mut b, SyntaxKind::RCurly, "}");
    close_node(&mut b);
    close_node(&mut b);
    tok(&mut b, SyntaxKind::Whitespace, "\n");
    let tree = build(b);
    let res = on_enter(&tree, offset).unwrap();
    let applied = apply_edit(&res, &text);
    let applied = add_cursor(&applied, res.cursor_position.unwrap());
    assert_eq!(applied, after);

    // Continuing a doc comment in the middle, keeping indentation.
    let before = "\nimpl S {\n    /// Some<|> docs.\n    fn foo() {}\n}\n";
    let after = "\nimpl S {\n    /// Some\n    /// <|> docs.\n    fn foo() {}\n}\n";
    let (offset, text) = extract_offset(before);
    let mut b = tb(&text);
    tok(&mut b, SyntaxKind::Whitespace, "\n");
    open_node(&mut b, SyntaxKind::OtherNode);
    tok(&mut b, SyntaxKind::OtherToken, "impl");
    tok(&mut b, SyntaxKind::Whitespace, " ");
    tok(&mut b, SyntaxKind::OtherToken, "S");
    tok(&mut b, SyntaxKind::Whitespace, " ");
    tok(&mut b, SyntaxKind::LCurly, "{");
    tok(&mut b, SyntaxKind::Whitespace, "\n    ");
    open_node(&mut b, SyntaxKind::OtherNode);
    tok(&mut b, SyntaxKind::Comment, "/// Some docs.");
    tok(&mut b, SyntaxKind::Whitespace, "\n    ");
    tok(&mut b, SyntaxKind::OtherToken, "fn foo()");
    tok(&mut b, SyntaxKind::Whitespace, " ");
    open_node(&mut b, SyntaxKind::Block);
    tok(&mut b, SyntaxKind::LCurly, "{");
    tok(&mut b, SyntaxKind::RCurly, "}");
    close_node(&mut b);
    close_node(&mut b);
    tok(&mut b, SyntaxKind::Whitespace, "\n");
    tok(&mut b, SyntaxKind::RCurly, "}");
    close_node(&mut b);
    tok(&mut b, SyntaxKind::Whitespace, "\n");
    let tree = build(b);
    let res = on_enter(&tree, offset).unwrap();
    let applied = apply_edit(&res, &text);
    let applied = add_cursor(&applied, res.cursor_position.unwrap());
    assert_eq!(applied, after);

    // Before the prefix of a module doc comment: no edit.
    let before = "<|>//! docz";
    let (offset, text) = extract_offset(before);
    let mut b = tb(&text);
    tok(&mut b, SyntaxKind::Comment, "//! docz");
    let tree = build(b);
    assert!(on_enter(&tree, offset).is_none());
}

#[test]
fn test_join_lines_comment_splice() {
    // Two line comments merge onto one line.
    let text = "// one\n// two\n";
    let mut b = tb(text);
    tok(&mut b, SyntaxKind::Comment, "// one");
    tok(&mut b, SyntaxKind::Whitespace, "\n");
    tok(&mut b, SyntaxKind::Comment, "// two");
    tok(&mut b, SyntaxKind::Whitespace, "\n");
    let tree = build(b);
    let res = join_lines(&tree, TextRange { start: 0, end: 0 });
    assert_eq!(apply_edit(&res, text), "// one two\n");
}

#[test]
fn test_join_lines_block_comment_splice() {
    // A line comment joined with a multi-line block comment keeps the
    // block opener on the continuation line.
    let text = "// x\n/* a\n   b */\n";
    let mut b = tb(text);
    tok(&mut b, SyntaxKind::Comment, "// x");
    tok(&mut b, SyntaxKind::Whitespace, "\n");
    tok(&mut b, SyntaxKind::Comment, "/* a\n   b */");
    tok(&mut b, SyntaxKind::Whitespace, "\n");
    let tree = build(b);
    let res = join_lines(&tree, TextRange { start: 0, end: 0 });
    assert_eq!(apply_edit(&res, text), "// x a\n/*   b */\n");
    assert_disjoint(&res.edit.atoms);
}

#[test]
fn test_join_lines_noop_without_newline() {
    let text = "\nfn foo() {\n    foo(1,\n    )\n}\n";
    let tree = tree_fn_call_trailing_comma(text);
    // An empty range with no newline after it: the trailing newline is the
    // last byte, so a cursor past it finds nothing.
    let at_end = text.len();
    let res = join_lines(&tree, TextRange { start: at_end, end: at_end });
    assert!(res.edit.is_noop());
    assert_eq!(apply_edit(&res, text), text);
    // A non-empty range that holds no newline.
    let res = join_lines(&tree, TextRange { start: 1, end: 3 });
    assert!(res.edit.is_noop());
    assert_eq!(apply_edit(&res, text), text);
}

#[test]
fn test_on_eq_typed_noop_inside_initializer() {
    // The offset sits strictly inside the initializer: no edit.
    let before = "\nfn foo() {\n    let foo = 1 <|>+ 1\n}\n";
    let (offset, text) = extract_offset(before);
    let tree = tree_let_stmt(&text, false, " ");
    assert!(on_eq_typed(&tree, offset).is_none());
}

#[test]
fn test_on_enter_noop_without_indent_context() {
    // The token before the comment is no whitespace: no indentation to copy.
    let text = "x// c\n";
    let mut b = tb(text);
    tok(&mut b, SyntaxKind::OtherToken, "x");
    tok(&mut b, SyntaxKind::Comment, "// c");
    tok(&mut b, SyntaxKind::Whitespace, "\n");
    let tree = build(b);
    assert!(on_enter(&tree, 5).is_none());
}

#[test]
fn test_on_enter_noop_inside_prefix() {
    // The offset sits inside the marker itself: no continuation.
    let text = "/// abc\n";
    let mut b = tb(text);
    tok(&mut b, SyntaxKind::Comment, "/// abc");
    tok(&mut b, SyntaxKind::Whitespace, "\n");
    let tree = build(b);
    assert!(on_enter(&tree, 2).is_none());
    assert!(on_enter(&tree, 3).is_none());
    assert!(on_enter(&tree, 4).is_some());
}

#[test]
fn test_on_enter_noop_block_comment() {
    let text = "/* abc */\n";
    let mut b = tb(text);
    tok(&mut b, SyntaxKind::Comment, "/* abc */");
    tok(&mut b, SyntaxKind::Whitespace, "\n");
    let tree = build(b);
    assert!(on_enter(&tree, 5).is_none());
}

#[test]
fn test_covering_node_finds_smallest_enclosing() {
    let text = "\nfn foo() {\n    foo(1,\n    )\n}\n";
    let tree = tree_fn_call_trailing_comma(text);
    // The newline after the comma lies inside the whitespace leaf of the
    // argument list: the covering node of that one-byte range is that leaf.
    let nl = text.find(",\n").unwrap() + 1;
    let leaf = tree.covering_node(nl, nl + 1);
    assert_eq!(tree.nodes[leaf].kind, SyntaxKind::Whitespace);
    assert_eq!(tree.nodes[leaf].start, nl);
    // A range spanning the comma and the closing parenthesis is covered by
    // the argument list, not by any single token.
    let arglist = tree.covering_node(nl - 1, nl + 6);
    assert_eq!(tree.nodes[arglist].kind, SyntaxKind::OtherNode);
    assert!(tree.nodes[arglist].start <= nl - 1 && nl + 6 <= tree.nodes[arglist].end);
}

#[test]
fn test_edit_builder_orders_and_reports_overlap_offsets() {
    // Operations recorded out of order come out ordered by range start, and
    // invalidates_offset sees exactly the touched offsets.
    let mut b = EditBuilder::new();
    b.replace(TextRange { start: 10, end: 12 }, b"xy".to_vec());
    b.delete(TextRange { start: 2, end: 4 });
    assert!(b.invalidates_offset(3));
    assert!(b.invalidates_offset(10));
    assert!(b.invalidates_offset(12));
    assert!(!b.invalidates_offset(5));
    b.insert(6, b"q".to_vec());
    let e = b.finish();
    assert_eq!(e.op_count(), 3);
    assert_eq!(e.atoms[0].delete, TextRange { start: 2, end: 4 });
    assert_eq!(e.atoms[1].delete, TextRange { start: 6, end: 6 });
    assert_eq!(e.atoms[2].delete, TextRange { start: 10, end: 12 });
    let text = b"0123456789abcdef".to_vec();
    let out = e.apply(&text);
    assert_eq!(out, b"0145q6789xycdef".to_vec());
}

#[test]
fn test_empty_edit_leaves_text_unchanged() {
    let e = EditBuilder::new().finish();
    assert!(e.is_noop());
    let text = b"anything at all".to_vec();
    assert_eq!(e.apply(&text), text);
}
