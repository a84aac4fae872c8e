use solana_graphs::program_tree::{
    classify, find_block_child, find_child, find_functions, function_name, AstNode, NodeRole,
};
use solana_graphs::text::{has_suffix, is_whitespace, same_text, summary_line};

fn node(kind: &str, text: &str, children: Vec<AstNode>) -> AstNode {
    AstNode { kind: kind.to_string(), text: text.to_string(), children }
}

fn leaf(kind: &str, text: &str) -> AstNode {
    node(kind, text, vec![])
}

#[test]
fn classify_knows_the_control_tags() {
    assert_eq!(classify("statement_block"), NodeRole::Block);
    assert_eq!(classify("block"), NodeRole::Block);
    assert_eq!(classify("if_expression"), NodeRole::Conditional);
    assert_eq!(classify("return_expression"), NodeRole::Return);
    assert_eq!(classify("loop_expression"), NodeRole::Loop);
    assert_eq!(classify("while_expression"), NodeRole::Loop);
    assert_eq!(classify("for_expression"), NodeRole::Loop);
    assert_eq!(classify("break_expression"), NodeRole::Break);
}

#[test]
fn classify_tells_statements_by_suffix() {
    assert_eq!(classify("expression_statement"), NodeRole::Statement);
    assert_eq!(classify("let_declaration"), NodeRole::Statement);
    assert_eq!(classify("function_item"), NodeRole::Statement);
    assert_eq!(classify("_item"), NodeRole::Statement);
    assert_eq!(classify("return_statement"), NodeRole::Statement);
}

#[test]
fn classify_treats_the_rest_as_containers() {
    assert_eq!(classify(""), NodeRole::Container);
    assert_eq!(classify("source_file"), NodeRole::Container);
    assert_eq!(classify("continue_expression"), NodeRole::Container);
    assert_eq!(classify("statement"), NodeRole::Container);
    assert_eq!(classify("item"), NodeRole::Container);
    assert_eq!(classify("If_Expression"), NodeRole::Container);
    assert_eq!(classify("block "), NodeRole::Container);
    assert_eq!(classify("_statement_x"), NodeRole::Container);
}

#[test]
fn same_text_compares_character_by_character() {
    assert!(same_text("", ""));
    assert!(same_text("block", "block"));
    assert!(!same_text("block", "blocks"));
    assert!(!same_text("Block", "block"));
    assert!(same_text("größe", "größe"));
}

#[test]
fn has_suffix_tests_the_end() {
    assert!(has_suffix("let_declaration", "_declaration"));
    assert!(has_suffix("_item", "_item"));
    assert!(has_suffix("anything", ""));
    assert!(!has_suffix("item", "_item"));
    assert!(!has_suffix("_item_", "_item"));
    assert!(has_suffix("größe_item", "e_item"));
    assert!(!has_suffix("", "x"));
}

#[test]
fn whitespace_is_the_unicode_property() {
    for c in [' ', '\t', '\n', '\u{0B}', '\u{0C}', '\r', '\u{85}', '\u{A0}', '\u{1680}',
        '\u{2000}', '\u{2005}', '\u{200A}', '\u{2028}', '\u{2029}', '\u{202F}', '\u{205F}',
        '\u{3000}']
    {
        assert!(is_whitespace(c), "{:?}", c);
        assert!(c.is_whitespace());
    }
    for c in ['a', '0', '_', '\u{08}', '\u{0E}', '\u{1F}', '\u{200B}', '\u{2060}', '\u{FEFF}',
        '\u{180E}', '\u{2001}']
    {
        assert_eq!(is_whitespace(c), c.is_whitespace(), "{:?}", c);
    }
}

#[test]
fn whitespace_agrees_with_std_everywhere() {
    let mut code: u32 = 0;
    while code <= 0x10FFFF {
        if let Some(c) = char::from_u32(code) {
            assert_eq!(is_whitespace(c), c.is_whitespace(), "U+{:04X}", code);
        }
        code += 1;
    }
}

#[test]
fn summary_line_is_the_trimmed_first_line() {
    assert_eq!(summary_line("let x = 1;"), "let x = 1;");
    assert_eq!(summary_line("  let x = 1;  \nlet y = 2;"), "let x = 1;");
    assert_eq!(summary_line("fn f() {\r\n    body\r\n}"), "fn f() {");
    assert_eq!(summary_line("\tfoo( a,  b )\t"), "foo( a,  b )");
    assert_eq!(summary_line("\u{A0}größe = 1\u{3000}\nrest"), "größe = 1");
}

#[test]
fn summary_line_may_be_empty() {
    assert_eq!(summary_line(""), "");
    assert_eq!(summary_line("\nsecond"), "");
    assert_eq!(summary_line("   \t \nsecond"), "");
    assert_eq!(summary_line("\r\n"), "");
    assert_eq!(summary_line("   "), "");
}

#[test]
fn summary_line_agrees_with_std() {
    for text in [
        "a\nb",
        "  a  ",
        "\n",
        "a\r\nb",
        "a\rb\nc",
        " \r a \r\n",
        "x = \"  \"  ",
        "é\u{2003}\n",
        "\u{0B}v\u{0C}",
    ] {
        let expected = text.lines().next().unwrap_or("").trim().to_string();
        assert_eq!(summary_line(text), expected, "{:?}", text);
    }
}

#[test]
fn find_child_returns_the_first_match() {
    let parent = node(
        "p",
        "",
        vec![leaf("a", "1"), leaf("b", "2"), leaf("a", "3"), leaf("c", "4")],
    );
    assert_eq!(find_child(&parent, "a"), Some(0));
    assert_eq!(find_child(&parent, "b"), Some(1));
    assert_eq!(find_child(&parent, "c"), Some(3));
    assert_eq!(find_child(&parent, "d"), None);
    assert_eq!(find_child(&leaf("p", ""), "a"), None);
}

#[test]
fn find_block_child_returns_the_first_block() {
    let parent = node(
        "p",
        "",
        vec![leaf("identifier", "f"), leaf("block", "{}"), leaf("statement_block", "{}")],
    );
    assert_eq!(find_block_child(&parent), Some(1));
    let other = node("p", "", vec![leaf("statement_block", "{}"), leaf("block", "{}")]);
    assert_eq!(find_block_child(&other), Some(0));
    let none = node("p", "", vec![leaf("blocks", "{}"), leaf("if_expression", "if")]);
    assert_eq!(find_block_child(&none), None);
    assert_eq!(find_block_child(&leaf("p", "")), None);
}

#[test]
fn find_functions_lists_in_pre_order() {
    let inner = node("function_item", "fn inner() {}", vec![leaf("identifier", "inner")]);
    let outer = node(
        "function_item",
        "fn outer() { fn inner() {} }",
        vec![leaf("identifier", "outer"), node("block", "{ .. }", vec![inner])],
    );
    let last = node("function_item", "fn last() {}", vec![leaf("identifier", "last")]);
    let root = node(
        "source_file",
        "..",
        vec![leaf("use_declaration", "use a;"), outer, node("mod_item", "mod m { .. }", vec![last])],
    );
    let mut found = vec![];
    find_functions(&root, &mut found);
    let names: Vec<String> = found.iter().map(|f| function_name(f)).collect();
    assert_eq!(names, vec!["outer", "inner", "last"]);
}

#[test]
fn find_functions_appends_to_what_is_there() {
    let first = node("function_item", "fn a() {}", vec![leaf("identifier", "a")]);
    let second = node("function_item", "fn b() {}", vec![leaf("identifier", "b")]);
    let empty = leaf("source_file", "");
    let mut found = vec![];
    find_functions(&first, &mut found);
    find_functions(&second, &mut found);
    find_functions(&empty, &mut found);
    assert_eq!(found.len(), 2);
    assert_eq!(found[0].text, "fn a() {}");
    assert_eq!(found[1].text, "fn b() {}");
}

#[test]
fn find_functions_includes_the_root() {
    let root = node("function_item", "fn a() {}", vec![]);
    let mut found = vec![];
    find_functions(&root, &mut found);
    assert_eq!(found.len(), 1);
}

#[test]
fn function_name_falls_back_to_a_placeholder() {
    let named = node(
        "function_item",
        "fn f() {}",
        vec![leaf("visibility_modifier", "pub"), leaf("identifier", "f"), leaf("identifier", "g")],
    );
    assert_eq!(function_name(&named), "f");
    let unnamed = node("function_item", "fn () {}", vec![leaf("parameters", "()")]);
    assert_eq!(function_name(&unnamed), "unknown_function");
}
