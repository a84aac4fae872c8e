use solana_graphs::artifacts::{
    ast_extension, cfg_file_stem, is_rust_ast_file, language_for_extension, remove_all,
    SourceLanguage,
};

#[test]
fn three_extensions_are_supported() {
    assert_eq!(language_for_extension("rs"), Some(SourceLanguage::Rust));
    assert_eq!(language_for_extension("ts"), Some(SourceLanguage::TypeScript));
    assert_eq!(language_for_extension("js"), Some(SourceLanguage::JavaScript));
}

#[test]
fn other_extensions_are_skipped() {
    for extension in ["", "RS", "rs ", "tsx", "jsx", "json", "toml", "r", "rss"] {
        assert_eq!(language_for_extension(extension), None, "{:?}", extension);
    }
}

#[test]
fn ast_extension_keeps_the_source_extension() {
    assert_eq!(ast_extension(Some("rs")), "rs.ast.json");
    assert_eq!(ast_extension(Some("ts")), "ts.ast.json");
    assert_eq!(ast_extension(Some("")), ".ast.json");
    assert_eq!(ast_extension(None), "ast.json");
}

#[test]
fn rust_ast_files_are_told_by_their_ending() {
    assert!(is_rust_ast_file("out/src/lib.rs.ast.json"));
    assert!(is_rust_ast_file(".rs.ast.json"));
    assert!(!is_rust_ast_file("out/src/index.ts.ast.json"));
    assert!(!is_rust_ast_file("out/src/lib.rs"));
    assert!(!is_rust_ast_file("lib.rs.ast.json.bak"));
    assert!(!is_rust_ast_file("rs.ast.json"));
    assert!(!is_rust_ast_file(""));
}

#[test]
fn remove_all_agrees_with_std_replace() {
    let cases = [
        ("lib.rs.ast.json", ".ast.json"),
        ("a.ast.json.ast.json", ".ast.json"),
        (".ast.json", ".ast.json"),
        (".ast.jso", ".ast.json"),
        ("", ".ast.json"),
        ("aaaa", "aa"),
        ("aaa", "aa"),
        ("abababa", "aba"),
        ("x.ast.ast.json.json", ".ast.json"),
        ("größe.ast.jsonß", ".ast.json"),
        ("abc", ""),
        ("abcabc", "abcabc"),
        ("abcabc", "abcabcd"),
    ];
    for (text, pattern) in cases {
        assert_eq!(remove_all(text, pattern), text.replace(pattern, ""), "{:?} {:?}", text, pattern);
    }
    assert_eq!(remove_all("lib.rs.ast.json", ".ast.json"), "lib.rs");
    assert_eq!(remove_all("abababa", "aba"), "b");
}

#[test]
fn cfg_file_stem_joins_file_and_function() {
    assert_eq!(cfg_file_stem("lib.rs.ast.json", "main"), "lib.rs.main.cfg");
    assert_eq!(cfg_file_stem("lib.rs", "unknown_function"), "lib.rs.unknown_function.cfg");
    assert_eq!(cfg_file_stem("a.ast.json.rs.ast.json", "f"), "a.rs.f.cfg");
    assert_eq!(cfg_file_stem("", ""), "..cfg");
}
