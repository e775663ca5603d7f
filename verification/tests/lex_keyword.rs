use nreplops_tool::lex::{lex, Lexeme, Source, Token};

/// Lexes `input`, which must give exactly one lexeme, a keyword with a
/// source, and returns its alias flag, namespace, name and source text.
fn only_keyword(input: &str) -> (bool, Option<String>, String, Source) {
    let Ok(lexemes) = lex(input) else {
        panic!("failed to parse input: \"{input}\"");
    };
    let mut it = lexemes.into_iter();
    let Some(lexeme) = it.next() else {
        panic!("unexpectedly ran out of lexemes");
    };
    if let Some(extra) = it.next() {
        panic!("unexpected residual lexemes remain: {extra:?}");
    }
    let Lexeme { token, source, .. } = lexeme;
    let Some(source) = source else {
        panic!("lexeme has no source");
    };
    match token {
        Token::Keyword { alias, namespace, name } => (alias, namespace, name, source),
        other => panic!("expected a keyword, got {other:?}"),
    }
}

#[test]
fn plain_keyword() {
    let (alias, namespace, name, source) = only_keyword(":foo");
    assert_eq!(alias, false);
    assert_eq!(namespace, None);
    assert_eq!(name, "foo");
    assert_eq!(source.str, ":foo");
}

#[test]
fn keyword_with_dot_in_name() {
    let (alias, namespace, name, source) = only_keyword(":foo.bar");
    assert_eq!(alias, false);
    assert_eq!(namespace, None);
    assert_eq!(name, "foo.bar");
    assert_eq!(source.str, ":foo.bar");
}

#[test]
fn keyword_with_colon_in_name() {
    let (alias, namespace, name, source) = only_keyword(":foo:bar");
    assert_eq!(alias, false);
    assert_eq!(namespace, None);
    assert_eq!(name, "foo:bar");
    assert_eq!(source.str, ":foo:bar");
}

#[test]
fn simple_keyword_with_namespace() {
    let (alias, namespace, name, source) = only_keyword(":foo/bar");
    assert_eq!(alias, false);
    assert_eq!(namespace, Some("foo".to_string()));
    assert_eq!(name, "bar");
    assert_eq!(source.str, ":foo/bar");
}

#[test]
fn keyword_with_dotted_namespace_and_name() {
    let (alias, namespace, name, source) = only_keyword(":foo.bar/zip.zap");
    assert_eq!(alias, false);
    assert_eq!(namespace, Some("foo.bar".to_string()));
    assert_eq!(name, "zip.zap");
    assert_eq!(source.str, ":foo.bar/zip.zap");
}

#[test]
fn namespaced_keyword_with_slash_in_name() {
    let (alias, namespace, name, source) = only_keyword(":foo.bar/zip/zap");
    assert_eq!(alias, false);
    assert_eq!(namespace, Some("foo.bar".to_string()));
    assert_eq!(name, "zip/zap");
    assert_eq!(source.str, ":foo.bar/zip/zap");
}

#[test]
fn namespaced_keyword_with_complex_name_1() {
    let (alias, namespace, name, source) = only_keyword(":foo.bar/zip/:zap");
    assert_eq!(alias, false);
    assert_eq!(namespace, Some("foo.bar".to_string()));
    assert_eq!(name, "zip/:zap");
    assert_eq!(source.str, ":foo.bar/zip/:zap");
}

#[test]
fn namespaced_keyword_with_complex_name_2() {
    let (alias, namespace, name, source) = only_keyword(":foo.bar/zip//:zap");
    assert_eq!(alias, false);
    assert_eq!(namespace, Some("foo.bar".to_string()));
    assert_eq!(name, "zip//:zap");
    assert_eq!(source.str, ":foo.bar/zip//:zap");
}

#[test]
fn just_slash_keyword() {
    let (alias, namespace, name, source) = only_keyword(":/");
    assert_eq!(alias, false);
    assert_eq!(namespace, None);
    assert_eq!(name, "/");
    assert_eq!(source.str, ":/");
}

#[test]
fn just_slash_keyword_with_namespace() {
    let (alias, namespace, name, source) = only_keyword(":foo//");
    assert_eq!(alias, false);
    assert_eq!(namespace, Some("foo".to_string()));
    assert_eq!(name, "/");
    assert_eq!(source.str, ":foo//");
}

#[test]
fn unqualified_begins_with_number() {
    let (alias, namespace, name, source) = only_keyword(":42");
    assert_eq!(alias, false);
    assert_eq!(namespace, None);
    assert_eq!(name, "42");
    assert_eq!(source.str, ":42");
}

#[test]
fn unqualified_begins_with_quote() {
    let (alias, namespace, name, source) = only_keyword(":'foo");
    assert_eq!(alias, false);
    assert_eq!(namespace, None);
    assert_eq!(name, "'foo");
    assert_eq!(source.str, ":'foo");
}

#[test]
fn unqualified_begins_with_hash() {
    let (alias, namespace, name, source) = only_keyword(":#foo");
    assert_eq!(alias, false);
    assert_eq!(namespace, None);
    assert_eq!(name, "#foo");
    assert_eq!(source.str, ":#foo");
}

#[test]
fn unqualified_begins_with_hash_quote() {
    let (alias, namespace, name, source) = only_keyword(":#'foo");
    assert_eq!(alias, false);
    assert_eq!(namespace, None);
    assert_eq!(name, "#'foo");
    assert_eq!(source.str, ":#'foo");
}

#[test]
fn plain_alias() {
    let (alias, namespace, name, source) = only_keyword("::foo");
    assert_eq!(alias, true);
    assert_eq!(namespace, None);
    assert_eq!(name, "foo");
    assert_eq!(source.str, "::foo");
}

#[test]
fn alias_with_dot_in_name() {
    let (alias, namespace, name, source) = only_keyword("::foo.bar");
    assert_eq!(alias, true);
    assert_eq!(namespace, None);
    assert_eq!(name, "foo.bar");
    assert_eq!(source.str, "::foo.bar");
}

#[test]
fn alias_with_colon_in_name() {
    let (alias, namespace, name, source) = only_keyword("::foo:bar");
    assert_eq!(alias, true);
    assert_eq!(namespace, None);
    assert_eq!(name, "foo:bar");
    assert_eq!(source.str, "::foo:bar");
}

#[test]
fn simple_namespaced_alias() {
    let (alias, namespace, name, source) = only_keyword("::foo/bar");
    assert_eq!(alias, true);
    assert_eq!(namespace, Some("foo".to_string()));
    assert_eq!(name, "bar");
    assert_eq!(source.str, "::foo/bar");
}

#[test]
fn alias_with_dotted_namespace_and_name() {
    let (alias, namespace, name, source) = only_keyword("::foo.bar/zip.zap");
    assert_eq!(alias, true);
    assert_eq!(namespace, Some("foo.bar".to_string()));
    assert_eq!(name, "zip.zap");
    assert_eq!(source.str, "::foo.bar/zip.zap");
}

#[test]
fn alias_with_namespace_and_complex_name_1() {
    let (alias, namespace, name, source) = only_keyword("::foo.bar/zip/:zap");
    assert_eq!(alias, true);
    assert_eq!(namespace, Some("foo.bar".to_string()));
    assert_eq!(name, "zip/:zap");
    assert_eq!(source.str, "::foo.bar/zip/:zap");
}

#[test]
fn alias_with_namespace_and_complex_name_2() {
    let (alias, namespace, name, source) = only_keyword("::foo.bar/zip//:zap");
    assert_eq!(alias, true);
    assert_eq!(namespace, Some("foo.bar".to_string()));
    assert_eq!(name, "zip//:zap");
    assert_eq!(source.str, "::foo.bar/zip//:zap");
}

#[test]
fn just_slash_alias() {
    let (alias, namespace, name, source) = only_keyword("::/");
    assert_eq!(alias, true);
    assert_eq!(namespace, None);
    assert_eq!(name, "/");
    assert_eq!(source.str, "::/");
}

#[test]
fn just_slash_alias_with_namespace() {
    let (alias, namespace, name, source) = only_keyword("::foo//");
    assert_eq!(alias, true);
    assert_eq!(namespace, Some("foo".to_string()));
    assert_eq!(name, "/");
    assert_eq!(source.str, "::foo//");
}
