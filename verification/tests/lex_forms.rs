use nreplops_tool::lex::{
    lex, CharSyntax, Lexeme, NumberClass, NumericValue, StringFragment, SymbolicValue, Token,
};

fn lexemes(input: &str) -> Vec<Lexeme> {
    match lex(input) {
        Ok(lexemes) => lexemes,
        Err(e) => panic!("failed to parse input: \"{input}\": {e:?}"),
    }
}

fn ixs(l: &Lexeme) -> (u32, u32) {
    (l.form_ix, l.parent_ix)
}

#[test]
fn intermingled_discards_and_meta() {
    let ls = lexemes("#_ #_{} ^{} {} {}");
    assert_eq!(ls.len(), 15);
    assert_eq!(ixs(&ls[0]), (2, 0));
    assert!(matches!(ls[0].token, Token::Discard));
    assert_eq!(ixs(&ls[1]), (3, 2));
    assert!(matches!(ls[1].token, Token::Whitespace));
    assert_eq!(ixs(&ls[2]), (5, 2));
    assert!(matches!(ls[2].token, Token::Discard));
    assert_eq!(ixs(&ls[3]), (6, 5));
    assert!(matches!(ls[3].token, Token::StartMap));
    assert_eq!(ixs(&ls[4]), (6, 5));
    assert!(matches!(ls[4].token, Token::EndMap));
    assert!(matches!(ls[5].token, Token::Whitespace));
    assert_eq!(ixs(&ls[5]), (7, 2));
    assert_eq!(ixs(&ls[6]), (4, 2));
    assert!(matches!(ls[6].token, Token::Meta { metaform_ix: 8, subform_ix: 9 }));
    assert_eq!(ixs(&ls[7]), (8, 4));
    assert!(matches!(ls[7].token, Token::StartMap));
    assert_eq!(ixs(&ls[8]), (8, 4));
    assert!(matches!(ls[8].token, Token::EndMap));
    assert_eq!(ixs(&ls[9]), (10, 4));
    assert!(matches!(ls[9].token, Token::Whitespace));
    assert_eq!(ixs(&ls[10]), (9, 4));
    assert!(matches!(ls[10].token, Token::StartMap));
    assert_eq!(ixs(&ls[11]), (9, 4));
    assert!(matches!(ls[11].token, Token::EndMap));
    assert!(matches!(ls[12].token, Token::Whitespace));
    assert_eq!(ixs(&ls[13]), (1, 0));
    assert!(matches!(ls[13].token, Token::StartMap));
    assert_eq!(ixs(&ls[14]), (1, 0));
    assert!(matches!(ls[14].token, Token::EndMap));
}

#[test]
fn sources_carry_line_and_column() {
    let ls = lexemes("(foo\n  :bar)");
    let texts: Vec<(String, u32, u32)> = ls
        .iter()
        .map(|l| {
            let s = l.source.clone().unwrap();
            (s.str, s.line, s.column)
        })
        .collect();
    assert_eq!(
        texts,
        vec![
            ("(".to_string(), 1, 1),
            ("foo".to_string(), 1, 2),
            ("\n  ".to_string(), 1, 5),
            (":bar".to_string(), 2, 3),
            (")".to_string(), 2, 7),
        ]
    );
}

#[test]
fn numbers_of_each_class() {
    let ls = lexemes("42 -0x1F 017 3N 1.5 2e3 1.5M 1/2 2r101");
    let nums: Vec<(NumberClass, NumericValue)> = ls
        .into_iter()
        .filter_map(|l| match l.token {
            Token::Numeric { class, value } => Some((class, value)),
            _ => None,
        })
        .collect();
    let int = |positive: bool, radix: u32, value: &str| NumericValue::Int {
        positive,
        radix,
        value: value.to_string(),
    };
    let float = |value: &str| NumericValue::Float { value: value.to_string() };
    assert_eq!(
        nums,
        vec![
            (NumberClass::Long, int(true, 10, "42")),
            (NumberClass::Long, int(false, 16, "1F")),
            (NumberClass::Long, int(true, 8, "17")),
            (NumberClass::BigInt, int(true, 10, "3")),
            (NumberClass::Double, float("1.5")),
            (NumberClass::Double, float("2e3")),
            (NumberClass::BigDecimal, float("1.5")),
            (
                NumberClass::Ratio,
                NumericValue::Fraction {
                    positive: true,
                    numerator: "1".to_string(),
                    denominator: "2".to_string()
                }
            ),
            (NumberClass::Long, int(true, 2, "101")),
        ]
    );
}

#[test]
fn strings_chars_and_symbols() {
    let ls = lexemes(r#""a\nb" \newline \x ##Inf foo/bar nil true"#);
    let tokens: Vec<Token> = ls
        .into_iter()
        .map(|l| l.token)
        .filter(|t| !matches!(t, Token::Whitespace | Token::SymbolicValuePrefix))
        .collect();
    assert_eq!(tokens.len(), 7);
    match &tokens[0] {
        Token::String { raw_value, value } => {
            assert_eq!(raw_value, "a\\nb");
            assert_eq!(
                value,
                &vec![
                    StringFragment::Unescaped { value: "a".to_string() },
                    StringFragment::Escaped { code: 10 },
                    StringFragment::Unescaped { value: "b".to_string() },
                ]
            );
        }
        t => panic!("expected a string, got {t:?}"),
    }
    assert!(matches!(tokens[1], Token::Char { syntax: CharSyntax::Name, value: '\n' }));
    assert!(matches!(tokens[2], Token::Char { syntax: CharSyntax::Simple, value: 'x' }));
    assert!(matches!(tokens[3], Token::SymbolicValue { value: SymbolicValue::PosInf }));
    match &tokens[4] {
        Token::Symbol { namespace, name } => {
            assert_eq!(namespace.as_deref(), Some("foo"));
            assert_eq!(name, "bar");
        }
        t => panic!("expected a symbol, got {t:?}"),
    }
    assert!(matches!(tokens[5], Token::Nil));
    assert!(matches!(tokens[6], Token::Boolean { value: true }));
}

#[test]
fn tagged_literal_and_reader_conditional() {
    let ls = lexemes("#inst \"2022\" #?(:clj 1)");
    match &ls[0].token {
        Token::TaggedLiteral { tag_ix, arg_ix } => {
            assert_eq!((*tag_ix, *arg_ix), (2, 3));
            assert_eq!(ls[0].source.as_ref().unwrap().str, "#inst \"2022\"");
        }
        t => panic!("expected a tagged literal, got {t:?}"),
    }
    assert!(matches!(ls[1].token, Token::Tag { .. }));
    assert_eq!(ixs(&ls[1]), (2, 1));
    assert!(ls
        .iter()
        .any(|l| matches!(l.token, Token::ReaderConditionalPrefix { splicing: false })));
}

#[test]
fn unbalanced_input_is_refused() {
    assert!(lex("(foo").is_err());
    assert!(lex("foo)").is_err());
    assert!(lex("\"open").is_err());
    assert!(lex("[1 #_]").is_err());
}

#[test]
fn trailing_discard_in_a_body() {
    let ls = lexemes("[1 #_2]");
    assert!(matches!(ls.last().unwrap().token, Token::EndVector));
    assert!(ls.iter().any(|l| matches!(l.token, Token::Discard)));
}

#[test]
fn escapes_codes_and_symbolic_names_are_decoded() {
    let ls = lexemes(r#"\o101 \u00e9 "x\101\u0041y" ## -Inf ##foo"#);
    let tokens: Vec<Token> = ls
        .into_iter()
        .map(|l| l.token)
        .filter(|t| !matches!(t, Token::Whitespace | Token::SymbolicValuePrefix))
        .collect();
    assert_eq!(tokens.len(), 5);
    assert!(matches!(tokens[0], Token::Char { syntax: CharSyntax::Octal, value: 'A' }));
    assert!(matches!(tokens[1], Token::Char { syntax: CharSyntax::CodePoint, value: 'é' }));
    match &tokens[2] {
        Token::String { raw_value, value } => {
            assert_eq!(raw_value, "x\\101\\u0041y");
            assert_eq!(
                value,
                &vec![
                    StringFragment::Unescaped { value: "x".to_string() },
                    StringFragment::Escaped { code: 65 },
                    StringFragment::Escaped { code: 65 },
                    StringFragment::Unescaped { value: "y".to_string() },
                ]
            );
        }
        t => panic!("expected a string, got {t:?}"),
    }
    assert!(matches!(tokens[3], Token::SymbolicValue { value: SymbolicValue::NegInf }));
    match &tokens[4] {
        Token::SymbolicValue { value: SymbolicValue::Other(name) } => assert_eq!(name, "foo"),
        t => panic!("expected a symbolic value, got {t:?}"),
    }
}
