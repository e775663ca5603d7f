use nreplops_tool::lex::lex;
use nreplops_tool::pprint::layout::{solve, Anchor, Chunk, Fragment, Program};
use nreplops_tool::pprint::printer::{print, Command};
use nreplops_tool::pprint::result_printer::{ClojureResultPrinter, FragmentText, PrintError};
use nreplops_tool::pprint::style::{Color, Style};

fn pretty(input: &str) -> String {
    let lexemes = lex(input).unwrap();
    ClojureResultPrinter::new(true, false, 80).print(&lexemes).unwrap()
}

fn plain(input: &str) -> String {
    let lexemes = lex(input).unwrap();
    ClojureResultPrinter::new(false, false, 80).print(&lexemes).unwrap()
}

#[test]
fn unformatted_output_keeps_the_text() {
    assert_eq!(plain("[1  :a/b \"s\" nil]"), "[1  :a/b \"s\" nil]\n");
}

#[test]
fn vectors_of_scalars_are_filled() {
    assert_eq!(pretty("[1   2 3]"), "[1 2 3]\n");
}

#[test]
fn lists_align_after_the_operator() {
    assert_eq!(pretty("(foo bar baz)"), "(foo bar baz)\n");
}

#[test]
fn nested_collections_break_at_the_anchor() {
    assert_eq!(pretty("[[1] [2]]"), "[[1]\n [2]]\n");
}

#[test]
fn map_values_line_up_after_the_widest_key() {
    assert_eq!(pretty("{:a 1, :bb 2}"), "{:a  1\n :bb 2}\n");
}

#[test]
fn maps_with_collection_keys_use_a_space() {
    assert_eq!(pretty("{[1] 2, [3] 4}"), "{[1] 2\n [3] 4}\n");
}

#[test]
fn colors_wrap_the_styled_text() {
    let lexemes = lex("nil").unwrap();
    let out = ClojureResultPrinter::new(true, true, 80).print(&lexemes).unwrap();
    assert_eq!(out, "\u{1b}[31mnil\u{1b}[0m\n");
}

#[test]
fn a_following_style_keeps_the_color_on() {
    let commands = vec![
        Command::SetStyle(Style::SymbolName),
        Command::Text("a".to_string()),
        Command::ResetStyle(Style::SymbolName),
        Command::SetStyle(Style::NumberValue),
        Command::Text("1".to_string()),
        Command::ResetStyle(Style::NumberValue),
    ];
    assert_eq!(print(&commands, true), "\u{1b}[37ma1\u{1b}[0m");
    assert_eq!(print(&commands, false), "a1");
}

#[test]
fn style_colors() {
    assert_eq!(Style::KeywordName.to_ansi_color(), Color::BrightBlue);
    assert_eq!(Style::NilValue.to_ansi_color(), Color::Red);
    assert_eq!(Color::BrightWhite.code(), 15);
}

#[test]
fn a_missing_anchor_gives_no_layout() {
    let p = Program { anchor_count: 0, chunks: vec![Chunk::JumpTo { anchor: Anchor(0) }] };
    assert!(solve(&p).is_none());
}

#[test]
fn relative_anchors_and_jumps() {
    let text = |s: &str| Chunk::Text(vec![Fragment { style: Style::SymbolName, text: s.to_string() }]);
    let p = Program {
        anchor_count: 2,
        chunks: vec![
            Chunk::SetAnchor { anchor: Anchor(0) },
            Chunk::SetRelativeAnchor { anchor: Anchor(1), base: Anchor(0), offset: 4 },
            text("ab"),
            Chunk::JumpTo { anchor: Anchor(1) },
            text("c"),
        ],
    };
    let commands = solve(&p).unwrap();
    assert_eq!(print(&commands, false), "ab  c");
}

#[test]
fn unbuildable_results_are_reported() {
    let lexemes = lex("1 2").unwrap();
    let r = ClojureResultPrinter::new(true, false, 80).print(&lexemes);
    assert!(matches!(r, Err(PrintError::Build(_))));
}

#[test]
fn fragment_text_reads_both_ways() {
    assert_eq!(FragmentText::Borrowed("x").as_str(), "x");
    assert_eq!(FragmentText::Owned("y".to_string()).as_str(), "y");
}

#[test]
fn soft_spaces_are_dropped_at_the_start_of_a_line() {
    let text = |s: &str| Chunk::Text(vec![Fragment { style: Style::SymbolName, text: s.to_string() }]);
    let p = Program {
        anchor_count: 1,
        chunks: vec![
            Chunk::SoftSpace,
            Chunk::SetAnchor { anchor: Anchor(0) },
            text("a"),
            Chunk::SoftSpace,
            text("b"),
            Chunk::HardBreak { anchor: Anchor(0) },
            Chunk::SoftSpace,
            text("c"),
        ],
    };
    let commands = solve(&p).unwrap();
    assert_eq!(print(&commands, false), "a b\nc");
}

#[test]
fn colors_only_add_escape_sequences() {
    let text = |st: Style, s: &str| Chunk::Text(vec![Fragment { style: st, text: s.to_string() }]);
    let p = Program {
        anchor_count: 0,
        chunks: vec![
            text(Style::SymbolName, "foo"),
            Chunk::SoftSpace,
            text(Style::SymbolName, "bar"),
            Chunk::SoftSpace,
            text(Style::KeywordName, ":baz"),
        ],
    };
    let commands = solve(&p).unwrap();
    let colored = print(&commands, true);
    let mut stripped = String::new();
    let mut in_escape = false;
    for c in colored.chars() {
        if in_escape {
            in_escape = c != 'm';
        } else if c == '\u{1B}' {
            in_escape = true;
        } else {
            stripped.push(c);
        }
    }
    assert!(colored.contains('\u{1B}'));
    assert_eq!(stripped, print(&commands, false));
}

#[test]
fn pretty_strings_drop_their_end_characters() {
    assert_eq!(pretty("[\"abc\" \"xy\"]"), "[\"b\" \"\"]\n");
    assert_eq!(pretty("{\"key\" 1}"), "{\"e\" 1}\n");
}

#[test]
fn symbolic_values_print_their_whole_text_after_the_prefix() {
    assert_eq!(pretty("[##Inf ## -Inf]"), "[####Inf #### -Inf]\n");
    assert_eq!(plain("##NaN"), "####NaN\n");
}

#[test]
fn colored_output_is_the_plain_output_with_escapes_where_colors_change() {
    let commands = vec![
        Command::SetStyle(Style::SymbolName),
        Command::Text("a".to_string()),
        Command::ResetStyle(Style::SymbolName),
        Command::Space(1),
        Command::SetStyle(Style::SymbolName),
        Command::Text("b".to_string()),
        Command::ResetStyle(Style::SymbolName),
        Command::SetStyle(Style::SymbolName),
        Command::Text("c".to_string()),
        Command::ResetStyle(Style::SymbolName),
    ];
    let plain_out = print(&commands, false);
    let colored = print(&commands, true);
    assert_eq!(plain_out, "a bc");
    assert_eq!(colored, "\u{1b}[37ma\u{1b}[0m \u{1b}[37mbc\u{1b}[0m");
}

#[test]
fn map_keys_are_measured_in_bytes() {
    assert_eq!(pretty("{:\u{e9} 1, :b 2}"), "{:\u{e9}  1\n :b  2}\n");
}
