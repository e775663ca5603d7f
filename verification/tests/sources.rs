use nreplops_tool::cli::TemplateArg;
use nreplops_tool::sources::{load_sources, Context};

fn named(name: &str, value: &str) -> TemplateArg {
    TemplateArg { pos: None, name: Some(name.to_string()), value: value.to_string() }
}

fn positional(pos: usize, value: &str) -> TemplateArg {
    TemplateArg { pos: Some(pos), name: None, value: value.to_string() }
}

fn render(args: &[TemplateArg], source: &str) -> String {
    Context::from_args(args).render_source(source)
}

#[test]
fn source_without_arguments_is_trimmed() {
    assert_eq!(render(&[], "  (+ 1 2)\n\n"), "(+ 1 2)");
}

#[test]
fn source_shebang_line_is_dropped() {
    assert_eq!(render(&[], "#!/usr/bin/env nr\n(println 1)\n"), "(println 1)");
    assert_eq!(render(&[], "#!/usr/bin/env nr"), "");
    assert_eq!(render(&[], "# not a shebang"), "# not a shebang");
}

#[test]
fn source_unicode_whitespace_is_trimmed() {
    assert_eq!(render(&[], "\u{3000}\u{A0}x\u{2029}"), "x");
    assert_eq!(render(&[], " \t\n "), "");
}

#[test]
fn source_named_argument_is_filled_in() {
    let args = vec![named("x", "42")];
    assert_eq!(render(&args, "(inc #nr[x])"), "(inc 42)");
    assert_eq!(render(&args, "(inc #nr [ x ])"), "(inc 42)");
    assert_eq!(render(&args, "#nr[x] #nr[x]"), "42 42");
}

#[test]
fn source_unknown_key_is_left_alone() {
    let args = vec![named("x", "42")];
    assert_eq!(render(&args, "(inc #nr[y])"), "(inc #nr[y])");
}

#[test]
fn source_positional_argument_counts_from_one() {
    let args = vec![positional(0, "a"), positional(1, "b")];
    assert_eq!(render(&args, "[#nr[1] #nr[2]]"), "[a b]");
    assert_eq!(render(&args, "#nr[0]"), "#nr[0]");
}

#[test]
fn source_later_argument_wins() {
    let args = vec![named("x", "first"), named("x", "second")];
    assert_eq!(render(&args, "#nr[x]"), "second");
}

#[test]
fn source_keys_with_meta_characters_are_escaped() {
    let args = vec![named("a.b", "1")];
    assert_eq!(render(&args, "#nr[a.b] #nr[axb]"), "1 #nr[axb]");
}

#[test]
fn source_substitute_splices_one_match() {
    let c = Context::from_args(&[named("x", "VAL")]);
    let (done, after) = c.substitute("ab#nr[x]cd", 2, 8, "x");
    assert_eq!(done, "abVAL");
    assert_eq!(after, "cd");
    let (done, after) = c.substitute("ab#nr[z]cd", 2, 8, "z");
    assert_eq!(done, "ab#nr[z]");
    assert_eq!(after, "cd");
}

#[test]
fn source_load_sources_keeps_files_and_order() {
    let loaded = vec![
        (None, "#nr[1]".to_string()),
        (Some("a.clj".to_string()), "  (f #nr[1])".to_string()),
    ];
    let sources = load_sources(&loaded, &[positional(0, "v")]);
    assert_eq!(sources.len(), 2);
    assert_eq!(sources[0].content, "v");
    assert_eq!(sources[0].file, None);
    assert_eq!(sources[1].content, "(f v)");
    assert_eq!(sources[1].file, Some("a.clj".to_string()));
}

#[test]
fn source_argument_with_name_and_position_sets_both() {
    let both = TemplateArg { pos: Some(0), name: Some("x".to_string()), value: "v".to_string() };
    let args = vec![named("x", "old"), positional(0, "older"), both];
    assert_eq!(render(&args, "#nr[x] #nr[1]"), "v v");
}
