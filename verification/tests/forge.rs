use mbombo::cli::{required_args, MissingArgument, Shell};
use mbombo::custom::Replacement;
use mbombo::pattern::{compile_word_pattern, matches_line, word_bounded_pattern};
use mbombo::text::{chars_of, join_with_newlines, replace_chars, split_lines, string_of};
use mbombo::util::{normalize_paths, plan_sources, render_source, ForgeError, SourcePlan};
use mbombo::{apply_replacements, IDENTITY};

fn rule(old: &str, new: &str, mode: &str) -> Replacement {
    Replacement { old: old.to_string(), new: new.to_string(), mode: mode.to_string() }
}

fn parsed(s: &str) -> (String, String, String) {
    let r = Replacement::parse(s).unwrap();
    (r.old, r.new, r.mode)
}

fn strs(v: &[&str]) -> Vec<String> {
    v.iter().map(|s| s.to_string()).collect()
}

#[test]
fn parse_default_token_mode() {
    assert_eq!(parsed("VERSION=1.0.0"), ("VERSION".into(), "1.0.0".into(), "token".into()));
}

#[test]
fn parse_explicit_token_mode() {
    assert_eq!(parsed("{{YEAR}}=2026:token"), ("{{YEAR}}".into(), "2026".into(), "token".into()));
}

#[test]
fn parse_line_mode_with_empty_new() {
    assert_eq!(parsed("console.log=:line"), ("console.log".into(), "".into(), "line".into()));
}

#[test]
fn parse_splits_at_first_equals() {
    assert_eq!(parsed("a=b=c"), ("a".into(), "b=c".into(), "token".into()));
    assert_eq!(
        parsed("API_URL=https://api.example.com"),
        ("API_URL".into(), "https://api.example.com".into(), "token".into())
    );
}

#[test]
fn parse_only_last_suffix_is_the_mode() {
    assert_eq!(parsed("x=y:line:token"), ("x".into(), "y:line".into(), "token".into()));
    assert_eq!(parsed("x=:line"), ("x".into(), "".into(), "line".into()));
    assert_eq!(parsed("=v"), ("".into(), "v".into(), "token".into()));
}

#[test]
fn parse_without_equals_fails() {
    let err = Replacement::parse("noequals").unwrap_err();
    assert_eq!(err, "invalid replace pair");
}

#[test]
fn parse_through_from_str() {
    let r: Replacement = "v0.0.0=v1.2.3".parse().unwrap();
    assert_eq!((r.old, r.new, r.mode), ("v0.0.0".to_string(), "v1.2.3".to_string(), "token".to_string()));
    assert!("broken".parse::<Replacement>().is_err());
}

#[test]
fn token_rule_replaces_every_occurrence() {
    let out = apply_replacements("hello world\nworld peace world", &[rule("world", "earth", "token")]);
    assert_eq!(out, "hello earth\nearth peace earth");
}

#[test]
fn token_rule_is_not_overlapping() {
    let out = apply_replacements("aaaa\naaa", &[rule("aa", "b", "token")]);
    assert_eq!(out, "bb\nba");
}

#[test]
fn token_rule_with_empty_old_inserts_everywhere() {
    assert_eq!(apply_replacements("ab", &[rule("", "x", "token")]), "xaxbx");
}

#[test]
fn unknown_mode_is_token() {
    assert_eq!(apply_replacements("a-a", &[rule("a", "b", "whatever")]), "b-b");
}

#[test]
fn line_rule_replaces_whole_lines() {
    let src = "let a = 1;\nconsole.log(a);\nreturn a;";
    let out = apply_replacements(src, &[rule("console.log", "", "line")]);
    assert_eq!(out, "let a = 1;\n\nreturn a;");
}

#[test]
fn line_rule_needs_a_whole_word() {
    let out = apply_replacements("foobar\nfoo bar\nbarfoo", &[rule("foo", "X", "line")]);
    assert_eq!(out, "foobar\nX\nbarfoo");
}

#[test]
fn line_rule_matches_text_literally() {
    let out = apply_replacements("axb\na.b c", &[rule("a.b", "hit", "line")]);
    assert_eq!(out, "axb\nhit");
}

#[test]
fn rules_apply_in_order() {
    assert_eq!(apply_replacements("a", &[rule("a", "b", "token"), rule("b", "c", "token")]), "c");
    assert_eq!(apply_replacements("a", &[rule("b", "c", "token"), rule("a", "b", "token")]), "b");
}

#[test]
fn lines_drop_crlf_and_final_newline() {
    assert_eq!(apply_replacements("a\r\nb\r\n", &[]), "a\nb");
    assert_eq!(apply_replacements("a\nb\n", &[]), "a\nb");
    assert_eq!(apply_replacements("a\n\nb", &[]), "a\n\nb");
    assert_eq!(apply_replacements("a\r", &[]), "a\r");
    assert_eq!(apply_replacements("", &[]), "");
    assert_eq!(apply_replacements("\n", &[]), "");
}

#[test]
fn no_rules_keep_plain_text() {
    let text = "header\n  body line\nfooter";
    assert_eq!(apply_replacements(text, &[]), text);
}

#[test]
fn rule_with_same_old_and_new_changes_nothing() {
    let text = "x y x\nz";
    assert_eq!(apply_replacements(text, &[rule("x", "x", "token")]), text);
    assert_eq!(apply_replacements(text, &[rule("", "", "token")]), text);
}

#[test]
fn rendered_source_ends_in_one_newline() {
    assert_eq!(render_source("x\n\n\n", &[]), "x\n");
    assert_eq!(render_source("", &[]), "\n");
    assert_eq!(render_source("a\nb", &[rule("b", "c", "token")]), "a\nc\n");
    assert_eq!(render_source("a\nDROP", &[rule("DROP", "", "line")]), "a\n");
}

#[test]
fn plan_overwrite_single() {
    match plan_sources(&strs(&["README.md"]), "README.md", None, ".") {
        Ok(SourcePlan::OverwriteSingle { tmp_file }) => assert_eq!(tmp_file, "README.md.tmp"),
        _ => panic!("expected an overwrite through a temporary copy"),
    }
}

#[test]
fn plan_refuses_output_among_several_inputs() {
    assert!(matches!(
        plan_sources(&strs(&["a.txt", "out.txt"]), "out.txt", Some("build"), "build"),
        Err(ForgeError::OverwriteWithMultipleInputs)
    ));
}

#[test]
fn plan_separate_sources() {
    assert!(matches!(plan_sources(&strs(&["a.txt", "b.txt"]), "out.txt", None, "."), Ok(SourcePlan::Separate)));
    assert!(matches!(plan_sources(&strs(&["a.txt"]), "out.txt", None, "."), Ok(SourcePlan::Separate)));
    assert!(matches!(plan_sources(&strs(&[]), "out.txt", None, "."), Ok(SourcePlan::Separate)));
}

#[test]
fn plan_reads_from_another_input_directory() {
    assert!(matches!(plan_sources(&strs(&["a.txt"]), "a.txt", Some("src"), "."), Ok(SourcePlan::Separate)));
    assert!(matches!(
        plan_sources(&strs(&["a.txt", "b.txt"]), "a.txt", Some("src"), "."),
        Ok(SourcePlan::Separate)
    ));
}

#[test]
fn plan_same_directory_written_differently() {
    match plan_sources(&strs(&["a.txt"]), "a.txt", Some("./"), ".") {
        Ok(SourcePlan::OverwriteSingle { tmp_file }) => assert_eq!(tmp_file, "a.txt.tmp"),
        _ => panic!("expected an overwrite through a temporary copy"),
    }
}

#[test]
fn escape_marks_meta_characters() {
    assert_eq!(word_bounded_pattern("x"), "\\bx\\b");
    let compiled = compile_word_pattern("a.b").unwrap();
    assert!(!matches_line(&compiled, &chars_of("")));
    assert!(!matches_line(&compiled, &chars_of("axb")));
}

#[test]
fn normalize_single_file_with_directory() {
    let mut files = strs(&["templates/base.tmpl"]);
    let r = normalize_paths(None, &mut files, "build/index.html").unwrap();
    assert_eq!(r, (Some("templates".to_string()), "build".to_string(), "index.html".to_string()));
    assert_eq!(files, strs(&["base.tmpl"]));
}

#[test]
fn normalize_keeps_several_files() {
    let mut files = strs(&["base.tmpl", "nav.tmpl"]);
    let r = normalize_paths(Some("templates/"), &mut files, "page.html").unwrap();
    assert_eq!(r, (Some("templates/".to_string()), ".".to_string(), "page.html".to_string()));
    assert_eq!(files, strs(&["base.tmpl", "nav.tmpl"]));
}

#[test]
fn normalize_plain_file_names() {
    let mut files = strs(&["README.md"]);
    let r = normalize_paths(None, &mut files, "README.md").unwrap();
    assert_eq!(r, (None, ".".to_string(), "README.md".to_string()));
    assert_eq!(files, strs(&["README.md"]));
}

#[test]
fn normalize_output_without_file_name() {
    let mut files = strs(&["a.txt"]);
    assert_eq!(normalize_paths(None, &mut files, "dir/.."), None);
    assert_eq!(files, strs(&["a.txt"]));
}

#[test]
fn normalize_root_directory_file() {
    let mut files = strs(&["/file.txt"]);
    let r = normalize_paths(Some("ignored"), &mut files, "out/x.txt").unwrap();
    assert_eq!(r, (Some("/".to_string()), "out".to_string(), "x.txt".to_string()));
    assert_eq!(files, strs(&["file.txt"]));
}

#[test]
fn required_args_order() {
    assert_eq!(required_args(None, None).unwrap_err(), MissingArgument::Out);
    assert_eq!(required_args(None, Some(strs(&["a"]))).unwrap_err(), MissingArgument::Out);
    assert_eq!(required_args(Some("o".into()), None).unwrap_err(), MissingArgument::Files);
    assert_eq!(required_args(Some("o".into()), Some(strs(&["a"]))).unwrap(), ("o".to_string(), strs(&["a"])));
}

#[test]
fn text_helpers() {
    let s = chars_of("a\r\nb");
    let lines = split_lines(&s);
    assert_eq!(lines, vec![vec!['a'], vec!['b']]);
    assert_eq!(string_of(&join_with_newlines(&lines)), "a\nb");
    assert_eq!(string_of(&replace_chars(&chars_of("abab"), &chars_of("b"), &chars_of("xy"))), "axyaxy");
}

#[test]
fn word_pattern_escapes_and_bounds() {
    assert_eq!(word_bounded_pattern("a\\.b"), "\\ba\\.b\\b");
    let compiled = compile_word_pattern("1+1").unwrap();
    assert!(matches_line(&compiled, &chars_of("is 1+1 two")));
    assert!(!matches_line(&compiled, &chars_of("is 11 two")));
}

#[test]
fn shells_and_identity() {
    let s = Shell::Zsh;
    let t = s;
    assert_eq!(s, t);
    assert_ne!(Shell::Bash, Shell::Fish);
    assert!(IDENTITY.contains("Mbombo"));
}

#[test]
fn plan_same_directory_with_trailing_slash() {
    assert!(matches!(
        plan_sources(&strs(&["a.txt", "out.txt"]), "out.txt", Some("out/"), "out"),
        Err(ForgeError::OverwriteWithMultipleInputs)
    ));
}

#[test]
fn normalize_nested_single_input() {
    let mut files = strs(&["src/page/a.html"]);
    let r = normalize_paths(None, &mut files, "output/page.html").unwrap();
    assert_eq!(r, (Some("src/page".to_string()), "output".to_string(), "page.html".to_string()));
    assert_eq!(files, strs(&["a.html"]));
    let again = normalize_paths(None, &mut files, "output/page.html").unwrap();
    assert_eq!(again.0, None);
    assert_eq!(files, strs(&["a.html"]));
}
