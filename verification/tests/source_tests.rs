use doc_core::config::ValueWrapper;
use doc_core::source::Source;

fn chars(s: &str) -> Vec<char> {
    s.chars().collect()
}

#[test]
fn lib_test() {
    let source = Source::from_prebuild_include(r#"
asdada
ada
include::sasasa[asasa]
adasda
adad
        "#.trim(), |e| -> Option<String>{
            println!("include {e}");
            Some(String::from(format!("include item by {}", e)))
        });
    println!("{}", source.to_text());
    assert_eq!(source.lines.len(), 5);
    assert_eq!(source.lines[2], chars("include item by sasasa"));
    assert_eq!(source.lines[0], chars("asdada"));
    assert_eq!(source.lines[4], chars("adad"));
}

#[test]
fn test_new() {
    let source = Source::from(r#"line 1
测试行数 2
line 3"#);
    assert_eq!(source.length, 18);
    assert_eq!(source.lines[2], "line 3".chars().collect::<Vec<char>>())
}

#[test]
fn lines_follow_std() {
    for text in [
        "",
        "a",
        "a\n",
        "a\n\n",
        "\n",
        "\r\n",
        "a\r\nb",
        "a\r",
        "a\r\n",
        "foo\nbar\n\r\nbaz\r",
        "\r",
        "a\r\r\nb\n",
        "x\n\ny",
    ] {
        let expected: Vec<Vec<char>> = text.lines().map(chars).collect();
        let source = Source::from(text);
        assert_eq!(source.lines, expected, "lines of {:?}", text);
        let total: usize = expected.iter().map(|l| l.len()).sum();
        assert_eq!(source.length, total);
    }
}

#[test]
fn line_hook_sees_every_line_in_order() {
    let source = Source::from_line_hook("ab\ncd\r\nef", |line| format!("<{}>", line));
    assert_eq!(source.lines, vec![chars("<ab>"), chars("<cd>"), chars("<ef>")]);
    assert_eq!(source.length, 12);
}

#[test]
fn line_hook_identity_is_from() {
    let text = "one\ntwo\n\nthree";
    let hooked = Source::from_line_hook(text, |line| line.to_string());
    let plain = Source::from(text);
    assert_eq!(hooked.lines, plain.lines);
    assert_eq!(hooked.length, plain.length);
}

#[test]
fn unresolved_include_keeps_line_behind_a_space() {
    let source = Source::from_prebuild_include("a\ninclude::x.adoc[k=1]\nb", |_| None);
    assert_eq!(
        source.lines,
        vec![chars("a"), chars(" include::x.adoc[k=1]"), chars("b")]
    );
    assert_eq!(source.length, 1 + 21 + 1);
}

#[test]
fn include_resolver_gets_the_path() {
    let source = Source::from_prebuild_include("include::dir/file.txt[]", |path| {
        Some(path.to_uppercase())
    });
    assert_eq!(source.lines, vec![chars("DIR/FILE.TXT")]);
}

#[test]
fn lines_that_are_no_directive_stay() {
    for line in [
        "include::x",
        "include::x]",
        "include::x[",
        "include:x[a]",
        " include::x[a]",
        "include::x[a] ",
        "Include::x[a]",
        "include:",
    ] {
        let source = Source::from_prebuild_include(line, |_| Some("replaced".to_string()));
        assert_eq!(source.lines, vec![chars(line)], "line {:?}", line);
        assert!(Source::parse_include(line).unwrap().is_none());
    }
}

#[test]
fn include_path_stops_at_the_first_bracket() {
    assert_eq!(
        Source::include_path_of(&chars("include::a]b[c[d]")),
        Some("a]b".to_string())
    );
    assert_eq!(Source::include_path_of(&chars("include::[]")), Some(String::new()));
    assert_eq!(Source::include_path_of(&chars("include::[")), None);
}

#[test]
fn parse_include_reads_path_and_options() {
    let info = Source::parse_include("include::part.adoc[lines=5;tags=a,b]")
        .unwrap()
        .unwrap();
    assert_eq!(info.path, "part.adoc");
    assert_eq!(info.options.len(), 2);
    assert!(matches!(info.options.get("lines"), Some(ValueWrapper::Number(5))));
    match info.options.get("tags") {
        Some(ValueWrapper::Array(items)) => assert_eq!(items, &vec!["a".to_string(), "b".to_string()]),
        other => panic!("unexpected {:?}", other),
    }
}

#[test]
fn parse_include_reports_options_that_clash() {
    assert!(Source::parse_include("include::p[a=1;a=2]").is_err());
}

#[test]
fn substitute_line_takes_the_answer_or_indents() {
    assert_eq!(
        Source::substitute_line(&chars("include::p[]"), Some("text".to_string())),
        chars("text")
    );
    assert_eq!(
        Source::substitute_line(&chars("include::p[]"), None),
        chars(" include::p[]")
    );
}

#[test]
fn to_text_ends_every_line() {
    assert_eq!(Source::from("a\nbc").to_text(), "a\r\nbc\r\n");
    assert_eq!(Source::from("").to_text(), "");
}
