use rproxy::layout::{all_multiples, clean_line, indent_of, least_of, split_lines};
use rproxy::config::ListenerConfig;

fn lines(text: &str) -> Vec<(usize, String)> {
    ListenerConfig::measure(text).unwrap()
}

fn refusal(text: &str) -> String {
    ListenerConfig::measure(text).err().unwrap().message()
}

fn line(depth: usize, content: &str) -> (usize, String) {
    (depth, content.to_string())
}

#[test]
fn measure_finds_unit_and_depths() {
    let text = "8080\n    server: 127.0.0.1\n    paths:\n        /health => 127.0.0.1:9000\n";
    assert_eq!(
        lines(text),
        vec![
            line(0, "8080"),
            line(1, "server: 127.0.0.1"),
            line(1, "paths:"),
            line(2, "/health => 127.0.0.1:9000"),
        ]
    );
}

#[test]
fn measure_gives_the_same_depths_for_every_unit() {
    let shape = [(0usize, "80"), (1, "server: a"), (1, "paths:"), (2, "/x => b:1"), (0, "81"), (1, "server: c")];
    let mut expected = Vec::new();
    for (depth, content) in shape.iter() {
        expected.push(line(*depth, content));
    }
    for unit in 1..9usize {
        let mut text = String::new();
        for (depth, content) in shape.iter() {
            text.push_str(&" ".repeat(unit * depth));
            text.push_str(content);
            text.push('\n');
        }
        assert_eq!(lines(&text), expected, "unit {}", unit);
    }
}

#[test]
fn measure_takes_tabs_as_indentation() {
    assert_eq!(
        lines("80\n\tserver: a\n\t\t/x => b:1"),
        vec![line(0, "80"), line(1, "server: a"), line(2, "/x => b:1")]
    );
}

#[test]
fn measure_takes_the_least_indentation_as_unit() {
    // No line is indented by one unit of two: the unit is four.
    assert_eq!(lines("80\n    a\n        b"), vec![line(0, "80"), line(1, "a"), line(2, "b")]);
    assert_eq!(lines("80\n        b\n    a"), vec![line(0, "80"), line(2, "b"), line(1, "a")]);
}

#[test]
fn measure_reports_depths_beyond_two() {
    assert_eq!(
        lines("a\n b\n  c\n   d\n       e"),
        vec![line(0, "a"), line(1, "b"), line(2, "c"), line(3, "d"), line(7, "e")]
    );
}

#[test]
fn measure_strips_comments_and_trailing_space() {
    assert_eq!(
        lines("80 // the port\n  server: a   \t\n  paths: // p // q\n"),
        vec![line(0, "80"), line(1, "server: a"), line(1, "paths:")]
    );
}

#[test]
fn measure_drops_blank_and_comment_lines() {
    assert_eq!(
        lines("\n\n// head\n80\n\n  // nested comment\n  server: a\n   \n//tail\n\n"),
        vec![line(0, "80"), line(1, "server: a")]
    );
}

#[test]
fn measure_keeps_a_single_slash() {
    assert_eq!(lines("80\n  /a/b => c:1"), vec![line(0, "80"), line(1, "/a/b => c:1")]);
}

#[test]
fn measure_ignores_indentation_of_first_content() {
    assert_eq!(lines("   80\n      server: a"), vec![line(0, "80"), line(1, "server: a")]);
    assert_eq!(lines("// c\n   80\n      server: a"), vec![line(0, "80"), line(1, "server: a")]);
    assert_eq!(lines("\n \n   80\n  server: a"), vec![line(0, "80"), line(1, "server: a")]);
}

#[test]
fn measure_takes_carriage_returns_as_trailing_space() {
    assert_eq!(lines("80\r\n  server: a\r\n"), vec![line(0, "80"), line(1, "server: a")]);
}

#[test]
fn measure_counts_indentation_in_bytes() {
    // U+3000 is white space of three bytes, U+00A0 of two.
    assert_eq!(
        lines("a\n\u{3000}b\n   c\n      d"),
        vec![line(0, "a"), line(1, "b"), line(1, "c"), line(2, "d")]
    );
    assert_eq!(lines("a\n\u{a0}b\n    c"), vec![line(0, "a"), line(1, "b"), line(2, "c")]);
    assert_eq!(refusal("a\n\u{3000}b\n  c"), "inconsistent indentation");
}

#[test]
fn measure_refuses_text_without_indentation() {
    assert_eq!(refusal(""), "missing directives");
    assert_eq!(refusal("   \n\n"), "missing directives");
    assert_eq!(refusal("// only a comment"), "missing directives");
    assert_eq!(refusal("8080"), "missing directives");
    assert_eq!(refusal("8080\n8081\n"), "missing directives");
    assert_eq!(refusal("   8080"), "missing directives");
}

#[test]
fn measure_refuses_inconsistent_indentation() {
    assert_eq!(refusal("80\n  server: a\n   paths:"), "inconsistent indentation");
    assert_eq!(refusal("80\n    server: a\n  paths:\n   /x => b:1"), "inconsistent indentation");
    assert_eq!(refusal("80\n  a\n  b\n     c"), "inconsistent indentation");
}

#[test]
fn layout_helpers_agree_on_a_sample() {
    let text: Vec<char> = "a // x\n\n  b  \n//c\n\t\u{3000}d".chars().collect();
    let lines: Vec<String> = split_lines(&text).iter().map(|l| l.iter().collect()).collect();
    assert_eq!(lines, vec!["a", "  b", "\t\u{3000}d"]);
    let line: Vec<char> = " x / y // z ".chars().collect();
    assert_eq!(clean_line(&line).iter().collect::<String>(), " x / y");
    let widths: Vec<usize> = split_lines(&text).iter().map(|l| indent_of(l)).collect();
    assert_eq!(widths, vec![0, 2, 4]);
    assert_eq!(least_of(&widths), 2);
    assert_eq!(least_of(&vec![0, 0]), 0);
    assert_eq!(least_of(&Vec::new()), 0);
    assert_eq!(least_of(&vec![9, 0, 3, 6]), 3);
    assert!(all_multiples(&widths, 2));
    assert!(!all_multiples(&widths, 4));
    assert!(all_multiples(&Vec::new(), 7));
}
