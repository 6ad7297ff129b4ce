use rproxy::error::Error;
use rproxy::directive::Directive;
use rproxy::number::{port_of, push_decimal};
use rproxy::text::{
    chars_of, cut, cut_pair, find, find_pair, leading, same, string_of, trailing, trimmed,
    trimmed_end, trimmed_start, whitespace, width, word,
};

fn chars(s: &str) -> Vec<char> {
    s.chars().collect()
}

fn text(s: &[char]) -> String {
    s.iter().collect()
}

#[test]
fn whitespace_is_the_unicode_property() {
    let mut c = 0u32;
    while c <= 0x10FFFF {
        if let Some(ch) = char::from_u32(c) {
            assert_eq!(whitespace(ch), ch.is_whitespace(), "U+{:04X}", c);
        }
        c += 1;
    }
}

#[test]
fn width_is_the_utf8_length() {
    let mut c = 0u32;
    while c <= 0x10FFFF {
        if let Some(ch) = char::from_u32(c) {
            assert_eq!(width(ch), ch.len_utf8(), "U+{:04X}", c);
        }
        c += 1;
    }
}

#[test]
fn trimming_agrees_with_std() {
    let samples = [
        "", " ", "a", " a", "a ", "  a b  ", "\t\r\n x \u{3000}", "\u{a0}y\u{2003}", "   ",
        "a  b", "\n", "=>", " /x => y:1 ",
    ];
    for s in samples.iter() {
        let v = chars(s);
        assert_eq!(text(trimmed(&v)), s.trim(), "{:?}", s);
        assert_eq!(text(trimmed_start(&v)), s.trim_start(), "{:?}", s);
        assert_eq!(text(trimmed_end(&v)), s.trim_end(), "{:?}", s);
        assert_eq!(leading(&v), s.chars().count() - s.trim_start().chars().count());
        assert_eq!(trailing(&v), s.chars().count() - s.trim_end().chars().count());
    }
}

#[test]
fn find_gives_first_position_or_length() {
    assert_eq!(find(&chars("a:b:c"), ':'), 1);
    assert_eq!(find(&chars(":"), ':'), 0);
    assert_eq!(find(&chars("abc"), ':'), 3);
    assert_eq!(find(&chars(""), ':'), 0);
    assert_eq!(find_pair(&chars("a//b//"), '/', '/'), 1);
    assert_eq!(find_pair(&chars("a/b/"), '/', '/'), 4);
    assert_eq!(find_pair(&chars("/"), '/', '/'), 1);
    assert_eq!(find_pair(&chars(""), '/', '/'), 0);
    assert_eq!(find_pair(&chars("a=>"), '=', '>'), 1);
    assert_eq!(find_pair(&chars("==>"), '=', '>'), 1);
}

#[test]
fn cut_splits_at_the_first_separator() {
    for s in ["a:b:c", ":", "abc", "", "server: x", "a:"].iter() {
        let v = chars(s);
        let got = cut(&v, ':').map(|(a, b)| (text(a), text(b)));
        let want = s.split_once(':').map(|(a, b)| (a.to_string(), b.to_string()));
        assert_eq!(got, want, "{:?}", s);
    }
    for s in ["/a => b", "=>", "a=>b=>c", "a = > b", "a=", ">=", "", "==>>"].iter() {
        let v = chars(s);
        let got = cut_pair(&v, '=', '>').map(|(a, b)| (text(a), text(b)));
        let want = s.split_once("=>").map(|(a, b)| (a.to_string(), b.to_string()));
        assert_eq!(got, want, "{:?}", s);
    }
}

#[test]
fn word_is_one_run_without_white_space() {
    for s in ["", "a", "a b", " a", "a ", "/x/y", "a\tb", "a\u{3000}b", "127.0.0.1:80"].iter() {
        assert_eq!(word(&chars(s)), s.split_whitespace().count() == 1 && s.trim() == *s, "{:?}", s);
    }
}

#[test]
fn same_compares_all_characters() {
    assert!(same(&chars("abc"), &chars("abc")));
    assert!(same(&chars(""), &chars("")));
    assert!(!same(&chars("abc"), &chars("abd")));
    assert!(!same(&chars("abc"), &chars("ab")));
    assert!(!same(&chars("ab"), &chars("abc")));
}

#[test]
fn strings_and_characters_convert_both_ways() {
    for s in ["", "a", "héllo wörld", "\u{10348}x", "8080"].iter() {
        assert_eq!(chars_of(s), chars(s));
        assert_eq!(string_of(&chars(s)), *s);
    }
}

#[test]
fn port_of_agrees_with_std() {
    let samples = [
        "0", "1", "80", "8080", "65535", "65536", "65540", "99999", "100000", "000080",
        "00000000000000065535", "00000000000000065536", "+80", "+", "-", "-1", "+-1", "++1", "",
        " 80", "80 ", "8 0", "0x50", "80a", "a80", "９", "6553a", "65536a", "999999999999a",
        "1_000", "٣",
    ];
    for s in samples.iter() {
        let got = port_of(&chars(s)).map_err(|e| e.message());
        let want = s.parse::<u16>().map_err(|e| e.to_string());
        assert_eq!(got, want, "{:?}", s);
    }
}

#[test]
fn port_of_reads_every_port() {
    for n in 0..=u16::MAX {
        assert_eq!(port_of(&chars(&n.to_string())).ok(), Some(n));
    }
}

#[test]
fn port_of_names_each_refusal() {
    assert_eq!(port_of(&chars("")).err().unwrap().message(), "cannot parse integer from empty string");
    assert_eq!(port_of(&chars("http")).err().unwrap().message(), "invalid digit found in string");
    assert_eq!(port_of(&chars("70000")).err().unwrap().message(), "number too large to fit in target type");
}

#[test]
fn push_decimal_writes_every_port() {
    for n in 0..=u16::MAX {
        let mut out = chars("x:");
        push_decimal(&mut out, n);
        assert_eq!(text(&out), format!("x:{}", n));
    }
}

#[test]
fn directive_get_knows_the_four_names() {
    assert_eq!(Directive::get("port").unwrap(), Directive::Port);
    assert_eq!(Directive::get("server").unwrap(), Directive::Server);
    assert_eq!(Directive::get("paths").unwrap(), Directive::Paths);
    assert_eq!(Directive::get("ssl").unwrap(), Directive::Ssl);
    for s in ["", "Port", "port ", " ssl", "path", "certificate", "servers"].iter() {
        assert_eq!(Directive::get(s).err().unwrap().message(), "invalid directive", "{:?}", s);
    }
}

#[test]
fn directive_server_alone_is_singular() {
    assert!(Directive::Server.is_singular());
    assert!(!Directive::Port.is_singular());
    assert!(!Directive::Paths.is_singular());
    assert!(!Directive::Ssl.is_singular());
}

#[test]
fn error_carries_its_message() {
    let e = Error::new("invalid depth");
    assert_eq!(e.message(), "invalid depth");
    assert_eq!(e.0, "invalid depth");
    assert_eq!(format!("{:?}", e), "Error(\"invalid depth\")");
    assert_eq!(e.clone().message(), "invalid depth");
    assert_eq!(Error::with("os error".to_string()).message(), "os error");
}
