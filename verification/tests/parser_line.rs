use cicada::parser_line::parse_args;
use cicada::parser_line::parse_commands;
use cicada::parser_line::parse_line;

fn _assert_vec_tuple_eq(a: Vec<(String, String)>, b: Vec<(&str, &str)>) {
    assert_eq!(a.len(), b.len());
    for (i, item) in a.iter().enumerate() {
        let (ref l, ref r) = *item;
        assert_eq!(l, b[i].0);
        assert_eq!(r, b[i].1);
    }
}

fn _assert_vec_str_eq(a: Vec<String>, b: Vec<&str>) {
    println!("a: {:?}", a);
    println!("b: {:?}", b);
    assert_eq!(a.len(), b.len());
    for (i, item) in a.iter().enumerate() {
        assert_eq!(item, b[i]);
    }
}

#[test]
fn test_parse_args() {
    let v = vec![
        ("ls", vec![("", "ls")]),
        ("  ls   ", vec![("", "ls")]),
        ("ls -lh", vec![("", "ls"), ("", "-lh")]),
        ("  ls   -lh   ", vec![("", "ls"), ("", "-lh")]),
        ("ls 'abc'", vec![("", "ls"), ("'", "abc")]),
        ("ls \"Hi 你好\"", vec![("", "ls"), ("\"", "Hi 你好")]),
        ("ls \"abc\"", vec![("", "ls"), ("\"", "abc")]),
        ("echo \"hi $USER\"", vec![("", "echo"), ("\"", "hi $USER")]),
        ("echo 'hi $USER'", vec![("", "echo"), ("'", "hi $USER")]),
        ("echo '###'", vec![("", "echo"), ("'", "###")]),
        ("echo a\\ bc", vec![("", "echo"), ("", "a bc")]),
        ("echo \\#", vec![("", "echo"), ("", "#")]),
        (
            "echo 'hi $USER' |  wc  -l ",
            vec![("", "echo"), ("'", "hi $USER"), ("", "|"), ("", "wc"), ("", "-l")],
        ),
        (
            "echo `uname -m` | wc",
            vec![("", "echo"), ("`", "uname -m"), ("", "|"), ("", "wc")],
        ),
        (
            "echo `uname -m` | wc # test it",
            vec![("", "echo"), ("`", "uname -m"), ("", "|"), ("", "wc")],
        ),
        ("echo '`uname -m`'", vec![("", "echo"), ("'", "`uname -m`")]),
        ("'\"\"\"\"'", vec![("'", "\"\"\"\"")]),
        ("\"\'\'\'\'\"", vec![("\"", "''''")]),
    ];
    for (left, right) in v {
        _assert_vec_tuple_eq(parse_args(left), right);
    }
}

#[test]
fn test_parse_line() {
    let v = vec![
        ("ls", vec!["ls"]),
        ("  ls   ", vec!["ls"]),
        ("ls -lh", vec!["ls", "-lh"]),
        ("ls 'abc'", vec!["ls", "abc"]),
        ("ls a\\ c", vec!["ls", "a c"]),
        ("ls \"abc\"", vec!["ls", "abc"]),
        ("ls \"Hi 你好\"", vec!["ls", "Hi 你好"]),
        ("echo \"hi $USER\"", vec!["echo", "hi $USER"]),
        ("echo 'hi $USER'", vec!["echo", "hi $USER"]),
        ("echo 'hi $USER' |  wc  -l ", vec!["echo", "hi $USER", "|", "wc", "-l"]),
        ("echo `uname -m` | wc", vec!["echo", "uname -m", "|", "wc"]),
        ("echo `uptime` | wc # testing", vec!["echo", "uptime", "|", "wc"]),
        ("awk -F \"[ ,.\\\"]+\"", vec!["awk", "-F", "[ ,.\"]+"]),
    ];

    for (left, right) in v {
        _assert_vec_str_eq(parse_line(left), right);
    }
}

#[test]
fn test_parse_commands() {
    let v = vec![
        ("ls", vec!["ls"]),
        ("ls -lh", vec!["ls -lh"]),
        (
            "awk -F \" \" '{print $1}' README.md",
            vec!["awk -F \" \" '{print $1}' README.md"],
        ),
        ("ls | wc", vec!["ls | wc"]),
        ("echo #foo; echo bar", vec!["echo"]),
        ("echo foo; echo bar", vec!["echo foo", ";", "echo bar"]),
        ("echo 'foo; echo bar'", vec!["echo 'foo; echo bar'"]),
        ("echo \"foo; echo bar\"", vec!["echo \"foo; echo bar\""]),
        ("echo `foo; echo bar`", vec!["echo `foo; echo bar`"]),
        ("echo foo && echo bar", vec!["echo foo", "&&", "echo bar"]),
        (
            "echo foo && echo bar && echo baz",
            vec!["echo foo", "&&", "echo bar", "&&", "echo baz"],
        ),
        ("echo foo || echo bar", vec!["echo foo", "||", "echo bar"]),
        (
            "echo foo && echo bar; echo end",
            vec!["echo foo", "&&", "echo bar", ";", "echo end"],
        ),
    ];

    for (left, right) in v {
        _assert_vec_str_eq(parse_commands(left), right);
    }
}

#[test]
fn test_parse_commands_trailing_single_operator() {
    assert_eq!(parse_commands("echo foo &"), vec!["echo foo &".to_string()]);
    assert_eq!(parse_commands("echo foo |"), vec!["echo foo |".to_string()]);
    assert_eq!(parse_commands("a & b"), vec!["a & b".to_string()]);
}

#[test]
fn test_parse_commands_comment_only_segment() {
    let r = parse_commands("echo #comment");
    assert_eq!(r, vec!["echo".to_string()]);
}

#[test]
fn test_tokenize_round_trip_plain_words() {
    let tokens = parse_args("ls   -lh  src");
    let texts: Vec<String> = tokens.iter().map(|t| t.1.clone()).collect();
    assert_eq!(texts.join(" "), "ls -lh src");
    for t in &tokens {
        assert_eq!(t.0, "");
    }
}

#[test]
fn test_tokenize_escaped_space_token() {
    let r = parse_args("echo a\\ bc");
    assert_eq!(r.len(), 2);
    assert_eq!(r[0], ("".to_string(), "echo".to_string()));
    assert_eq!(r[1], ("".to_string(), "a bc".to_string()));
}

#[test]
fn test_tokenize_unterminated_quote() {
    let r = parse_args("echo 'abc");
    assert_eq!(r, vec![("".to_string(), "echo".to_string()), ("".to_string(), "abc".to_string())]);
}
