use cicada::expand_brace::brace_expand_word;
use cicada::expand_brace::expand_brace;
use cicada::expand_env::expand_env;
use cicada::expand_env::extend_env;
use cicada::expand_env::extend_env_blindly;
use cicada::expand_glob::extend_glob;
use cicada::expand_glob::needs_globbing;
use cicada::expand_home::expand_home_string;
use cicada::expand_home::needs_expand_home;
use cicada::pipeline::do_expansion;
use cicada::shell::Shell;
use cicada::substitution::command_substitution_requests;
use cicada::substitution::do_command_substitution;
use cicada::substitution::should_do_dollar_command_extension;

fn pairs(v: Vec<(&str, &str)>) -> Vec<(String, String)> {
    v.into_iter().map(|(a, b)| (a.to_string(), b.to_string())).collect()
}

#[test]
fn test_need_expand_home() {
    assert!(needs_expand_home("ls ~"));
    assert!(needs_expand_home("ls  ~  "));
    assert!(needs_expand_home("cat ~/a.py"));
    assert!(needs_expand_home("echo ~"));
    assert!(needs_expand_home("echo ~ ~~"));
    assert!(needs_expand_home("~/bin/py"));
    assert!(!needs_expand_home("echo '~'"));
    assert!(!needs_expand_home("echo \"~\""));
    assert!(!needs_expand_home("echo ~~"));
}

#[test]
fn test_needs_globbing() {
    assert!(needs_globbing("*"));
    assert!(needs_globbing("ls *"));
    assert!(needs_globbing("ls  *.txt"));
    assert!(needs_globbing("grep -i 'desc' /etc/*release*"));
    assert!(!needs_globbing("2 * 3"));
    assert!(!needs_globbing("ls '*.md'"));
    assert!(!needs_globbing("ls 'a * b'"));
    assert!(!needs_globbing("ls foo"));
}

#[test]
fn test_extend_env() {
    let sh = Shell::new();
    let mut s = String::from("echo '$PATH'");
    extend_env(&sh, &mut s);
    assert_eq!(s, "echo '$PATH'");

    let mut s = String::from("echo a\\ b xy");
    extend_env(&sh, &mut s);
    assert_eq!(s, "echo a\\ b xy");

    let mut s = String::from("echo 'hi $PATH'");
    extend_env(&sh, &mut s);
    assert_eq!(s, "echo 'hi $PATH'");

    let mut s = String::from("echo \'\\\'");
    extend_env(&sh, &mut s);
    assert_eq!(s, "echo \'\\\'");

    let mut s = String::from("export DIR=`brew --prefix openssl`/include");
    extend_env(&sh, &mut s);
    assert_eq!(s, "export DIR=`brew --prefix openssl`/include");

    let mut s = String::from("export FOO=\"`date` and `go version`\"");
    extend_env(&sh, &mut s);
    assert_eq!(s, "export FOO=\"`date` and `go version`\"");

    let mut s = String::from("foo is XX${CICADA_NOT_EXIST}XX");
    extend_env(&sh, &mut s);
    assert_eq!(s, "foo is XXXX");

    let mut s = String::from("foo is $CICADA_NOT_EXIST_1 and bar is $CICADA_NOT_EXIST_2.");
    extend_env(&sh, &mut s);
    assert_eq!(s, "foo is  and bar is .");
}

#[test]
fn test_extend_glob() {
    let dir = tempfile::tempdir().expect("error when create file");
    let file = tempfile::Builder::new()
        .prefix("foo bar baz")
        .suffix(".txt")
        .rand_bytes(0)
        .tempfile_in(dir.path())
        .expect("error when create file");
    let base = dir.path().to_string_lossy().to_string();
    let mut line = format!("echo {}/f*z.txt", base);
    extend_glob(&mut line);
    drop(file);
    assert_eq!(line, format!("echo {}/foo\\ bar\\ baz.txt", base));

    line = String::from("echo bar*.txt");
    extend_glob(&mut line);
    assert_eq!(line, "echo bar*.txt");

    line = String::from("echo \"*\"");
    extend_glob(&mut line);
    assert_eq!(line, "echo \"*\"");

    line = String::from("echo \'*\'");
    extend_glob(&mut line);
    assert_eq!(line, "echo \'*\'");
}

#[test]
fn test_should_do_dollar_command_extension() {
    assert!(!should_do_dollar_command_extension("ls $HOME"));
    assert!(!should_do_dollar_command_extension("echo $[pwd]"));
    assert!(should_do_dollar_command_extension("echo $(pwd)"));
    assert!(should_do_dollar_command_extension("echo $(pwd) foo"));
    assert!(should_do_dollar_command_extension("echo $(foo bar)"));
    assert!(should_do_dollar_command_extension("echo $(echo foo)"));
    assert!(should_do_dollar_command_extension("$(pwd) foo"));
}

#[test]
fn test_extend_env_blindly_special_forms() {
    let mut sh = Shell::new();
    sh.previous_status = 7;
    sh.pid = 1234;
    assert_eq!(extend_env_blindly(&sh, "st=$? pid=$$"), "st=7 pid=1234");
    sh.previous_status = -3;
    assert_eq!(extend_env_blindly(&sh, "$?"), "-3");
}

#[test]
fn test_extend_env_blindly_resolution_order() {
    let mut sh = Shell::new();
    sh.proc_envs.push(("X".to_string(), "proc".to_string()));
    sh.envs.push(("X".to_string(), "local".to_string()));
    sh.envs.push(("Y".to_string(), "only".to_string()));
    assert_eq!(extend_env_blindly(&sh, "$X/$Y"), "proc/only");
    sh.set_env("X", "updated");
    sh.set_env("Z", "fresh");
    assert_eq!(extend_env_blindly(&sh, "$X $Z"), "updated fresh");
    assert_eq!(sh.get_env("Z").as_deref(), Some("fresh"));
    assert_eq!(sh.get_env("X").as_deref(), Some("local"));
}

#[test]
fn test_expand_env_quote_immunity() {
    let sh = Shell::new();
    let mut tokens = cicada::parser_line::parse_args("echo '$HOME'");
    assert_eq!(tokens, pairs(vec![("", "echo"), ("'", "$HOME")]));
    expand_env(&sh, &mut tokens);
    assert_eq!(tokens, pairs(vec![("", "echo"), ("'", "$HOME")]));
}

#[test]
fn test_expand_env_idempotent_when_expanded() {
    let mut sh = Shell::new();
    sh.envs.push(("A".to_string(), "one".to_string()));
    let mut tokens = pairs(vec![("", "x$A"), ("\"", "y$A"), ("'", "keep")]);
    expand_env(&sh, &mut tokens);
    assert_eq!(tokens, pairs(vec![("", "xone"), ("\"", "yone"), ("'", "keep")]));
    let once = tokens.clone();
    expand_env(&sh, &mut tokens);
    assert_eq!(tokens, once);
}

#[test]
fn test_expand_brace_literal_order() {
    assert_eq!(brace_expand_word("a{x,y,z}b"), "axb ayb azb");
    let mut tokens = pairs(vec![("", "a{x,y,z}b")]);
    expand_brace(&mut tokens);
    assert_eq!(tokens, pairs(vec![("", "axb ayb azb")]));
}

#[test]
fn test_expand_brace_nested_takes_top_level_span() {
    assert_eq!(brace_expand_word("{a{b}c,d}e"), "a{b}ce de");
}

#[test]
fn test_expand_brace_untouched_cases() {
    let mut tokens = pairs(vec![("", "a{xyz}b"), ("'", "a{x,y}b"), ("", "plain")]);
    expand_brace(&mut tokens);
    assert_eq!(tokens, pairs(vec![("", "a{xyz}b"), ("'", "a{x,y}b"), ("", "plain")]));
}

#[test]
fn test_expand_brace_commaless_groups_untouched() {
    let mut tokens = pairs(vec![("", "{a},{b}"), ("", "a{b,c")]);
    expand_brace(&mut tokens);
    assert_eq!(tokens, pairs(vec![("", "{a},{b}"), ("", "a{b,c")]));
}

#[test]
fn test_expand_brace_skips_commaless_group() {
    assert_eq!(brace_expand_word("x{y}z{p,q}w"), "x{y}zpw x{y}zqw");
}

#[test]
fn test_expand_home_string_bounded_tilde() {
    let mut s = String::from("cat ~/a.py");
    expand_home_string(&mut s, "/home/u");
    assert_eq!(s, "cat /home/u/a.py");

    let mut s = String::from("echo ~ ~~");
    expand_home_string(&mut s, "/home/u");
    assert_eq!(s, "echo /home/u ~~");

    let mut s = String::from("echo a~b");
    expand_home_string(&mut s, "/home/u");
    assert_eq!(s, "echo a~b");
}

#[test]
fn test_command_substitution_splice() {
    let outputs = pairs(vec![("uname -m", "x86_64\n"), ("pwd", "/tmp\n\n")]);
    let mut tokens = cicada::parser_line::parse_args("echo `uname -m`");
    do_command_substitution(&mut tokens, &outputs);
    assert_eq!(tokens, pairs(vec![("", "echo"), ("`", "x86_64")]));

    let mut tokens = pairs(vec![("", "a$(pwd)b"), ("'", "$(pwd)")]);
    do_command_substitution(&mut tokens, &outputs);
    assert_eq!(tokens, pairs(vec![("", "a/tmpb"), ("'", "$(pwd)")]));

    let mut tokens = pairs(vec![("", "x`nope`y")]);
    do_command_substitution(&mut tokens, &outputs);
    assert_eq!(tokens, pairs(vec![("", "x`nope`y")]));
}

#[test]
fn test_command_substitution_requests() {
    let tokens = pairs(vec![("", "x`c1`y$(c2)z"), ("`", "c3"), ("'", "`c4`")]);
    let reqs = command_substitution_requests(&tokens);
    assert_eq!(reqs, vec!["c1".to_string(), "c2".to_string(), "c3".to_string()]);
}

#[test]
fn test_do_expansion_pipeline() {
    let mut sh = Shell::new();
    sh.proc_envs.push(("HOME".to_string(), "/home/u".to_string()));
    sh.proc_envs.push(("X".to_string(), "1".to_string()));
    let mut tokens = cicada::parser_line::parse_args("echo ~ $X 'a$X'");
    let captured: Vec<(String, String)> = Vec::new();
    do_expansion(&sh, &mut tokens, &captured);
    assert_eq!(
        tokens,
        pairs(vec![("", "echo"), ("", "/home/u"), ("", "1"), ("'", "a$X")])
    );
}
