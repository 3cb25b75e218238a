use cicada::completions::complete_dots;
use cicada::completions::dot_file_of;
use cicada::completions::CompletionEntry;
use cicada::shell::Shell;
use cicada::terminal::give_terminal_outcome;

#[test]
fn test_alias_content() {
    let mut sh = Shell::new();
    sh.add_alias("ll", "ls -lh");
    sh.add_alias("nothing", "");
    assert_eq!(sh.get_alias_content("ll").as_deref(), Some("ls -lh"));
    assert_eq!(sh.get_alias_content("nothing"), None);
    assert_eq!(sh.get_alias_content("missing"), None);
    sh.add_alias("ll", "ls -alh");
    assert_eq!(sh.get_alias_content("ll").as_deref(), Some("ls -alh"));
}

#[test]
fn test_get_env_is_session_local() {
    let mut sh = Shell::new();
    sh.proc_envs.push(("ONLY_PROC".to_string(), "v".to_string()));
    assert_eq!(sh.get_env("ONLY_PROC"), None);
    sh.envs.push(("LOCAL".to_string(), "w".to_string()));
    assert_eq!(sh.get_env("LOCAL").as_deref(), Some("w"));
}

#[test]
fn test_terminal_handoff_restores_mask() {
    let initial: u64 = 0b1010;
    let job: u64 = 0b0101;
    let (given, blocked, restored) = give_terminal_outcome(initial, job, false);
    assert!(!given);
    assert_eq!(blocked, 0b1111);
    assert_eq!(restored, initial);

    let (given, blocked, restored) = give_terminal_outcome(initial, job, true);
    assert!(given);
    assert_eq!(blocked, 0b1111);
    assert_eq!(restored, initial);
}

#[test]
fn test_complete_dots_plain_names() {
    let entries = vec![
        CompletionEntry::Name("add".to_string()),
        CompletionEntry::Name("build".to_string()),
        CompletionEntry::Group(
            "remote".to_string(),
            vec!["add".to_string(), "remove".to_string()],
        ),
    ];
    let r = complete_dots("git ad", "ad", &entries);
    assert_eq!(r, vec!["add".to_string()]);

    let r = complete_dots("git ", "", &entries);
    assert_eq!(r, vec!["add".to_string(), "build".to_string(), "remote".to_string()]);
}

#[test]
fn test_complete_dots_sub_command() {
    let entries = vec![
        CompletionEntry::Name("add".to_string()),
        CompletionEntry::Group(
            "remote".to_string(),
            vec!["add".to_string(), "remove".to_string(), "rename".to_string()],
        ),
    ];
    let r = complete_dots("git remote re", "re", &entries);
    assert_eq!(r, vec!["remove".to_string(), "rename".to_string()]);
    let r = complete_dots("git -x re", "re", &entries);
    assert_eq!(r, vec!["remote".to_string()]);
    let r = complete_dots("", "re", &entries);
    assert_eq!(r, Vec::<String>::new());
}

#[test]
fn test_dot_file_path() {
    assert_eq!(dot_file_of("/home/u/.cicada/completers", "git"), "/home/u/.cicada/completers/git.yaml");
}
