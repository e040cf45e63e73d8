use easyenv::diff::Op;
use easyenv::shell::{bash, is_valid_shell_key, shell_single_quote, zsh, ShellKind};

#[test]
fn valid_shell_keys() {
    assert!(is_valid_shell_key("FOO"));
    assert!(is_valid_shell_key("_FOO"));
    assert!(is_valid_shell_key("FOO_BAR_123"));
}

#[test]
fn invalid_shell_keys() {
    assert!(!is_valid_shell_key("FOO.BAR"));
    assert!(!is_valid_shell_key("123FOO"));
    assert!(!is_valid_shell_key(""));
    assert!(!is_valid_shell_key("FOO BAR"));
    assert!(!is_valid_shell_key("FOO;rm -rf /"));
}

#[test]
fn quotes_embedded_single_quotes() {
    assert_eq!(shell_single_quote("it's"), "'it'\\''s'");
}

#[test]
fn quoting_leaves_other_characters_alone() {
    assert_eq!(shell_single_quote(""), "''");
    assert_eq!(shell_single_quote("$(x)"), "'$(x)'");
    assert_eq!(shell_single_quote("a b*`c`"), "'a b*`c`'");
    assert_eq!(shell_single_quote("a $b \"c\" \\d\n"), "'a $b \"c\" \\d\n'");
    assert_eq!(shell_single_quote("''"), "''\\'''\\'''");
}

#[test]
fn format_ops_emits_statements_then_state() {
    let ops = vec![
        Op::Export("FOO".to_string(), "it's".to_string()),
        Op::Unset("BAR".to_string()),
    ];
    let expected = "export FOO='it'\\''s'\nunset BAR\nexport EASYENV_STATE='TOKEN'\n";
    assert_eq!(ShellKind::Bash.format_ops(&ops, "TOKEN"), expected);
    assert_eq!(ShellKind::Zsh.format_ops(&ops, "TOKEN"), expected);
    assert_eq!(bash::format_ops(&ops, "TOKEN"), expected);
    assert_eq!(zsh::format_ops(&ops, "TOKEN"), expected);
}

#[test]
fn format_ops_always_reexports_the_state() {
    assert_eq!(ShellKind::Bash.format_ops(&[], "T"), "export EASYENV_STATE='T'\n");
}

#[test]
fn init_snippet_names_the_shell() {
    assert_eq!(ShellKind::Bash.init_snippet("'/opt/easyenv'"), "eval \"$('/opt/easyenv' hook bash)\"");
    assert_eq!(ShellKind::Zsh.init_snippet("'/opt/easyenv'"), "eval \"$('/opt/easyenv' hook zsh)\"");
}

#[test]
fn rc_file_hints() {
    assert_eq!(ShellKind::Bash.rc_file_hint(), "~/.bashrc");
    assert_eq!(ShellKind::Zsh.rc_file_hint(), "~/.zshrc");
}

#[test]
fn hook_scripts_call_the_given_binary() {
    let b = ShellKind::Bash.hook_script("'/opt/easyenv'");
    assert!(b.contains("eval \"$('/opt/easyenv' export bash)\""));
    assert!(b.contains("PROMPT_COMMAND=\"_easyenv_hook${PROMPT_COMMAND:+;$PROMPT_COMMAND}\""));
    assert!(b.contains("local previous_exit_status=$?"));
    assert_eq!(b, bash::hook_script("'/opt/easyenv'"));
    let z = ShellKind::Zsh.hook_script("'/opt/easyenv'");
    assert!(z.contains("eval \"$('/opt/easyenv' export zsh)\""));
    assert!(z.contains("chpwd_functions+=(_easyenv_hook)"));
    assert!(z.contains("precmd_functions+=(_easyenv_hook)"));
    assert!(!z.contains("__EASYENV_BIN__"));
    assert_eq!(z, zsh::hook_script("'/opt/easyenv'"));
}
