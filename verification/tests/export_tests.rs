use easyenv::config::Config;
use easyenv::diff::Op;
use easyenv::export::{
    fast_path_hit, init_output, plan_export, plan_export_checked, plan_fits, previous_state, sort_by_key, status_report,
    OutLine, WarningBudget,
};
use easyenv::keymap::{ManagedMap, ManagedVar, PriorValue};
use easyenv::merge::EnvLayer;
use easyenv::shell::ShellKind;
use easyenv::state::EasyenvState;
use indexmap::IndexMap;

fn layer(source: &str, ps: &[(&str, &str)]) -> EnvLayer {
    EnvLayer { source: source.to_string(), vars: ps.iter().map(|(k, v)| (k.to_string(), v.to_string())).collect::<IndexMap<String, String>>() }
}

fn env(ps: &[(&str, &str)]) -> Vec<(String, String)> {
    ps.iter().map(|(k, v)| (k.to_string(), v.to_string())).collect()
}

fn config() -> Config {
    Config::defaults(Some("/home/user"))
}

#[test]
fn export_sets_new_keys_and_records_the_signature() {
    let prev = EasyenvState::empty();
    let layers = vec![layer("/p/.env", &[("FOO", "1")])];
    let plan = plan_export(ShellKind::Bash, &prev, 42, &config(), &layers, &[], &env(&[("HOME", "/home/user")]));
    assert_eq!(plan.ops, vec![Op::Export("FOO".to_string(), "1".to_string())]);
    assert_eq!(plan.state.signature, 42);
    assert_eq!(plan.state.managed.get("FOO").unwrap().prior, PriorValue::Unset);
    assert_eq!(plan.token, plan.state.encode());
    assert_eq!(plan.script, format!("export FOO='1'\nexport EASYENV_STATE='{}'\n", plan.token));
    assert!(plan.messages.is_empty());
    assert_eq!(EasyenvState::decode(&plan.token), Some(plan.state));
}

#[test]
fn export_refuses_denied_keys_and_names_their_file() {
    let prev = EasyenvState::empty();
    let layers = vec![layer("/p/.env", &[("PATH", "/tmp/evil"), ("OK", "1")])];
    let plan = plan_export(ShellKind::Zsh, &prev, 1, &config(), &layers, &[], &env(&[("PATH", "/usr/bin")]));
    assert_eq!(plan.ops, vec![Op::Export("OK".to_string(), "1".to_string())]);
    assert_eq!(
        plan.messages,
        vec!["easyenv: warning: refusing to set \"PATH\" from /p/.env\n  This name is denied by default -- see docs/reference/security.md. If you need it, add it to `allow` in ~/.config/easyenv/config.toml.".to_string()]
    );
}

#[test]
fn export_skips_invalid_shell_keys() {
    let prev = EasyenvState::empty();
    let layers = vec![layer("/p/.env", &[("my.key", "1")])];
    let plan = plan_export(ShellKind::Bash, &prev, 1, &config(), &layers, &[], &[]);
    assert!(plan.ops.is_empty());
    assert_eq!(plan.messages, vec!["easyenv: warning: skipping key \"my.key\", not a valid shell identifier".to_string()]);
}

#[test]
fn export_caps_warnings_and_counts_the_rest() {
    let prev = EasyenvState::empty();
    let names: Vec<String> = (0..13).map(|i| format!("bad.{i:02}")).collect();
    let pairs: Vec<(&str, &str)> = names.iter().map(|n| (n.as_str(), "x")).collect();
    let layers = vec![layer("/p/.env", &pairs)];
    let parse_warnings = vec!["/p/.env: line 3".to_string()];
    let plan = plan_export(ShellKind::Bash, &prev, 1, &config(), &layers, &parse_warnings, &[]);
    assert_eq!(plan.messages.len(), 12);
    assert_eq!(plan.messages[0], "easyenv: warning: /p/.env: line 3");
    assert_eq!(plan.messages[1], "easyenv: warning: skipping key \"bad.00\", not a valid shell identifier");
    assert_eq!(plan.messages[10], "easyenv: warning: skipping key \"bad.09\", not a valid shell identifier");
    assert_eq!(plan.messages[11], "easyenv: ... and 3 more");
}

#[test]
fn export_drops_denied_stale_keys_without_unsetting_them() {
    let mut managed = ManagedMap::new();
    managed.insert("LD_PRELOAD".to_string(), ManagedVar { prior: PriorValue::Unset });
    managed.insert("FOO".to_string(), ManagedVar { prior: PriorValue::SetTo("mine".to_string()) });
    let prev = EasyenvState { managed, signature: 5 };
    let plan = plan_export(ShellKind::Bash, &prev, 6, &config(), &[], &[], &env(&[("FOO", "env"), ("LD_PRELOAD", "x")]));
    assert_eq!(plan.ops, vec![Op::Export("FOO".to_string(), "mine".to_string())]);
    assert!(plan.state.managed.is_empty());
    assert_eq!(
        plan.messages,
        vec!["easyenv: warning: dropping denied key \"LD_PRELOAD\" found in stale state (see docs/reference/security.md)".to_string()]
    );
}

#[test]
fn export_carries_the_users_value_as_prior() {
    let prev = EasyenvState::empty();
    let layers = vec![layer("/p/.env", &[("EDITOR_THEME", "dark")])];
    let plan = plan_export(ShellKind::Bash, &prev, 1, &config(), &layers, &[], &env(&[("EDITOR_THEME", "light"), ("OTHER", "x")]));
    assert_eq!(plan.state.managed.get("EDITOR_THEME").unwrap().prior, PriorValue::SetTo("light".to_string()));
    assert_eq!(plan.state.managed.len(), 1);
}

#[test]
fn previous_state_falls_back_to_empty() {
    let st = previous_state(Some("garbage!!"));
    assert_eq!(st, EasyenvState::empty());
    assert_eq!(previous_state(None), EasyenvState::empty());
    let mut managed = ManagedMap::new();
    managed.insert("FOO".to_string(), ManagedVar { prior: PriorValue::Unset });
    let real = EasyenvState { managed, signature: 9 };
    let token = real.encode();
    assert_eq!(previous_state(Some(&token)), real);
}

#[test]
fn fast_path_compares_signatures() {
    let st = EasyenvState { managed: ManagedMap::new(), signature: 77 };
    assert!(fast_path_hit(&st, 77));
    assert!(!fast_path_hit(&st, 78));
}

#[test]
fn counter_room_for_ordinary_inputs() {
    let st = EasyenvState::empty();
    assert!(plan_fits(&st, &[layer("/p/.env", &[("A", "1")])]));
}

#[test]
fn export_drops_remembered_keys_that_are_not_shell_identifiers() {
    let mut managed = ManagedMap::new();
    managed.insert("A;B".to_string(), ManagedVar { prior: PriorValue::Unset });
    managed.insert("NPM_CONFIG\u{e9}".to_string(), ManagedVar { prior: PriorValue::Unset });
    let prev = EasyenvState { managed, signature: 1 };
    let plan = plan_export(ShellKind::Bash, &prev, 2, &config(), &[], &[], &[]);
    assert!(plan.ops.is_empty());
    assert!(plan.state.managed.is_empty());
    assert_eq!(
        plan.messages,
        vec![
            "easyenv: warning: dropping key \"A;B\" found in stale state, not a valid shell identifier".to_string(),
            "easyenv: warning: dropping key \"NPM_CONFIG\u{e9}\" found in stale state, not a valid shell identifier".to_string(),
        ]
    );
    assert_eq!(plan.script, format!("export EASYENV_STATE='{}'\n", plan.token));
}

#[test]
fn budget_writes_up_to_the_cap() {
    let mut b = WarningBudget::new(2);
    b.emit("one".to_string());
    b.note("always".to_string());
    b.emit("two".to_string());
    b.emit("three".to_string());
    b.emit("four".to_string());
    assert_eq!(b.finish(), vec!["one", "always", "two", "easyenv: ... and 2 more"]);
    let quiet = WarningBudget::new(10);
    assert!(quiet.finish().is_empty());
}

#[test]
fn init_output_depends_on_the_terminal() {
    assert_eq!(init_output(ShellKind::Bash, "'/b/easyenv'", false), vec!["eval \"$('/b/easyenv' hook bash)\""]);
    assert_eq!(
        init_output(ShellKind::Zsh, "'/b/easyenv'", true),
        vec![
            "Add this line to your ~/.zshrc:".to_string(),
            String::new(),
            "    eval \"$('/b/easyenv' hook zsh)\"".to_string(),
            String::new(),
            "Then restart your shell (or `source` the rc file).".to_string(),
        ]
    );
}

fn text(lines: &[OutLine]) -> Vec<(bool, String)> {
    lines
        .iter()
        .map(|l| match l {
            OutLine::Stdout(s) => (false, s.clone()),
            OutLine::Stderr(s) => (true, s.clone()),
        })
        .collect()
}

#[test]
fn status_lists_files_and_marks_keys() {
    let layers = vec![
        layer("/home/you/.env", &[("DATABASE_URL", "postgres://a")]),
        layer("/home/you/project/.env", &[("PATH", "/opt/bin"), ("bad.key", "1"), ("DATABASE_URL", "postgres://b")]),
    ];
    let warnings = vec![Vec::new(), vec!["/home/you/project/.env: oops".to_string()]];
    let lines = status_report("/home/you/project", &layers, &warnings, &config());
    assert_eq!(
        text(&lines),
        vec![
            (false, "Active .env files for /home/you/project (root-first):".to_string()),
            (false, "  /home/you/.env".to_string()),
            (true, "easyenv: warning: /home/you/project/.env: oops".to_string()),
            (false, "  /home/you/project/.env".to_string()),
            (false, String::new()),
            (false, "Resolved variables:".to_string()),
            (false, "  DATABASE_URL=postgres://b  (from /home/you/project/.env)".to_string()),
            (false, "  PATH=/opt/bin  (from /home/you/project/.env) [DENIED: see docs/reference/security.md]".to_string()),
            (false, "  bad.key=1  (from /home/you/project/.env) [INVALID: not a valid shell identifier]".to_string()),
        ]
    );
}

#[test]
fn status_without_files() {
    let lines = status_report("/x", &[], &[], &config());
    assert_eq!(text(&lines), vec![(false, "No .env files active for /x".to_string())]);
}

#[test]
fn checked_plan_accepts_ordinary_inputs() {
    let mut managed = ManagedMap::new();
    managed.insert("NPM_CONFIG\u{e9}".to_string(), ManagedVar { prior: PriorValue::Unset });
    let prev = EasyenvState { managed, signature: 1 };
    assert!(plan_export_checked(ShellKind::Bash, &prev, 2, &config(), &[], &[], &[]).is_some());
    let ok = plan_export_checked(ShellKind::Bash, &EasyenvState::empty(), 2, &config(), &[layer("/p/.env", &[("A", "1")])], &[], &[]);
    let plan = ok.unwrap();
    assert_eq!(plan.ops, vec![Op::Export("A".to_string(), "1".to_string())]);
}

#[test]
fn status_lists_variables_in_ascending_key_order() {
    let layers = vec![
        layer("/home/you/.env", &[("SHARED", "abc")]),
        layer("/home/you/project/.env", &[("API_KEY", "xyz")]),
    ];
    let lines = status_report("/home/you/project", &layers, &[Vec::new(), Vec::new()], &config());
    let t = text(&lines);
    assert_eq!(t[t.len() - 2], (false, "  API_KEY=xyz  (from /home/you/project/.env)".to_string()));
    assert_eq!(t[t.len() - 1], (false, "  SHARED=abc  (from /home/you/.env)".to_string()));
}

#[test]
fn sort_by_key_orders_by_bytes() {
    let m: IndexMap<String, String> =
        [("b", "1"), ("a", "2"), ("B", "3"), ("ab", "4")].iter().map(|(k, v)| (k.to_string(), v.to_string())).collect();
    let keys: Vec<String> = sort_by_key(&m).into_iter().map(|(k, _)| k).collect();
    assert_eq!(keys, vec!["B", "a", "ab", "b"]);
}
