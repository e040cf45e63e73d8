//! The denylist and skip-list engine. The baseline lists are compiled in
//! and non-empty; the config file can only add to them or name specific
//! entries to remove.
//!
//! Policy: deny any name where a value the user did not review can cause
//! code to run, a lookup path to be redirected, or a trust boundary to be
//! relaxed -- in the shell, the dynamic loader, or any commonly-installed
//! language runtime or CLI. Permit names that only select among resources
//! the user already controls. When in doubt, deny; `allow` in the config
//! file is the escape hatch.
use vstd::prelude::*;
use vstd::utf8::encode_utf8;
use crate::paths::{under_by_text, path_same, path_has_base, path_joined, path_component_names, path_eq, path_starts_with, path_join, path_components};
use crate::text::{str_eq, starts_with, chars_of, debug_quote, debug_quoted, bytes_eq_ignore_ascii_case, bytes_prefix_eq_ignore_ascii_case};

verus! {

broadcast use vstd::string::group_string_axioms;

// --- compiled-in skipped directories ----------------------------------

pub const SKIP_PREFIXES: [&'static str; 16] = [
    "/tmp",
    "/var/tmp",
    "/dev/shm",
    // Required on macOS: /tmp is a symlink to /private/tmp, and
    // discover_env_files canonicalizes, so the path actually matched
    // against is the /private/ form. Omitting these silently disables
    // the /tmp rule on every Mac.
    "/private/tmp",
    "/private/var/tmp",
    "/etc",
    "/usr",
    "/opt",
    "/srv",
    "/var",
    "/proc",
    "/sys",
    "/dev",
    "/mnt",
    "/media",
    "/Volumes",
];

// Denied prefixes, case-sensitive, matched from position 0 only.
pub const DENY_PREFIXES: [&'static str; 10] = [
    "LD_",               // dynamic loader: LD_PRELOAD, LD_AUDIT, LD_LIBRARY_PATH
    "DYLD_",             // macOS equivalent
    "BASH_FUNC_",        // function import from the environment (Shellshock shape)
    "EASYENV_",          // prevents a .env forging state or flipping easyenv's own settings
    "XDG_", // redirects config/data/cache lookup for many tools, incl. easyenv's own config
    "OPENSSL_", // OPENSSL_CONF loads engines/providers: code execution
    "GIT_CONFIG_", // GIT_CONFIG_GLOBAL, GIT_CONFIG_COUNT/KEY_n/VALUE_n: injects git config
    "CARGO_TARGET_", // CARGO_TARGET_<TRIPLE>_RUNNER executes an arbitrary command
    "CARGO_REGISTRIES_", // redirects crate sources
    "PERL5", // PERL5OPT, PERL5LIB, PERL5DB
];

// Denied prefixes matched case-insensitively (the consuming tools honour both cases).
pub const DENY_PREFIXES_CI: [&'static str; 1] = ["NPM_CONFIG_"];

// Denied exact names: shell execution and parsing, loader/locale/process env,
// tool invocation, TLS/network (non-proxy names),
// language runtimes, cloud/infrastructure.
pub const DENY_EXACT: [&'static str; 161] = [
    // shell execution and parsing
    "PROMPT_COMMAND",
    "PS0",
    "PS1",
    "PS2",
    "PS3",
    "PS4",
    "PROMPT",
    "RPROMPT",
    "RPS1",
    "RPS2",
    "BASH_ENV",
    "ENV",
    "SHELLOPTS",
    "BASHOPTS",
    "ZDOTDIR",
    "FPATH",
    "CDPATH",
    "IFS",
    "GLOBIGNORE",
    "BASH_XTRACEFD",
    "HISTFILE",
    "HISTIGNORE",
    "HISTCONTROL",
    "HISTTIMEFORMAT",
    // loader, locale and process environment
    "PATH",
    "HOME",
    "SHELL",
    "TMPDIR",
    "TMP",
    "TEMP",
    "LOCPATH",
    "NLSPATH",
    "GCONV_PATH",
    "TERMINFO",
    "TERMINFO_DIRS",
    "TERMCAP",
    "MANPATH",
    // tool invocation
    "PAGER",
    "MANPAGER",
    "EDITOR",
    "VISUAL",
    "BROWSER",
    "LESS",
    "LESSOPEN",
    "LESSCLOSE",
    "LESSSECURE",
    "MORE",
    "SUDO_ASKPASS",
    "SUDO_EDITOR",
    "SSH_ASKPASS",
    "SSH_AUTH_SOCK",
    "SSH_AGENT_PID",
    "GIT_SSH",
    "GIT_SSH_COMMAND",
    "GIT_EXTERNAL_DIFF",
    "GIT_PAGER",
    "GIT_EDITOR",
    "GIT_ASKPASS",
    "GIT_PROXY_COMMAND",
    "GIT_CONFIG",
    "GIT_DIR",
    "GIT_WORK_TREE",
    "GIT_TEMPLATE_DIR",
    "GIT_ALTERNATE_OBJECT_DIRECTORIES",
    "GIT_OBJECT_DIRECTORY",
    "GIT_NAMESPACE",
    // TLS/network (non-proxy; proxy names are in DENY_EXACT_CI below)
    "SSL_CERT_FILE",
    "SSL_CERT_DIR",
    "CURL_CA_BUNDLE",
    "CURL_HOME",
    "REQUESTS_CA_BUNDLE",
    "NODE_EXTRA_CA_CERTS",
    "NODE_TLS_REJECT_UNAUTHORIZED",
    "PYTHONHTTPSVERIFY",
    "GIT_SSL_CAINFO",
    "GIT_SSL_NO_VERIFY",
    "SSLKEYLOGFILE",
    // Python
    "PYTHONPATH",
    "PYTHONHOME",
    "PYTHONSTARTUP",
    "PYTHONEXECUTABLE",
    "PYTHONBREAKPOINT",
    "PYTHONINSPECT",
    "PYTHONUSERBASE",
    "PYTHONWARNINGS",
    "PIP_INDEX_URL",
    "PIP_EXTRA_INDEX_URL",
    "PIP_TRUSTED_HOST",
    "PIP_CONFIG_FILE",
    "PIP_TARGET",
    "UV_INDEX_URL",
    "UV_EXTRA_INDEX_URL",
    "UV_PYTHON",
    "UV_CONFIG_FILE",
    "CONDA_ENVS_PATH",
    "CONDARC",
    // Node/JS
    "NODE_OPTIONS",
    "NODE_PATH",
    "NODE_REPL_EXTERNAL_MODULE",
    "BUN_INSTALL",
    "BUN_CONFIG_REGISTRY",
    "DENO_DIR",
    "DENO_INSTALL_ROOT",
    // Ruby
    "RUBYOPT",
    "RUBYLIB",
    "RUBYPATH",
    "GEM_HOME",
    "GEM_PATH",
    "BUNDLE_GEMFILE",
    "BUNDLE_PATH",
    // JVM
    "JAVA_TOOL_OPTIONS",
    "_JAVA_OPTIONS",
    "JDK_JAVA_OPTIONS",
    "JAVA_HOME",
    "CLASSPATH",
    // Rust
    "RUSTC",
    "RUSTC_WRAPPER",
    "RUSTC_WORKSPACE_WRAPPER",
    "CARGO_HOME",
    "RUSTUP_HOME",
    "RUSTUP_TOOLCHAIN",
    // Go
    "GOPROXY",
    "GOSUMDB",
    "GONOSUMDB",
    "GOPRIVATE",
    "GOFLAGS",
    "GOPATH",
    "GOROOT",
    "GOTOOLCHAIN",
    // R
    "R_HOME",
    "R_PROFILE",
    "R_PROFILE_USER",
    "R_ENVIRON",
    "R_ENVIRON_USER",
    "R_LIBS",
    "R_LIBS_USER",
    "R_LIBS_SITE",
    // other
    "LUA_PATH",
    "LUA_CPATH",
    "PHPRC",
    "PHP_INI_SCAN_DIR",
    "JULIA_LOAD_PATH",
    "JULIA_DEPOT_PATH",
    // cloud/infrastructure
    "AWS_CONFIG_FILE",
    "AWS_SHARED_CREDENTIALS_FILE",
    "AWS_CA_BUNDLE",
    "AWS_EC2_METADATA_SERVICE_ENDPOINT",
    "AWS_METADATA_SERVICE_ENDPOINT",
    "AWS_ENDPOINT_URL",
    "KUBECONFIG",
    "DOCKER_HOST",
    "DOCKER_CONFIG",
    "DOCKER_CERT_PATH",
    "DOCKER_TLS_VERIFY",
    "CONTAINER_HOST",
    "CLOUDSDK_CONFIG",
    "AZURE_CONFIG_DIR",
    "VAULT_ADDR",
    "VAULT_CACERT",
    "TF_CLI_CONFIG_FILE",
    "HELM_REPOSITORY_CONFIG",
];

// Proxy variables -- matched case-insensitively, since the consuming
// tools honour both `http_proxy` and `HTTP_PROXY`.
pub const DENY_EXACT_CI: [&'static str; 5] = [
    "http_proxy",
    "https_proxy",
    "ftp_proxy",
    "all_proxy",
    "no_proxy",
];

/// Directory names that mark downloaded dependencies; matched as whole
/// path components, never as substrings.
pub const VENDORED: [&'static str; 7] = ["node_modules", ".venv", "venv", "site-packages", "vendor", ".tox", "target"];

/// Whether the compiled-in lists deny `key`.
pub open spec fn denied_by_compiled_defaults(key: Seq<char>) -> bool {
    let kb = encode_utf8(key);
    ||| exists|i: int| 0 <= i < DENY_PREFIXES@.len() && (#[trigger] DENY_PREFIXES@[i])@.is_prefix_of(key)
    ||| exists|i: int| 0 <= i < DENY_PREFIXES_CI@.len() && kb.len() >= encode_utf8((#[trigger] DENY_PREFIXES_CI@[i])@).len()
        && bytes_eq_ignore_ascii_case(kb.take(encode_utf8(DENY_PREFIXES_CI@[i]@).len() as int), encode_utf8(DENY_PREFIXES_CI@[i]@))
    ||| exists|i: int| 0 <= i < DENY_EXACT@.len() && (#[trigger] DENY_EXACT@[i])@ == key
    ||| exists|i: int| 0 <= i < DENY_EXACT_CI@.len() && bytes_eq_ignore_ascii_case(kb, encode_utf8((#[trigger] DENY_EXACT_CI@[i])@))
}

/// Checks `key` against the compiled-in lists. The case-insensitive
/// prefix check compares the key's leading bytes: a key whose leading
/// bytes cut a character there cannot match it (the prefix is ASCII), and
/// is simply not denied by it.
pub fn is_denied_by_compiled_defaults(key: &str) -> (r: bool)
    ensures
        r == denied_by_compiled_defaults(key@),
{
    let kb = key.as_bytes();
    let mut i: usize = 0;
    while i < DENY_PREFIXES.len()
        invariant
            i <= DENY_PREFIXES@.len(),
            forall|j: int| 0 <= j < i ==> !(#[trigger] DENY_PREFIXES@[j])@.is_prefix_of(key@),
        decreases DENY_PREFIXES.len() - i,
    {
        if starts_with(key, DENY_PREFIXES[i]) {
            return true;
        }
        i = i + 1;
    }
    let mut i: usize = 0;
    while i < DENY_PREFIXES_CI.len()
        invariant
            kb@ == encode_utf8(key@),
            forall|j: int| 0 <= j < DENY_PREFIXES@.len() ==> !(#[trigger] DENY_PREFIXES@[j])@.is_prefix_of(key@),
            i <= DENY_PREFIXES_CI@.len(),
            forall|j: int| 0 <= j < i ==> !(kb@.len() >= encode_utf8(#[trigger] DENY_PREFIXES_CI@[j]@).len()
                && bytes_eq_ignore_ascii_case(kb@.take(encode_utf8(DENY_PREFIXES_CI@[j]@).len() as int), encode_utf8(DENY_PREFIXES_CI@[j]@))),
        decreases DENY_PREFIXES_CI.len() - i,
    {
        let p = DENY_PREFIXES_CI[i].as_bytes();
        if kb.len() >= p.len() && bytes_prefix_eq_ignore_ascii_case(kb, p) {
            return true;
        }
        i = i + 1;
    }
    let mut i: usize = 0;
    while i < DENY_EXACT.len()
        invariant
            i <= DENY_EXACT@.len(),
            forall|j: int| 0 <= j < i ==> (#[trigger] DENY_EXACT@[j])@ != key@,
        decreases DENY_EXACT.len() - i,
    {
        if str_eq(DENY_EXACT[i], key) {
            return true;
        }
        i = i + 1;
    }
    let mut i: usize = 0;
    while i < DENY_EXACT_CI.len()
        invariant
            kb@ == encode_utf8(key@),
            i <= DENY_EXACT_CI@.len(),
            forall|j: int| 0 <= j < i ==> !bytes_eq_ignore_ascii_case(kb@, encode_utf8((#[trigger] DENY_EXACT_CI@[j])@)),
        decreases DENY_EXACT_CI.len() - i,
    {
        let n = DENY_EXACT_CI[i].as_bytes();
        if kb.len() == n.len() && bytes_prefix_eq_ignore_ascii_case(kb, n) {
            assert(kb@.take(n@.len() as int) =~= kb@);
            return true;
        }
        proof {
            if kb@.len() == n@.len() {
                assert(kb@.take(n@.len() as int) =~= kb@);
            }
        }
        i = i + 1;
    }
    false
}


// --- rules ----------------------------------------------------------------

/// A single deny/allow rule: an exact name or a trailing-`*` prefix.
/// Anchored -- a prefix matches from position 0 only, never a substring.
#[derive(Debug, Clone)]
pub enum NameRule {
    Exact(String),
    /// Stored without the trailing `*`.
    Prefix(String),
}

pub enum NameRuleView {
    Exact(Seq<char>),
    Prefix(Seq<char>),
}

impl View for NameRule {
    type V = NameRuleView;

    open spec fn view(&self) -> NameRuleView {
        match self {
            NameRule::Exact(n) => NameRuleView::Exact(n@),
            NameRule::Prefix(p) => NameRuleView::Prefix(p@),
        }
    }
}

/// A trailing `*` makes a prefix rule; anything else is an exact name.
pub open spec fn parse_name_rule(raw: Seq<char>) -> NameRuleView {
    if raw.len() > 0 && raw.last() == '*' {
        NameRuleView::Prefix(raw.drop_last())
    } else {
        NameRuleView::Exact(raw)
    }
}

pub open spec fn name_rule_matches(r: NameRuleView, key: Seq<char>) -> bool {
    match r {
        NameRuleView::Exact(n) => n == key,
        NameRuleView::Prefix(p) => p.is_prefix_of(key),
    }
}

pub open spec fn any_name_rule_matches(rules: Seq<NameRuleView>, key: Seq<char>) -> bool {
    exists|i: int| 0 <= i < rules.len() && name_rule_matches(#[trigger] rules[i], key)
}

impl NameRule {
    pub fn parse(raw: &str) -> (r: NameRule)
        ensures
            r@ == parse_name_rule(raw@),
    {
        let cs = chars_of(raw);
        let n = cs.len();
        if n > 0 && cs[n - 1] == '*' {
            let prefix = raw.substring_char(0, n - 1);
            assert(prefix@ =~= raw@.drop_last());
            NameRule::Prefix(String::from_str(prefix))
        } else {
            NameRule::Exact(String::from_str(raw))
        }
    }

    pub fn matches(&self, key: &str) -> (r: bool)
        ensures
            r == name_rule_matches(self@, key@),
    {
        match self {
            NameRule::Exact(n) => str_eq(n.as_str(), key),
            NameRule::Prefix(p) => starts_with(key, p.as_str()),
        }
    }
}

/// A directory-skip rule, matched as a path prefix (or, for the one
/// root-directory case, exactly).
#[derive(Debug, Clone)]
pub enum DirRule {
    Exact(String),
    Prefix(String),
}

pub enum DirRuleView {
    Exact(Seq<char>),
    Prefix(Seq<char>),
}

impl View for DirRule {
    type V = DirRuleView;

    open spec fn view(&self) -> DirRuleView {
        match self {
            DirRule::Exact(p) => DirRuleView::Exact(p@),
            DirRule::Prefix(p) => DirRuleView::Prefix(p@),
        }
    }
}

pub open spec fn dir_rule_matches(r: DirRuleView, dir: Seq<char>) -> bool {
    match r {
        DirRuleView::Exact(p) => path_same(dir, p),
        DirRuleView::Prefix(p) => path_has_base(dir, p),
    }
}

/// The rule covers `dir` by its text alone: `dir` is the rule's directory,
/// or (for a prefix rule) lies under it as `under_by_text` describes.
pub open spec fn rule_covers_by_text(r: DirRuleView, dir: Seq<char>) -> bool {
    match r {
        DirRuleView::Exact(p) => dir == p,
        DirRuleView::Prefix(p) => dir == p || under_by_text(dir, p),
    }
}

pub open spec fn any_dir_rule_matches(rules: Seq<DirRuleView>, dir: Seq<char>) -> bool {
    exists|i: int| 0 <= i < rules.len() && dir_rule_matches(#[trigger] rules[i], dir)
}

impl DirRule {
    pub fn matches(&self, dir: &str) -> (r: bool)
        ensures
            r == dir_rule_matches(self@, dir@),
            rule_covers_by_text(self@, dir@) ==> r,
    {
        match self {
            DirRule::Exact(p) => path_eq(dir, p.as_str()),
            DirRule::Prefix(p) => path_starts_with(dir, p.as_str()),
        }
    }
}

fn any_name_rule(rules: &Vec<NameRule>, key: &str) -> (r: bool)
    ensures
        r == any_name_rule_matches(names_view(rules@), key@),
{
    let mut i: usize = 0;
    while i < rules.len()
        invariant
            i <= rules@.len(),
            forall|j: int| 0 <= j < i ==> !name_rule_matches(#[trigger] names_view(rules@)[j], key@),
        decreases rules.len() - i,
    {
        if rules[i].matches(key) {
            assert(names_view(rules@)[i as int] == rules@[i as int]@);
            return true;
        }
        i = i + 1;
    }
    false
}

fn any_dir_rule(rules: &Vec<DirRule>, dir: &str) -> (r: bool)
    ensures
        r == any_dir_rule_matches(dirs_view(rules@), dir@),
        (exists|i: int| 0 <= i < rules@.len() && rule_covers_by_text(#[trigger] dirs_view(rules@)[i], dir@)) ==> r,
{
    let mut i: usize = 0;
    while i < rules.len()
        invariant
            i <= rules@.len(),
            forall|j: int| 0 <= j < i ==> !dir_rule_matches(#[trigger] dirs_view(rules@)[j], dir@),
            forall|j: int| 0 <= j < i ==> !rule_covers_by_text(#[trigger] dirs_view(rules@)[j], dir@),
        decreases rules.len() - i,
    {
        if rules[i].matches(dir) {
            assert(dirs_view(rules@)[i as int] == rules@[i as int]@);
            return true;
        }
        i = i + 1;
    }
    false
}

pub open spec fn names_view(v: Seq<NameRule>) -> Seq<NameRuleView> {
    v.map_values(|r: NameRule| r@)
}

pub open spec fn dirs_view(v: Seq<DirRule>) -> Seq<DirRuleView> {
    v.map_values(|r: DirRule| r@)
}

// --- home-relative paths ----------------------------------------------------

pub open spec fn opt_view(o: Option<&str>) -> Option<Seq<char>> {
    match o {
        Some(s) => Some(s@),
        None => None,
    }
}

/// A leading `~` or `~/...` expanded against the home directory; left as
/// is when there is no home directory.
pub open spec fn tilde_expanded(path: Seq<char>, home: Option<Seq<char>>) -> Seq<char> {
    match home {
        None => path,
        Some(h) => if path == "~"@ {
            h
        } else if "~/"@.is_prefix_of(path) {
            path_joined(h, path.skip(2))
        } else {
            path
        },
    }
}

/// Expands a leading `~` or `~/...` against `home` (the value of `$HOME`).
pub fn expand_tilde(path: &str, home: Option<&str>) -> (r: String)
    ensures
        r@ == tilde_expanded(path@, opt_view(home)),
{
    match home {
        None => String::from_str(path),
        Some(h) => {
            if str_eq(path, "~") {
                return String::from_str(h);
            }
            if starts_with(path, "~/") {
                proof {
                    reveal_strlit("~/");
                }
                let n = path.unicode_len();
                let rest = path.substring_char(2, n);
                assert(rest@ =~= path@.skip(2));
                return path_join(h, rest);
            }
            String::from_str(path)
        },
    }
}

/// The compiled-in skip list: the system and shared prefixes, the
/// filesystem root (exactly), and the home directory's Downloads and
/// Desktop.
pub open spec fn compiled_skip_view(home: Option<Seq<char>>) -> Seq<DirRuleView> {
    skip_prefix_rules() + seq![
        DirRuleView::Exact("/"@),
        DirRuleView::Prefix(tilde_expanded("~/Downloads"@, home)),
        DirRuleView::Prefix(tilde_expanded("~/Desktop"@, home)),
    ]
}

pub open spec fn skip_prefix_rules() -> Seq<DirRuleView> {
    Seq::new(SKIP_PREFIXES@.len(), |i: int| DirRuleView::Prefix(SKIP_PREFIXES@[i]@))
}

pub fn compiled_skip_dirs(home: Option<&str>) -> (dirs: Vec<DirRule>)
    ensures
        dirs_view(dirs@) == compiled_skip_view(opt_view(home)),
{
    let mut dirs: Vec<DirRule> = Vec::new();
    let mut i: usize = 0;
    while i < SKIP_PREFIXES.len()
        invariant
            i <= SKIP_PREFIXES@.len(),
            dirs_view(dirs@) == skip_prefix_rules().take(i as int),
        decreases SKIP_PREFIXES.len() - i,
    {
        let ghost before = dirs@;
        let p = SKIP_PREFIXES[i];
        dirs.push(DirRule::Prefix(String::from_str(p)));
        assert(dirs_view(dirs@) =~= dirs_view(before).push(DirRuleView::Prefix(p@)));
        assert(dirs_view(dirs@) =~= skip_prefix_rules().take(i + 1));
        i = i + 1;
    }
    assert(skip_prefix_rules().take(SKIP_PREFIXES@.len() as int) =~= skip_prefix_rules());
    let ghost base = dirs@;
    let a = DirRule::Exact(String::from_str("/"));
    let b = DirRule::Prefix(expand_tilde("~/Downloads", home));
    let c = DirRule::Prefix(expand_tilde("~/Desktop", home));
    let ghost (av, bv, cv) = (a@, b@, c@);
    dirs.push(a);
    dirs.push(b);
    dirs.push(c);
    assert(dirs_view(dirs@) =~= dirs_view(base) + seq![av, bv, cv]);
    assert(dirs_view(dirs@) =~= compiled_skip_view(opt_view(home)));
    dirs
}

/// Not user-configurable: a `.env` inside a downloaded dependency is never
/// something the user wrote. Matched as a path component, not a substring,
/// so `my-vendor-tools` does not match.
pub open spec fn vendored_component(dir: Seq<char>) -> bool {
    exists|i: int, j: int| 0 <= i < path_component_names(dir).len() && 0 <= j < VENDORED@.len()
        && #[trigger] path_component_names(dir)[i] == Some((#[trigger] VENDORED@[j])@)
}

pub fn has_vendored_component(dir: &str) -> (r: bool)
    ensures
        r == vendored_component(dir@),
{
    let comps = path_components(dir);
    let ghost names = path_component_names(dir@);
    assert(names.len() == comps@.len());
    let mut i: usize = 0;
    while i < comps.len()
        invariant
            names == path_component_names(dir@),
            names == comps@.map_values(|c: Option<String>| match c {
                Some(s) => Some(s@),
                None => None,
            }),
            i <= comps@.len(),
            forall|a: int, j: int| 0 <= a < i && 0 <= j < VENDORED@.len() ==> #[trigger] names[a] != Some((#[trigger] VENDORED@[j])@),
        decreases comps.len() - i,
    {
        match &comps[i] {
            Some(name) => {
                assert(names[i as int] == Some(name@));
                let mut j: usize = 0;
                while j < VENDORED.len()
                    invariant
                        names == path_component_names(dir@),
                        names.len() == comps@.len(),
                        i < comps@.len(),
                        names[i as int] == Some(name@),
                        j <= VENDORED@.len(),
                        forall|b: int| 0 <= b < j ==> names[i as int] != Some((#[trigger] VENDORED@[b])@),
                    decreases VENDORED.len() - j,
                {
                    if str_eq(name.as_str(), VENDORED[j]) {
                        assert(names[i as int] == Some(VENDORED@[j as int]@));
                        return true;
                    }
                    j = j + 1;
                }
            },
            None => {},
        }
        i = i + 1;
    }
    false
}


// --- the configuration ----------------------------------------------------------

pub struct Config {
    deny_extra: Vec<NameRule>,
    allow: Vec<NameRule>,
    skip_dirs: Vec<DirRule>,
    unskip_dirs: Vec<DirRule>,
}

pub struct ConfigView {
    pub deny_extra: Seq<NameRuleView>,
    pub allow: Seq<NameRuleView>,
    pub skip_dirs: Seq<DirRuleView>,
    pub unskip_dirs: Seq<DirRuleView>,
}

impl View for Config {
    type V = ConfigView;

    closed spec fn view(&self) -> ConfigView {
        ConfigView {
            deny_extra: names_view(self.deny_extra@),
            allow: names_view(self.allow@),
            skip_dirs: dirs_view(self.skip_dirs@),
            unskip_dirs: dirs_view(self.unskip_dirs@),
        }
    }
}

/// `allow` always wins over both the compiled-in defaults and
/// `deny_extra`.
pub open spec fn key_denied(c: ConfigView, key: Seq<char>) -> bool {
    !any_name_rule_matches(c.allow, key) && (denied_by_compiled_defaults(key) || any_name_rule_matches(c.deny_extra, key))
}

/// `unskip` always wins over both the compiled-in defaults and
/// `skip_extra`.
pub open spec fn dir_skipped(c: ConfigView, dir: Seq<char>) -> bool {
    !any_dir_rule_matches(c.unskip_dirs, dir) && any_dir_rule_matches(c.skip_dirs, dir)
}

/// The compiled-in defaults: no extra or allowed names, the compiled-in
/// skip list, nothing unskipped.
pub open spec fn defaults_view(home: Option<Seq<char>>) -> ConfigView {
    ConfigView {
        deny_extra: Seq::empty(),
        allow: Seq::empty(),
        skip_dirs: compiled_skip_view(home),
        unskip_dirs: Seq::empty(),
    }
}

/// The raw contents of the config file, as the TOML reader found them.
pub struct RawConfig {
    pub env: RawEnvSection,
    pub dirs: RawDirsSection,
    /// Unknown top-level keys, in the order the TOML reader lists them.
    pub extra: Vec<String>,
}

pub struct RawEnvSection {
    pub deny_extra: Vec<String>,
    pub allow: Vec<String>,
    /// Unknown keys in `[env]`.
    pub extra: Vec<String>,
}

pub struct RawDirsSection {
    pub skip_extra: Vec<String>,
    pub unskip: Vec<String>,
    /// Unknown keys in `[dirs]`.
    pub extra: Vec<String>,
}

pub open spec fn strings_view(v: Seq<String>) -> Seq<Seq<char>> {
    v.map_values(|s: String| s@)
}

/// The configuration a raw file gives: its rules added to the compiled-in
/// skip list, names parsed as rules, directories tilde-expanded.
pub open spec fn from_raw_view(raw: RawConfig, home: Option<Seq<char>>) -> ConfigView {
    ConfigView {
        deny_extra: strings_view(raw.env.deny_extra@).map_values(|r: Seq<char>| parse_name_rule(r)),
        allow: strings_view(raw.env.allow@).map_values(|r: Seq<char>| parse_name_rule(r)),
        skip_dirs: compiled_skip_view(home) + strings_view(raw.dirs.skip_extra@).map_values(
            |d: Seq<char>| DirRuleView::Prefix(tilde_expanded(d, home)),
        ),
        unskip_dirs: strings_view(raw.dirs.unskip@).map_values(|d: Seq<char>| DirRuleView::Prefix(tilde_expanded(d, home))),
    }
}

fn parse_rules(raw: &Vec<String>) -> (rules: Vec<NameRule>)
    ensures
        names_view(rules@) == strings_view(raw@).map_values(|r: Seq<char>| parse_name_rule(r)),
{
    let mut rules: Vec<NameRule> = Vec::new();
    let mut i: usize = 0;
    while i < raw.len()
        invariant
            i <= raw@.len(),
            names_view(rules@) == strings_view(raw@).map_values(|r: Seq<char>| parse_name_rule(r)).take(i as int),
        decreases raw.len() - i,
    {
        let ghost before = rules@;
        let r = NameRule::parse(raw[i].as_str());
        rules.push(r);
        assert(names_view(rules@) =~= names_view(before).push(parse_name_rule(raw@[i as int]@)));
        assert(names_view(rules@) =~= strings_view(raw@).map_values(|r: Seq<char>| parse_name_rule(r)).take(i + 1));
        i = i + 1;
    }
    assert(strings_view(raw@).map_values(|r: Seq<char>| parse_name_rule(r)).take(raw@.len() as int) =~= strings_view(raw@).map_values(|r: Seq<char>| parse_name_rule(r)));
    rules
}

fn push_dir_prefixes(out: &mut Vec<DirRule>, raw: &Vec<String>, home: Option<&str>)
    ensures
        dirs_view(final(out)@) == dirs_view(old(out)@) + strings_view(raw@).map_values(
            |d: Seq<char>| DirRuleView::Prefix(tilde_expanded(d, opt_view(home))),
        ),
{
    let ghost start = dirs_view(out@);
    let ghost want = strings_view(raw@).map_values(|d: Seq<char>| DirRuleView::Prefix(tilde_expanded(d, opt_view(home))));
    let mut i: usize = 0;
    while i < raw.len()
        invariant
            i <= raw@.len(),
            want == strings_view(raw@).map_values(|d: Seq<char>| DirRuleView::Prefix(tilde_expanded(d, opt_view(home)))),
            dirs_view(out@) == start + want.take(i as int),
        decreases raw.len() - i,
    {
        let ghost before = out@;
        let d = DirRule::Prefix(expand_tilde(raw[i].as_str(), home));
        out.push(d);
        assert(dirs_view(out@) =~= dirs_view(before).push(want[i as int]));
        assert(dirs_view(out@) =~= start + want.take(i + 1));
        i = i + 1;
    }
    assert(want.take(raw@.len() as int) =~= want);
}

impl Config {
    /// Compiled-in defaults only, no user config overlay.
    pub fn defaults(home: Option<&str>) -> (c: Config)
        ensures
            c@ == defaults_view(opt_view(home)),
    {
        let c = Config {
            deny_extra: Vec::new(),
            allow: Vec::new(),
            skip_dirs: compiled_skip_dirs(home),
            unskip_dirs: Vec::new(),
        };
        assert(c@.deny_extra =~= Seq::<NameRuleView>::empty());
        assert(c@.allow =~= Seq::<NameRuleView>::empty());
        assert(c@.unskip_dirs =~= Seq::<DirRuleView>::empty());
        c
    }

    /// No restrictions at all -- not even the compiled-in skip list.
    pub fn unrestricted() -> (c: Config)
        ensures
            c@.deny_extra.len() == 0,
            c@.allow.len() == 0,
            c@.skip_dirs.len() == 0,
            c@.unskip_dirs.len() == 0,
    {
        Config { deny_extra: Vec::new(), allow: Vec::new(), skip_dirs: Vec::new(), unskip_dirs: Vec::new() }
    }

    /// Like `unrestricted`, but skipping the given directory prefixes.
    pub fn unrestricted_with_skip(paths: &[String]) -> (c: Config)
        ensures
            c@.deny_extra.len() == 0,
            c@.allow.len() == 0,
            c@.skip_dirs == paths@.map_values(|p: String| DirRuleView::Prefix(p@)),
            c@.unskip_dirs.len() == 0,
    {
        let mut skip_dirs: Vec<DirRule> = Vec::new();
        let mut i: usize = 0;
        while i < paths.len()
            invariant
                i <= paths@.len(),
                dirs_view(skip_dirs@) == paths@.map_values(|p: String| DirRuleView::Prefix(p@)).take(i as int),
            decreases paths.len() - i,
        {
            let ghost before = skip_dirs@;
            skip_dirs.push(DirRule::Prefix(paths[i].clone()));
            assert(dirs_view(skip_dirs@) =~= dirs_view(before).push(DirRuleView::Prefix(paths@[i as int]@)));
            assert(dirs_view(skip_dirs@) =~= paths@.map_values(|p: String| DirRuleView::Prefix(p@)).take(i + 1));
            i = i + 1;
        }
        assert(paths@.map_values(|p: String| DirRuleView::Prefix(p@)).take(paths@.len() as int) =~= paths@.map_values(|p: String| DirRuleView::Prefix(p@)));
        Config { deny_extra: Vec::new(), allow: Vec::new(), skip_dirs, unskip_dirs: Vec::new() }
    }

    /// The configuration a parsed config file gives.
    pub fn from_raw(raw: &RawConfig, home: Option<&str>) -> (c: Config)
        ensures
            c@ == from_raw_view(*raw, opt_view(home)),
    {
        let deny_extra = parse_rules(&raw.env.deny_extra);
        let allow = parse_rules(&raw.env.allow);
        let mut skip_dirs = compiled_skip_dirs(home);
        push_dir_prefixes(&mut skip_dirs, &raw.dirs.skip_extra, home);
        let mut unskip_dirs: Vec<DirRule> = Vec::new();
        push_dir_prefixes(&mut unskip_dirs, &raw.dirs.unskip, home);
        assert(dirs_view(Seq::<DirRule>::empty()) =~= Seq::<DirRuleView>::empty());
        assert(Seq::<DirRuleView>::empty() + strings_view(raw.dirs.unskip@).map_values(|d: Seq<char>| DirRuleView::Prefix(tilde_expanded(d, opt_view(home)))) =~= strings_view(raw.dirs.unskip@).map_values(|d: Seq<char>| DirRuleView::Prefix(tilde_expanded(d, opt_view(home)))));
        Config { deny_extra, allow, skip_dirs, unskip_dirs }
    }

    /// Whether a `.env` may not set `key`. `allow` always wins over both
    /// the compiled-in defaults and `deny_extra`.
    pub fn is_denied_key(&self, key: &str) -> (r: bool)
        ensures
            r == key_denied(self@, key@),
    {
        if any_name_rule(&self.allow, key) {
            return false;
        }
        is_denied_by_compiled_defaults(key) || any_name_rule(&self.deny_extra, key)
    }

    /// Whether `.env` files in `dir` are ignored. `unskip` always wins over
    /// both the compiled-in defaults and `skip_extra`.
    pub fn is_skipped_dir(&self, dir: &str) -> (r: bool)
        ensures
            r == dir_skipped(self@, dir@),
            (exists|i: int| 0 <= i < self@.skip_dirs.len() && rule_covers_by_text(#[trigger] self@.skip_dirs[i], dir@))
                && !any_dir_rule_matches(self@.unskip_dirs, dir@) ==> r,
    {
        if any_dir_rule(&self.unskip_dirs, dir) {
            return false;
        }
        any_dir_rule(&self.skip_dirs, dir)
    }
}


// --- loading the config file ---------------------------------------------------

/// What reading the config file gave.
pub enum ConfigFile {
    /// The file could not be read (most often: it does not exist). Not an
    /// error: it means defaults only.
    Unreadable,
    /// The file was read but is not valid TOML for this schema; the text is
    /// the parser's error.
    Malformed(String),
    /// The file's contents.
    Parsed(RawConfig),
}

pub struct ConfigLoadResult {
    pub config: Config,
    /// Unknown-key warnings; never populated when `parse_error` is set
    /// (an unparseable file has no keys to report on).
    pub warnings: Vec<String>,
    /// Set when the file existed but failed to parse. `config` is then
    /// the compiled-in-only fallback: callers decide whether that's a
    /// hard error (`status`) or a warn-and-continue (`export`), but
    /// either way it is never "no restrictions."
    pub parse_error: Option<String>,
    pub path: String,
}

pub open spec fn top_key_warning(key: Seq<char>, path: Seq<char>) -> Seq<char> {
    "easyenv: warning: unknown config key "@ + debug_quoted(key) + " in "@ + path
}

pub open spec fn section_key_warning(section: Seq<char>, key: Seq<char>, path: Seq<char>) -> Seq<char> {
    "easyenv: warning: unknown config key \""@ + section + "."@ + key + "\" in "@ + path
}

/// One warning per unknown key: the top-level ones, then those in
/// `[env]`, then those in `[dirs]`, each in file order.
pub open spec fn unknown_key_warnings(raw: RawConfig, path: Seq<char>) -> Seq<Seq<char>> {
    strings_view(raw.extra@).map_values(|k: Seq<char>| top_key_warning(k, path))
        + strings_view(raw.env.extra@).map_values(|k: Seq<char>| section_key_warning("env"@, k, path))
        + strings_view(raw.dirs.extra@).map_values(|k: Seq<char>| section_key_warning("dirs"@, k, path))
}

fn push_section_warnings(out: &mut Vec<String>, section: &str, keys: &Vec<String>, path: &str)
    ensures
        strings_view(final(out)@) == strings_view(old(out)@)
            + strings_view(keys@).map_values(|k: Seq<char>| section_key_warning(section@, k, path@)),
{
    let ghost start = strings_view(out@);
    let ghost want = strings_view(keys@).map_values(|k: Seq<char>| section_key_warning(section@, k, path@));
    let mut i: usize = 0;
    while i < keys.len()
        invariant
            i <= keys@.len(),
            want == strings_view(keys@).map_values(|k: Seq<char>| section_key_warning(section@, k, path@)),
            strings_view(out@) == start + want.take(i as int),
        decreases keys.len() - i,
    {
        let ghost before = out@;
        let mut w = String::from_str("easyenv: warning: unknown config key \"");
        w.append(section);
        w.append(".");
        w.append(keys[i].as_str());
        w.append("\" in ");
        w.append(path);
        out.push(w);
        assert(strings_view(out@) =~= strings_view(before).push(want[i as int]));
        assert(strings_view(out@) =~= start + want.take(i + 1));
        i = i + 1;
    }
    assert(want.take(keys@.len() as int) =~= want);
}

fn unknown_warnings(raw: &RawConfig, path: &str) -> (out: Vec<String>)
    ensures
        strings_view(out@) == unknown_key_warnings(*raw, path@),
{
    let ghost want = strings_view(raw.extra@).map_values(|k: Seq<char>| top_key_warning(k, path@));
    let mut out: Vec<String> = Vec::new();
    let mut i: usize = 0;
    while i < raw.extra.len()
        invariant
            i <= raw.extra@.len(),
            want == strings_view(raw.extra@).map_values(|k: Seq<char>| top_key_warning(k, path@)),
            strings_view(out@) == want.take(i as int),
        decreases raw.extra.len() - i,
    {
        let ghost before = out@;
        let mut w = String::from_str("easyenv: warning: unknown config key ");
        let q = debug_quote(raw.extra[i].as_str());
        w.append(q.as_str());
        w.append(" in ");
        w.append(path);
        out.push(w);
        assert(strings_view(out@) =~= strings_view(before).push(want[i as int]));
        assert(strings_view(out@) =~= want.take(i + 1));
        i = i + 1;
    }
    assert(want.take(raw.extra@.len() as int) =~= want);
    push_section_warnings(&mut out, "env", &raw.env.extra, path);
    push_section_warnings(&mut out, "dirs", &raw.dirs.extra, path);
    out
}

/// Loads the configuration from what reading the file at `path` gave.
/// An unreadable file means defaults only; a malformed one means the
/// compiled-in defaults plus the parse error -- never "no restrictions".
pub fn load_config_from(path: &str, file: ConfigFile, home: Option<&str>) -> (r: ConfigLoadResult)
    ensures
        r.path@ == path@,
        match file {
            ConfigFile::Unreadable => r.config@ == defaults_view(opt_view(home)) && r.warnings@.len() == 0
                && r.parse_error is None,
            ConfigFile::Malformed(msg) => r.config@ == defaults_view(opt_view(home)) && r.warnings@.len() == 0
                && r.parse_error == Some(msg),
            ConfigFile::Parsed(raw) => r.config@ == from_raw_view(raw, opt_view(home))
                && strings_view(r.warnings@) == unknown_key_warnings(raw, path@) && r.parse_error is None,
        },
{
    match file {
        ConfigFile::Unreadable => ConfigLoadResult {
            config: Config::defaults(home),
            warnings: Vec::new(),
            parse_error: None,
            path: String::from_str(path),
        },
        ConfigFile::Malformed(msg) => ConfigLoadResult {
            config: Config::defaults(home),
            warnings: Vec::new(),
            parse_error: Some(msg),
            path: String::from_str(path),
        },
        ConfigFile::Parsed(raw) => {
            let warnings = unknown_warnings(&raw, path);
            let config = Config::from_raw(&raw, home);
            ConfigLoadResult { config, warnings, parse_error: None, path: String::from_str(path) }
        },
    }
}

/// Where the config file lives: `$XDG_CONFIG_HOME/easyenv/config.toml`,
/// else `$HOME/.config/easyenv/config.toml` (an unset `HOME` counting as
/// empty). Taken from the process environment only -- never from a
/// `.env`, since that would let a `.env` relocate the file that governs it.
pub open spec fn config_path_view(xdg: Option<Seq<char>>, home: Option<Seq<char>>) -> Seq<char> {
    match xdg {
        Some(x) => path_joined(path_joined(x, "easyenv"@), "config.toml"@),
        None => path_joined(
            path_joined(path_joined(match home { Some(h) => h, None => Seq::empty() }, ".config"@), "easyenv"@),
            "config.toml"@,
        ),
    }
}

pub fn resolve_config_path(xdg_config_home: Option<&str>, home: Option<&str>) -> (r: String)
    ensures
        r@ == config_path_view(opt_view(xdg_config_home), opt_view(home)),
{
    match xdg_config_home {
        Some(x) => {
            let d = path_join(x, "easyenv");
            path_join(d.as_str(), "config.toml")
        },
        None => {
            let base = match home {
                Some(h) => String::from_str(h),
                None => String::new(),
            };
            let c = path_join(base.as_str(), ".config");
            let d = path_join(c.as_str(), "easyenv");
            path_join(d.as_str(), "config.toml")
        },
    }
}

/// Loads the configuration from the file at `resolve_config_path(xdg,
/// home)`, given what reading that file gave.
pub fn load_config(xdg_config_home: Option<&str>, home: Option<&str>, file: ConfigFile) -> (r: ConfigLoadResult)
    ensures
        r.path@ == config_path_view(opt_view(xdg_config_home), opt_view(home)),
        match file {
            ConfigFile::Unreadable => r.config@ == defaults_view(opt_view(home)) && r.warnings@.len() == 0
                && r.parse_error is None,
            ConfigFile::Malformed(msg) => r.config@ == defaults_view(opt_view(home)) && r.warnings@.len() == 0
                && r.parse_error == Some(msg),
            ConfigFile::Parsed(raw) => r.config@ == from_raw_view(raw, opt_view(home))
                && strings_view(r.warnings@) == unknown_key_warnings(raw, r.path@) && r.parse_error is None,
        },
{
    let path = resolve_config_path(xdg_config_home, home);
    load_config_from(path.as_str(), file, home)
}

// --- laws ----------------------------------------------------------------------

/// `allow` always wins: a name an `allow` rule matches is never denied,
/// whatever the compiled-in lists or `deny_extra` say.
pub proof fn law_allow_always_wins(raw: RawConfig, home: Option<Seq<char>>, key: Seq<char>)
    requires
        any_name_rule_matches(from_raw_view(raw, home).allow, key),
    ensures
        !key_denied(from_raw_view(raw, home), key),
{
}

/// The config file only adds: a name the compiled-in lists or a
/// `deny_extra` rule deny stays denied unless an `allow` rule names it.
pub proof fn law_config_only_adds_denials(raw: RawConfig, home: Option<Seq<char>>, key: Seq<char>)
    requires
        denied_by_compiled_defaults(key) || any_name_rule_matches(from_raw_view(raw, home).deny_extra, key),
        !any_name_rule_matches(from_raw_view(raw, home).allow, key),
    ensures
        key_denied(from_raw_view(raw, home), key),
{
}

/// Fail closed: with no config file, or a malformed one, exactly the
/// compiled-in lists deny.
pub proof fn law_defaults_deny_compiled_list(home: Option<Seq<char>>, key: Seq<char>)
    ensures
        key_denied(defaults_view(home), key) == denied_by_compiled_defaults(key),
{
}

/// `unskip` always wins over both the compiled-in skip list and
/// `skip_extra`.
pub proof fn law_unskip_always_wins(raw: RawConfig, home: Option<Seq<char>>, dir: Seq<char>)
    requires
        any_dir_rule_matches(from_raw_view(raw, home).unskip_dirs, dir),
    ensures
        !dir_skipped(from_raw_view(raw, home), dir),
{
}

/// The compiled-in skip list always applies under a config file, unless
/// `unskip` names the directory; `skip_extra` prefixes add to it.
pub proof fn law_config_only_adds_skips(raw: RawConfig, home: Option<Seq<char>>, dir: Seq<char>)
    requires
        any_dir_rule_matches(compiled_skip_view(home), dir) || exists|i: int| 0 <= i < raw.dirs.skip_extra@.len()
            && path_has_base(dir, tilde_expanded(#[trigger] raw.dirs.skip_extra@[i]@, home)),
        !any_dir_rule_matches(from_raw_view(raw, home).unskip_dirs, dir),
    ensures
        dir_skipped(from_raw_view(raw, home), dir),
{
    let c = from_raw_view(raw, home);
    let base = compiled_skip_view(home);
    let extra = strings_view(raw.dirs.skip_extra@).map_values(|d: Seq<char>| DirRuleView::Prefix(tilde_expanded(d, home)));
    assert(c.skip_dirs == base + extra);
    if any_dir_rule_matches(base, dir) {
        let i = choose|i: int| 0 <= i < base.len() && dir_rule_matches(#[trigger] base[i], dir);
        assert(c.skip_dirs[i] == base[i]);
    } else {
        let i = choose|i: int| 0 <= i < raw.dirs.skip_extra@.len()
            && path_has_base(dir, tilde_expanded(#[trigger] raw.dirs.skip_extra@[i]@, home));
        assert(c.skip_dirs[base.len() + i] == extra[i]);
    }
}

/// A deny or allow entry as written in the config file matches `key`: a
/// trailing `*` makes it an anchored prefix, anything else an exact name.
pub open spec fn raw_rule_matches(rule: Seq<char>, key: Seq<char>) -> bool {
    if rule.len() > 0 && rule.last() == '*' {
        rule.drop_last().is_prefix_of(key)
    } else {
        rule == key
    }
}

/// The denial rule, over the file's own entries: a key is denied exactly
/// when no `allow` entry matches it, and the compiled-in lists or a
/// `deny_extra` entry do. (With no file, or a malformed one, both lists
/// are empty: `law_defaults_deny_compiled_list`.)
pub proof fn law_denial_rule_over_file(raw: RawConfig, home: Option<Seq<char>>, key: Seq<char>)
    ensures
        key_denied(from_raw_view(raw, home), key) == (
            !(exists|i: int| 0 <= i < raw.env.allow@.len() && raw_rule_matches(#[trigger] raw.env.allow@[i]@, key))
            && (denied_by_compiled_defaults(key)
                || exists|i: int| 0 <= i < raw.env.deny_extra@.len() && raw_rule_matches(#[trigger] raw.env.deny_extra@[i]@, key))
        ),
{
    let c = from_raw_view(raw, home);
    assert(any_name_rule_matches(c.allow, key) == exists|i: int| 0 <= i < raw.env.allow@.len() && raw_rule_matches(#[trigger] raw.env.allow@[i]@, key)) by {
        if any_name_rule_matches(c.allow, key) {
            let i = choose|i: int| 0 <= i < c.allow.len() && name_rule_matches(#[trigger] c.allow[i], key);
            assert(c.allow[i] == parse_name_rule(raw.env.allow@[i]@));
            assert(raw_rule_matches(raw.env.allow@[i]@, key));
        }
        if exists|i: int| 0 <= i < raw.env.allow@.len() && raw_rule_matches(#[trigger] raw.env.allow@[i]@, key) {
            let i = choose|i: int| 0 <= i < raw.env.allow@.len() && raw_rule_matches(#[trigger] raw.env.allow@[i]@, key);
            assert(c.allow[i] == parse_name_rule(raw.env.allow@[i]@));
            assert(name_rule_matches(c.allow[i], key));
        }
    }
    assert(any_name_rule_matches(c.deny_extra, key) == exists|i: int| 0 <= i < raw.env.deny_extra@.len() && raw_rule_matches(#[trigger] raw.env.deny_extra@[i]@, key)) by {
        if any_name_rule_matches(c.deny_extra, key) {
            let i = choose|i: int| 0 <= i < c.deny_extra.len() && name_rule_matches(#[trigger] c.deny_extra[i], key);
            assert(c.deny_extra[i] == parse_name_rule(raw.env.deny_extra@[i]@));
            assert(raw_rule_matches(raw.env.deny_extra@[i]@, key));
        }
        if exists|i: int| 0 <= i < raw.env.deny_extra@.len() && raw_rule_matches(#[trigger] raw.env.deny_extra@[i]@, key) {
            let i = choose|i: int| 0 <= i < raw.env.deny_extra@.len() && raw_rule_matches(#[trigger] raw.env.deny_extra@[i]@, key);
            assert(c.deny_extra[i] == parse_name_rule(raw.env.deny_extra@[i]@));
            assert(name_rule_matches(c.deny_extra[i], key));
        }
    }
}

/// The skip rule, over the file's own entries: `.env` files in `dir` are
/// ignored exactly when no `unskip` entry (tilde-expanded) is a base of
/// `dir`, and `dir` is the root itself, or a compiled-in prefix, the home
/// directory's Downloads or Desktop, or a `skip_extra` entry
/// (tilde-expanded) is a base of it -- bases compared by whole components.
pub proof fn law_skip_rule_over_file(raw: RawConfig, home: Option<Seq<char>>, dir: Seq<char>)
    ensures
        dir_skipped(from_raw_view(raw, home), dir) == (
            !(exists|i: int| 0 <= i < raw.dirs.unskip@.len() && path_has_base(dir, tilde_expanded(#[trigger] raw.dirs.unskip@[i]@, home)))
            && (path_same(dir, "/"@)
                || (exists|i: int| 0 <= i < SKIP_PREFIXES@.len() && path_has_base(dir, (#[trigger] SKIP_PREFIXES@[i])@))
                || path_has_base(dir, tilde_expanded("~/Downloads"@, home))
                || path_has_base(dir, tilde_expanded("~/Desktop"@, home))
                || exists|i: int| 0 <= i < raw.dirs.skip_extra@.len() && path_has_base(dir, tilde_expanded(#[trigger] raw.dirs.skip_extra@[i]@, home)))
        ),
{
    let c = from_raw_view(raw, home);
    let base = compiled_skip_view(home);
    let pre = skip_prefix_rules();
    let extra = strings_view(raw.dirs.skip_extra@).map_values(|d: Seq<char>| DirRuleView::Prefix(tilde_expanded(d, home)));
    assert(c.skip_dirs == base + extra);
    assert(base.len() == pre.len() + 3);
    assert(any_dir_rule_matches(c.unskip_dirs, dir) == exists|i: int| 0 <= i < raw.dirs.unskip@.len() && path_has_base(dir, tilde_expanded(#[trigger] raw.dirs.unskip@[i]@, home))) by {
        if any_dir_rule_matches(c.unskip_dirs, dir) {
            let i = choose|i: int| 0 <= i < c.unskip_dirs.len() && dir_rule_matches(#[trigger] c.unskip_dirs[i], dir);
            assert(c.unskip_dirs[i] == DirRuleView::Prefix(tilde_expanded(raw.dirs.unskip@[i]@, home)));
        }
        if exists|i: int| 0 <= i < raw.dirs.unskip@.len() && path_has_base(dir, tilde_expanded(#[trigger] raw.dirs.unskip@[i]@, home)) {
            let i = choose|i: int| 0 <= i < raw.dirs.unskip@.len() && path_has_base(dir, tilde_expanded(#[trigger] raw.dirs.unskip@[i]@, home));
            assert(c.unskip_dirs[i] == DirRuleView::Prefix(tilde_expanded(raw.dirs.unskip@[i]@, home)));
            assert(dir_rule_matches(c.unskip_dirs[i], dir));
        }
    }
    let rhs = path_same(dir, "/"@)
        || (exists|i: int| 0 <= i < SKIP_PREFIXES@.len() && path_has_base(dir, (#[trigger] SKIP_PREFIXES@[i])@))
        || path_has_base(dir, tilde_expanded("~/Downloads"@, home))
        || path_has_base(dir, tilde_expanded("~/Desktop"@, home))
        || exists|i: int| 0 <= i < raw.dirs.skip_extra@.len() && path_has_base(dir, tilde_expanded(#[trigger] raw.dirs.skip_extra@[i]@, home));
    assert(c.skip_dirs[pre.len() as int] == DirRuleView::Exact("/"@));
    assert(c.skip_dirs[pre.len() as int + 1] == DirRuleView::Prefix(tilde_expanded("~/Downloads"@, home)));
    assert(c.skip_dirs[pre.len() as int + 2] == DirRuleView::Prefix(tilde_expanded("~/Desktop"@, home)));
    assert(any_dir_rule_matches(c.skip_dirs, dir) == rhs) by {
        if any_dir_rule_matches(c.skip_dirs, dir) {
            let i = choose|i: int| 0 <= i < c.skip_dirs.len() && dir_rule_matches(#[trigger] c.skip_dirs[i], dir);
            if i < pre.len() {
                assert(c.skip_dirs[i] == DirRuleView::Prefix(SKIP_PREFIXES@[i]@));
            } else if i >= base.len() {
                let j = i - base.len();
                assert(c.skip_dirs[i] == extra[j]);
                assert(extra[j] == DirRuleView::Prefix(tilde_expanded(raw.dirs.skip_extra@[j]@, home)));
            }
        }
        if rhs {
            if exists|i: int| 0 <= i < SKIP_PREFIXES@.len() && path_has_base(dir, (#[trigger] SKIP_PREFIXES@[i])@) {
                let i = choose|i: int| 0 <= i < SKIP_PREFIXES@.len() && path_has_base(dir, (#[trigger] SKIP_PREFIXES@[i])@);
                assert(c.skip_dirs[i] == DirRuleView::Prefix(SKIP_PREFIXES@[i]@));
                assert(dir_rule_matches(c.skip_dirs[i], dir));
            } else if exists|i: int| 0 <= i < raw.dirs.skip_extra@.len() && path_has_base(dir, tilde_expanded(#[trigger] raw.dirs.skip_extra@[i]@, home)) {
                let j = choose|i: int| 0 <= i < raw.dirs.skip_extra@.len() && path_has_base(dir, tilde_expanded(#[trigger] raw.dirs.skip_extra@[i]@, home));
                assert(c.skip_dirs[base.len() as int + j] == extra[j]);
                assert(dir_rule_matches(c.skip_dirs[base.len() as int + j], dir));
            } else if path_same(dir, "/"@) {
                assert(dir_rule_matches(c.skip_dirs[pre.len() as int], dir));
            } else if path_has_base(dir, tilde_expanded("~/Downloads"@, home)) {
                assert(dir_rule_matches(c.skip_dirs[pre.len() as int + 1], dir));
            } else {
                assert(dir_rule_matches(c.skip_dirs[pre.len() as int + 2], dir));
            }
        }
    }
}

/// Every entry of the compiled-in lists denies: a key starting with a
/// listed prefix, a key whose leading bytes equal a case-insensitive
/// prefix ignoring ASCII case, a key equal to a listed exact name, and a
/// key equal to a case-insensitive exact name ignoring ASCII case -- under
/// the defaults and under any config file that does not `allow` it.
pub proof fn law_every_listed_name_is_denied(key: Seq<char>, raw: RawConfig, home: Option<Seq<char>>)
    ensures
        forall|i: int| 0 <= i < DENY_PREFIXES@.len() && (#[trigger] DENY_PREFIXES@[i])@.is_prefix_of(key)
            ==> denied_by_compiled_defaults(key),
        forall|i: int| 0 <= i < DENY_PREFIXES_CI@.len()
            && encode_utf8(key).len() >= encode_utf8((#[trigger] DENY_PREFIXES_CI@[i])@).len()
            && bytes_eq_ignore_ascii_case(
                encode_utf8(key).take(encode_utf8(DENY_PREFIXES_CI@[i]@).len() as int),
                encode_utf8(DENY_PREFIXES_CI@[i]@),
            ) ==> denied_by_compiled_defaults(key),
        forall|i: int| 0 <= i < DENY_EXACT@.len() && (#[trigger] DENY_EXACT@[i])@ == key
            ==> denied_by_compiled_defaults(key),
        forall|i: int| 0 <= i < DENY_EXACT_CI@.len()
            && bytes_eq_ignore_ascii_case(encode_utf8(key), encode_utf8((#[trigger] DENY_EXACT_CI@[i])@))
            ==> denied_by_compiled_defaults(key),
        denied_by_compiled_defaults(key) ==> key_denied(defaults_view(home), key),
        denied_by_compiled_defaults(key) && !any_name_rule_matches(from_raw_view(raw, home).allow, key)
            ==> key_denied(from_raw_view(raw, home), key),
{
}

} // verus!
