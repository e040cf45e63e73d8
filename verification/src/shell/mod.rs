//! Turning a diff into POSIX shell statements, and the per-shell hook
//! scripts that call back into easyenv on every prompt.
use vstd::prelude::*;
use crate::diff::{Op, OpView, ops_view};
use crate::text::{chars_of, push_char};

pub mod bash;
pub mod zsh;

verus! {

#[derive(Copy, Clone, Debug, PartialEq, Eq)]
pub enum ShellKind {
    Bash,
    Zsh,
}

// --- shell identifiers -------------------------------------------------------

pub open spec fn is_ascii_alpha(c: char) -> bool {
    ('a' <= c && c <= 'z') || ('A' <= c && c <= 'Z')
}

pub open spec fn is_ascii_digit(c: char) -> bool {
    '0' <= c && c <= '9'
}

/// `[A-Za-z_][A-Za-z0-9_]*`: the names a POSIX shell accepts in
/// `export NAME=...` and `unset NAME`.
pub open spec fn valid_shell_key(k: Seq<char>) -> bool {
    &&& k.len() > 0
    &&& is_ascii_alpha(k[0]) || k[0] == '_'
    &&& forall|i: int| 1 <= i < k.len() ==> is_ascii_alpha(#[trigger] k[i]) || is_ascii_digit(k[i]) || k[i] == '_'
}

/// Only keys that are valid POSIX shell identifiers are safe to interpolate
/// unquoted into `export KEY=...` / `unset KEY` statements; `.env` keys may
/// contain `.`, which is not.
pub fn is_valid_shell_key(key: &str) -> (r: bool)
    ensures
        r == valid_shell_key(key@),
{
    let cs = chars_of(key);
    if cs.len() == 0 {
        return false;
    }
    let c0 = cs[0];
    if !(('a' <= c0 && c0 <= 'z') || ('A' <= c0 && c0 <= 'Z') || c0 == '_') {
        return false;
    }
    let mut i: usize = 1;
    while i < cs.len()
        invariant
            cs@ == key@,
            1 <= i <= cs@.len(),
            forall|j: int| 1 <= j < i ==> is_ascii_alpha(#[trigger] cs@[j]) || is_ascii_digit(cs@[j]) || cs@[j] == '_',
        decreases cs.len() - i,
    {
        let c = cs[i];
        if !(('a' <= c && c <= 'z') || ('A' <= c && c <= 'Z') || ('0' <= c && c <= '9') || c == '_') {
            return false;
        }
        i = i + 1;
    }
    true
}

// --- single quoting ----------------------------------------------------------

/// What one character becomes inside single quotes: a quote closes the
/// quoting, is written escaped, and the quoting reopens (`'\''`).
pub open spec fn quote_piece(c: char) -> Seq<char> {
    if c == '\'' {
        seq!['\'', '\\', '\'', '\'']
    } else {
        seq![c]
    }
}

pub open spec fn escape_quotes(s: Seq<char>) -> Seq<char>
    decreases s.len(),
{
    if s.len() == 0 {
        Seq::empty()
    } else {
        escape_quotes(s.drop_last()) + quote_piece(s.last())
    }
}

pub open spec fn single_quoted(s: Seq<char>) -> Seq<char> {
    seq!['\''] + escape_quotes(s) + seq!['\'']
}

/// Single-quotes a value for safe interpolation into POSIX shell source,
/// escaping embedded single quotes as `'\''`.
pub fn shell_single_quote(s: &str) -> (r: String)
    ensures
        r@ == single_quoted(s@),
{
    let cs = chars_of(s);
    let mut out = String::new();
    push_char(&mut out, '\'');
    let mut i: usize = 0;
    while i < cs.len()
        invariant
            cs@ == s@,
            i <= cs@.len(),
            out@ == seq!['\''] + escape_quotes(s@.take(i as int)),
        decreases cs.len() - i,
    {
        let c = cs[i];
        if c == '\'' {
            push_char(&mut out, '\'');
            push_char(&mut out, '\\');
            push_char(&mut out, '\'');
            push_char(&mut out, '\'');
        } else {
            push_char(&mut out, c);
        }
        proof {
            assert(s@.take(i + 1).drop_last() =~= s@.take(i as int));
            assert(s@.take(i + 1).last() == c);
            assert(out@ =~= seq!['\''] + escape_quotes(s@.take(i + 1)));
        }
        i = i + 1;
    }
    push_char(&mut out, '\'');
    assert(s@.take(cs@.len() as int) =~= s@);
    assert(out@ =~= single_quoted(s@));
    out
}

/// What a POSIX shell reads from a word made only of single-quoted
/// stretches and backslash-escaped characters (`in_quotes`: whether the
/// word starts inside a quoted stretch). `None` for a word holding
/// anything else: an unquoted character other than those two, or a quote
/// left open.
pub open spec fn shell_word_text(w: Seq<char>, in_quotes: bool) -> Option<Seq<char>>
    decreases w.len(),
{
    if w.len() == 0 {
        if in_quotes {
            None
        } else {
            Some(Seq::empty())
        }
    } else if in_quotes {
        if w[0] == '\'' {
            shell_word_text(w.drop_first(), false)
        } else {
            match shell_word_text(w.drop_first(), true) {
                Some(r) => Some(seq![w[0]] + r),
                None => None,
            }
        }
    } else if w[0] == '\'' {
        shell_word_text(w.drop_first(), true)
    } else if w[0] == '\\' && w.len() >= 2 {
        match shell_word_text(w.skip(2), false) {
            Some(r) => Some(seq![w[1]] + r),
            None => None,
        }
    } else {
        None
    }
}

pub proof fn lemma_escape_quotes_concat(a: Seq<char>, b: Seq<char>)
    ensures
        escape_quotes(a + b) == escape_quotes(a) + escape_quotes(b),
    decreases b.len(),
{
    if b.len() == 0 {
        assert(a + b =~= a);
        assert(escape_quotes(a) + escape_quotes(b) =~= escape_quotes(a));
    } else {
        lemma_escape_quotes_concat(a, b.drop_last());
        assert((a + b).drop_last() =~= a + b.drop_last());
        assert((a + b).last() == b.last());
        assert(escape_quotes(a + b) =~= escape_quotes(a) + escape_quotes(b));
    }
}

/// Reading the escaped text of `s`, then the closing quote, then `rest`
/// gives `s` followed by what `rest` reads as.
proof fn lemma_read_escaped(s: Seq<char>, rest: Seq<char>)
    ensures
        shell_word_text(escape_quotes(s) + seq!['\''] + rest, true) == match shell_word_text(rest, false) {
            Some(r) => Some(s + r),
            None => None::<Seq<char>>,
        },
    decreases s.len(),
{
    let w = escape_quotes(s) + seq!['\''] + rest;
    if s.len() == 0 {
        assert(escape_quotes(s) =~= Seq::<char>::empty());
        assert(w.drop_first() =~= rest);
        assert(s + Seq::<char>::empty() =~= s);
        match shell_word_text(rest, false) {
            Some(r) => assert(s + r =~= r),
            None => {},
        }
    } else {
        let c = s[0];
        let t = s.drop_first();
        lemma_read_escaped(t, rest);
        assert(s =~= seq![c] + t);
        lemma_escape_quotes_concat(seq![c], t);
        assert(seq![c].drop_last() =~= Seq::<char>::empty());
        assert(seq![c].last() == c);
        assert(escape_quotes(Seq::<char>::empty()) =~= Seq::<char>::empty());
        assert(escape_quotes(seq![c]) =~= quote_piece(c));
        let tail = escape_quotes(t) + seq!['\''] + rest;
        if c == '\'' {
            assert(w =~= seq!['\'', '\\', '\'', '\''] + tail);
            let w1 = w.drop_first();
            assert(w1 =~= seq!['\\', '\'', '\''] + tail);
            assert(w1.skip(2) =~= seq!['\''] + tail);
            assert(w1.skip(2).drop_first() =~= tail);
            assert(w[0] == '\'' && w1[0] == '\\' && w1[1] == '\'' && w1.skip(2)[0] == '\'');
            assert(shell_word_text(w1.skip(2), false) == shell_word_text(tail, true));
            assert(shell_word_text(w, true) == shell_word_text(w1, false));
            match shell_word_text(rest, false) {
                Some(r) => {
                    assert(shell_word_text(tail, true) == Some(t + r));
                    assert(shell_word_text(w1, false) == Some(seq!['\''] + (t + r)));
                    assert(seq!['\''] + (t + r) =~= s + r);
                },
                None => {
                    assert(shell_word_text(w1, false) is None);
                },
            }
        } else {
            assert(w =~= seq![c] + tail);
            assert(w.drop_first() =~= tail);
            assert(w[0] == c);
            match shell_word_text(rest, false) {
                Some(r) => {
                    assert(shell_word_text(tail, true) == Some(t + r));
                    assert(seq![c] + (t + r) =~= s + r);
                },
                None => {},
            }
        }
    }
}

/// Quoting round-trips through the shell: the word `shell_single_quote`
/// produces reads back as exactly the quoted text, whatever it holds.
pub proof fn law_single_quote_reads_back(s: Seq<char>)
    ensures
        shell_word_text(single_quoted(s), false) == Some(s),
{
    let w = single_quoted(s);
    lemma_read_escaped(s, Seq::empty());
    assert(w.drop_first() =~= escape_quotes(s) + seq!['\''] + Seq::<char>::empty());
    assert(s + Seq::<char>::empty() =~= s);
}

// --- statements --------------------------------------------------------------

/// The statement one operation becomes.
pub open spec fn op_line(op: OpView) -> Seq<char> {
    match op {
        OpView::Export(k, v) => "export "@ + k + "="@ + single_quoted(v) + "\n"@,
        OpView::Unset(k) => "unset "@ + k + "\n"@,
    }
}

pub open spec fn ops_lines(ops: Seq<OpView>) -> Seq<char>
    decreases ops.len(),
{
    if ops.len() == 0 {
        Seq::empty()
    } else {
        ops_lines(ops.drop_last()) + op_line(ops.last())
    }
}

/// The statements for `ops`, in order, then the re-export of the state
/// token.
pub open spec fn posix_script(ops: Seq<OpView>, token: Seq<char>) -> Seq<char> {
    ops_lines(ops) + "export EASYENV_STATE="@ + single_quoted(token) + "\n"@
}

/// Shared POSIX export/unset formatting used by both bash and zsh. The
/// state token is always re-exported (even when no keys are managed) so
/// the fast-path signature check has something to compare against on the
/// next invocation.
pub(crate) fn posix_format_ops(ops: &[Op], new_state_token: &str) -> (r: String)
    ensures
        r@ == posix_script(ops_view(ops@), new_state_token@),
{
    let mut out = String::new();
    let mut i: usize = 0;
    while i < ops.len()
        invariant
            i <= ops@.len(),
            out@ == ops_lines(ops_view(ops@).take(i as int)),
        decreases ops.len() - i,
    {
        let ghost before = out@;
        match &ops[i] {
            Op::Export(k, v) => {
                out.append("export ");
                out.append(k.as_str());
                out.append("=");
                let q = shell_single_quote(v.as_str());
                out.append(q.as_str());
                out.append("\n");
            },
            Op::Unset(k) => {
                out.append("unset ");
                out.append(k.as_str());
                out.append("\n");
            },
        }
        proof {
            let vs = ops_view(ops@);
            assert(vs.take(i + 1).drop_last() =~= vs.take(i as int));
            assert(vs.take(i + 1).last() == ops@[i as int]@);
            assert(out@ =~= before + op_line(ops@[i as int]@));
        }
        i = i + 1;
    }
    assert(ops_view(ops@).take(ops@.len() as int) =~= ops_view(ops@));
    out.append("export EASYENV_STATE=");
    let q = shell_single_quote(new_state_token);
    out.append(q.as_str());
    out.append("\n");
    out
}

/// The text `init_snippet` prints for a shell name.
pub open spec fn init_line(invocation: Seq<char>, name: Seq<char>) -> Seq<char> {
    "eval \"$("@ + invocation + " hook "@ + name + ")\""@
}

impl ShellKind {
    /// The name the command line uses for this shell.
    pub open spec fn name(self) -> Seq<char> {
        match self {
            ShellKind::Bash => "bash"@,
            ShellKind::Zsh => "zsh"@,
        }
    }

    pub fn format_ops(&self, ops: &[Op], new_state_token: &str) -> (r: String)
        ensures
            r@ == posix_script(ops_view(ops@), new_state_token@),
    {
        match self {
            ShellKind::Bash => bash::format_ops(ops, new_state_token),
            ShellKind::Zsh => zsh::format_ops(ops, new_state_token),
        }
    }

    /// The hook-function definition script, calling easyenv through
    /// `easyenv_invocation` (the shell-quoted absolute path to the binary,
    /// so that a `.env` setting `PATH` cannot hijack the hook).
    pub fn hook_script(&self, easyenv_invocation: &str) -> (r: String)
        ensures
            r@ == match self {
                ShellKind::Bash => bash::hook_text(easyenv_invocation@),
                ShellKind::Zsh => zsh::hook_text(easyenv_invocation@),
            },
    {
        match self {
            ShellKind::Bash => bash::hook_script(easyenv_invocation),
            ShellKind::Zsh => zsh::hook_script(easyenv_invocation),
        }
    }

    /// The one line to add to the shell's rc file.
    pub fn init_snippet(&self, easyenv_invocation: &str) -> (r: String)
        ensures
            r@ == init_line(easyenv_invocation@, self.name()),
    {
        let mut out = String::from_str("eval \"$(");
        out.append(easyenv_invocation);
        out.append(" hook ");
        match self {
            ShellKind::Bash => out.append("bash"),
            ShellKind::Zsh => out.append("zsh"),
        }
        out.append(")\"");
        out
    }

    pub fn rc_file_hint(&self) -> (r: &'static str)
        ensures
            r@ == match self {
                ShellKind::Bash => "~/.bashrc"@,
                ShellKind::Zsh => "~/.zshrc"@,
            },
    {
        match self {
            ShellKind::Bash => "~/.bashrc",
            ShellKind::Zsh => "~/.zshrc",
        }
    }
}

/// Only `[A-Za-z_][A-Za-z0-9_]*` is accepted, and all of it is: a key is a
/// valid shell identifier exactly when it is non-empty, its first
/// character is an ASCII letter or `_`, and every later one an ASCII
/// letter, digit or `_`.
pub proof fn law_shell_key_characters(k: Seq<char>)
    ensures
        valid_shell_key(k) <==> (
            k.len() > 0
            && (('a' <= k[0] && k[0] <= 'z') || ('A' <= k[0] && k[0] <= 'Z') || k[0] == '_')
            && forall|i: int| 1 <= i < k.len() ==> {
                let ch = #[trigger] k[i];
                ('a' <= ch && ch <= 'z') || ('A' <= ch && ch <= 'Z') || ('0' <= ch && ch <= '9') || ch == '_'
            }
        ),
{
}

} // verus!
