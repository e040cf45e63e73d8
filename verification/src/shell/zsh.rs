//! zsh: the hook is registered in `chpwd_functions` and `precmd_functions`.
use vstd::prelude::*;
use crate::diff::{Op, ops_view};
use super::{posix_format_ops, posix_script};

verus! {

pub fn format_ops(ops: &[Op], new_state_token: &str) -> (r: String)
    ensures
        r@ == posix_script(ops_view(ops@), new_state_token@),
{
    posix_format_ops(ops, new_state_token)
}

/// The hook script up to the easyenv invocation. Registered in both
/// `chpwd_functions` (fires on `cd`) and `precmd_functions` (fires on every
/// prompt, which is what loads a shell that starts inside a `.env`
/// directory, since `chpwd_functions` alone does not fire on shell init).
pub const HOOK_HEAD: &'static str = r#"_easyenv_hook() {
  eval "$("#;

/// The hook script after the easyenv invocation.
pub const HOOK_TAIL: &'static str = r#" export zsh)"
}
typeset -ag chpwd_functions
if [[ -z "${chpwd_functions[(r)_easyenv_hook]}" ]]; then
  chpwd_functions+=(_easyenv_hook)
fi
typeset -ag precmd_functions
if [[ -z "${precmd_functions[(r)_easyenv_hook]}" ]]; then
  precmd_functions+=(_easyenv_hook)
fi
"#;

pub open spec fn hook_text(invocation: Seq<char>) -> Seq<char> {
    HOOK_HEAD@ + invocation + HOOK_TAIL@
}

/// The zsh hook script, calling easyenv through `easyenv_invocation`.
pub fn hook_script(easyenv_invocation: &str) -> (r: String)
    ensures
        r@ == hook_text(easyenv_invocation@),
{
    let mut out = String::from_str(HOOK_HEAD);
    out.append(easyenv_invocation);
    out.append(HOOK_TAIL);
    out
}

} // verus!
