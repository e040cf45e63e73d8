//! bash: the hook is registered on `PROMPT_COMMAND`.
use vstd::prelude::*;
use crate::diff::{Op, ops_view};
use super::{posix_format_ops, posix_script};

verus! {

pub fn format_ops(ops: &[Op], new_state_token: &str) -> (r: String)
    ensures
        r@ == posix_script(ops_view(ops@), new_state_token@),
{
    posix_format_ops(ops, new_state_token)
}

/// The hook script up to the easyenv invocation. Registered on
/// `PROMPT_COMMAND`, which fires before every prompt is drawn (including
/// the first one, so a shell that starts inside a `.env` directory loads
/// at once). Deliberately not gated on `$PWD` changing: a `.env` edited in
/// place must be picked up on the next prompt; the binary's fast-path
/// signature check keeps the unconditional call cheap. `$?` is saved and
/// restored so easyenv never changes the user's last exit status.
pub const HOOK_HEAD: &'static str = r#"_easyenv_hook() {
  local previous_exit_status=$?
  eval "$("#;

/// The hook script after the easyenv invocation.
pub const HOOK_TAIL: &'static str = r#" export bash)"
  return $previous_exit_status
}
if [[ ";${PROMPT_COMMAND:-};" != *";_easyenv_hook;"* ]]; then
  PROMPT_COMMAND="_easyenv_hook${PROMPT_COMMAND:+;$PROMPT_COMMAND}"
fi
"#;

pub open spec fn hook_text(invocation: Seq<char>) -> Seq<char> {
    HOOK_HEAD@ + invocation + HOOK_TAIL@
}

/// The bash hook script, calling easyenv through `easyenv_invocation`.
pub fn hook_script(easyenv_invocation: &str) -> (r: String)
    ensures
        r@ == hook_text(easyenv_invocation@),
{
    let mut out = String::from_str(HOOK_HEAD);
    out.append(easyenv_invocation);
    out.append(HOOK_TAIL);
    out
}

} // verus!
