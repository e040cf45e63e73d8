//! The command line, as plain values.
use vstd::prelude::*;
use crate::shell::ShellKind;

verus! {

/// Automatic per-directory .env loading.
pub struct Cli {
    /// Emit diagnostics to stderr (never stdout, so eval'd output stays clean).
    pub debug: bool,
    pub command: Command,
}

pub enum Command {
    /// Print the one-line snippet to add to your shell's rc file.
    Init { shell: ShellKind },
    /// Print the hook-function-definition script, eval'd once at shell startup.
    Hook { shell: ShellKind },
    /// Hot path: compute and print the shell statements needed for the current directory.
    Export { shell: ShellKind },
    /// Human-readable: which .env files are active for the current directory.
    Status,
}

impl Cli {
    /// Diagnostics are on when asked for by `--debug` or by `EASYENV_DEBUG`
    /// being set (to anything).
    pub fn debug_enabled(&self, easyenv_debug_set: bool) -> (r: bool)
        ensures
            r == (self.debug || easyenv_debug_set),
    {
        self.debug || easyenv_debug_set
    }
}

} // verus!
