use vstd::prelude::*;

use crate::utils::{is_valid_executor, valid_executor};

verus! {

/// How to start the editor: the program and its arguments.
pub struct EditorCommand {
    pub program: String,
    pub args: Vec<String>,
    /// The configured editor was unknown, and `vim` was taken instead.
    pub unknown_executor: bool,
}

/// The command that opens `path` with `executor`: `nvim` for `nvim`, and
/// `vim` for `vim` or anything else; the path is the one argument, and an
/// empty path gives none, leaving the editor to its own start.
pub fn editor_command(path: &str, executor: &str) -> (r: EditorCommand)
    ensures
        r.program@ == (if executor@ == "nvim"@ {
            "nvim"@
        } else {
            "vim"@
        }),
        r.unknown_executor == !valid_executor(executor@),
        path@.len() == 0 ==> r.args@.len() == 0,
        path@.len() > 0 ==> r.args@.len() == 1 && r.args@[0]@ == path@,
{
    let valid = is_valid_executor(executor);
    let nvim = crate::text::chars_of("nvim");
    let e = crate::text::chars_of(executor);
    let program = if crate::text::same_chars(&e, &nvim) {
        "nvim".to_owned()
    } else {
        "vim".to_owned()
    };
    let mut args: Vec<String> = Vec::new();
    if !path.is_empty() {
        args.push(path.to_owned());
    }
    EditorCommand { program, args, unknown_executor: !valid }
}

} // verus!
