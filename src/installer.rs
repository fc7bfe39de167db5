use vstd::prelude::*;
use vstd::string::*;

use crate::text::{chars_of, contains, contains_chars, string_of};

verus! {

/// `rel` placed under the directory `base`, with one `/` between them
/// unless `base` is empty or already ends with one.
pub open spec fn joined(base: Seq<char>, rel: Seq<char>) -> Seq<char> {
    if base.len() == 0 {
        rel
    } else if base.last() == '/' {
        base + rel
    } else {
        base + seq!['/'] + rel
    }
}

/// The shell that the value of `SHELL` names: `bash`, `zsh` or `fish` where
/// its text contains that word (tried in that order), else the value itself.
pub open spec fn shell_of(shell: Seq<char>) -> Seq<char> {
    if contains(shell, "bash"@) {
        "bash"@
    } else if contains(shell, "zsh"@) {
        "zsh"@
    } else if contains(shell, "fish"@) {
        "fish"@
    } else {
        shell
    }
}

/// The start-up file, relative to the home directory, of a shell.
pub open spec fn shell_config_rel(shell: Seq<char>) -> Seq<char> {
    if shell == "zsh"@ {
        ".zshrc"@
    } else if shell == "fish"@ {
        ".config/fish/config.fish"@
    } else {
        ".bashrc"@
    }
}

/// Computes `joined`.
pub fn join_path(base: &str, rel: &str) -> (r: String)
    ensures
        r@ == joined(base@, rel@),
{
    let b = chars_of(base);
    let mut r = base.to_owned();
    if b.len() > 0 && b[b.len() - 1] != '/' {
        r.append("/");
        proof {
            reveal_strlit("/");
        }
    }
    r.append(rel);
    proof {
        if b.len() > 0 && b[b.len() - 1] != '/' {
            assert(r@ =~= base@ + seq!['/'] + rel@);
        }
    }
    r
}

/// Names the shell in the value of `SHELL`, as `shell_of` says.
pub fn shell_name(shell: &str) -> (r: String)
    ensures
        r@ == shell_of(shell@),
{
    let s = chars_of(shell);
    if contains_chars(&s, &chars_of("bash")) {
        "bash".to_owned()
    } else if contains_chars(&s, &chars_of("zsh")) {
        "zsh".to_owned()
    } else if contains_chars(&s, &chars_of("fish")) {
        "fish".to_owned()
    } else {
        shell.to_owned()
    }
}

/// The start-up file of `shell` under the home directory `home`:
/// `.zshrc` for `zsh`, `.config/fish/config.fish` for `fish`, and
/// `.bashrc` for `bash` or any other shell.
pub fn get_shell_config(home: &str, shell: &str) -> (r: String)
    ensures
        r@ == joined(home@, shell_config_rel(shell@)),
{
    let s = chars_of(shell);
    let rel = if crate::text::same_chars(&s, &chars_of("zsh")) {
        ".zshrc"
    } else if crate::text::same_chars(&s, &chars_of("fish")) {
        ".config/fish/config.fish"
    } else {
        ".bashrc"
    };
    join_path(home, rel)
}

/// Whether `c` is white space in Unicode (the `White_Space` property, which
/// `char::is_whitespace` tests).
pub open spec fn is_space(c: char) -> bool {
    let u = c as u32;
    (0x09 <= u && u <= 0x0d) || u == 0x20 || u == 0x85 || u == 0xa0 || u == 0x1680 || (0x2000
        <= u && u <= 0x200a) || u == 0x2028 || u == 0x2029 || u == 0x202f || u == 0x205f || u
        == 0x3000
}

/// `s` without its leading white space.
pub open spec fn trim_start(s: Seq<char>) -> Seq<char>
    decreases s.len(),
{
    if s.len() > 0 && is_space(s[0]) {
        trim_start(s.drop_first())
    } else {
        s
    }
}

/// `s` without its trailing white space.
pub open spec fn trim_end(s: Seq<char>) -> Seq<char>
    decreases s.len(),
{
    if s.len() > 0 && is_space(s.last()) {
        trim_end(s.drop_last())
    } else {
        s
    }
}

/// `s` without leading and trailing white space, as `str::trim` leaves it.
pub open spec fn trimmed(s: Seq<char>) -> Seq<char> {
    trim_end(trim_start(s))
}

fn space(c: char) -> (r: bool)
    ensures
        r == is_space(c),
{
    let u = c as u32;
    (0x09 <= u && u <= 0x0d) || u == 0x20 || u == 0x85 || u == 0xa0 || u == 0x1680 || (0x2000
        <= u && u <= 0x200a) || u == 0x2028 || u == 0x2029 || u == 0x202f || u == 0x205f || u
        == 0x3000
}

/// Computes `trimmed`.
pub fn trim_text(s: &str) -> (r: String)
    ensures
        r@ == trimmed(s@),
{
    let c = chars_of(s);
    let n: usize = c.len();
    let mut start: usize = 0;
    assert(c@.skip(0) =~= c@);
    while start < n && space(c[start])
        invariant
            start <= n,
            n == c@.len(),
            trim_start(c@) == trim_start(c@.skip(start as int)),
        decreases n - start,
    {
        assert(c@.skip(start as int).drop_first() =~= c@.skip(start + 1));
        start = start + 1;
    }
    let ghost t = c@.skip(start as int);
    assert(trim_start(c@) == t);
    let mut end: usize = n;
    assert(t.take(n - start) =~= t);
    while end > start && space(c[end - 1])
        invariant
            start <= end <= n,
            n == c@.len(),
            t == c@.skip(start as int),
            trim_end(t) == trim_end(t.take(end - start)),
        decreases end,
    {
        assert(t.take(end - start).drop_last() =~= t.take(end - start - 1));
        end = end - 1;
    }
    assert(trim_end(t.take(end - start)) == t.take(end - start));
    let mut out: Vec<char> = Vec::new();
    let mut i: usize = start;
    while i < end
        invariant
            start <= i <= end <= n,
            n == c@.len(),
            out@ =~= c@.subrange(start as int, i as int),
        decreases end - i,
    {
        out.push(c[i]);
        i = i + 1;
    }
    assert(out@ =~= t.take(end - start));
    string_of(&out)
}

/// The editor chosen by an answer already trimmed: `nvim` for an empty
/// answer, else the answer itself.
pub fn executor_choice(answer: &str) -> (r: String)
    ensures
        r@ == (if answer@.len() == 0 {
            "nvim"@
        } else {
            answer@
        }),
{
    if answer.is_empty() {
        "nvim".to_owned()
    } else {
        answer.to_owned()
    }
}

/// The editor chosen by a line typed at the prompt, as `executor_choice`
/// says of the line without surrounding white space.
pub fn executor_from_answer(line: &str) -> (r: String)
    ensures
        r@ == (if trimmed(line@).len() == 0 {
            "nvim"@
        } else {
            trimmed(line@)
        }),
{
    let t = trim_text(line);
    executor_choice(t.as_str())
}

/// The text that `serde_json::to_string_pretty` writes for the JSON object
/// with the one string field `key` set to `value`.
pub uninterp spec fn json_pretty_object(key: Seq<char>, value: Seq<char>) -> Seq<char>;

/// Relies on `serde_json::to_string_pretty` of a one-entry map from string
/// to string: it writes the object with that field, into a buffer that
/// cannot fail, and the text depends on the key and the value alone.
#[verifier::external_body]
fn pretty_object(key: &str, value: &str) -> (r: Result<String, serde_json::Error>)
    ensures
        r is Ok,
        r is Ok ==> r->Ok_0@ == json_pretty_object(key@, value@),
{
    serde_json::to_string_pretty(&std::collections::BTreeMap::from([(key, value)]))
}

/// The text of the configuration file that selects `executor`: the JSON
/// object whose `executor` field is that editor.
pub fn config_json(executor: &str) -> (r: String)
    ensures
        r@ == json_pretty_object("executor"@, executor@),
{
    match pretty_object("executor", executor) {
        Ok(t) => t,
        Err(_) => String::new(),
    }
}

} // verus!
