//! Where the configuration files of the user's shells are.
use vstd::prelude::*;
use vstd::string::*;
use crate::text::{chars_of, lemma_split_nonempty, same_chars, split, split_chars, string_of, views};

verus! {

/// The views of an optional string.
pub open spec fn opt_view(s: Option<&str>) -> Option<Seq<char>> {
    match s {
        Some(h) => Some(h@),
        None => None,
    }
}

/// Tilde expansion: a `~` that is the whole input or stands before a `/`
/// becomes the home directory, where there is one; any other input is kept.
pub open spec fn tilde_expansion(input: Seq<char>, home: Option<Seq<char>>) -> Seq<char> {
    if input.len() > 0 && input[0] == '~' && (input.len() == 1 || input[1] == '/') {
        match home {
            Some(h) => h + input.skip(1),
            None => input,
        }
    } else {
        input
    }
}

/// `shellexpand::tilde_with_context` with `home` as the home directory: the
/// input with a leading `~` (alone, or before a `/`) replaced by `home`,
/// when `home` is given, and the input unchanged otherwise. (On Windows a
/// `~` before a `\\` is replaced too; such input is not admitted.)
#[verifier::external_body]
fn expand_tilde(input: &str, home: Option<&str>) -> (r: String)
    requires
        !(input@.len() > 1 && input@[0] == '~' && input@[1] == '\\'),
    ensures
        r@ == tilde_expansion(input@, opt_view(home)),
{
    shellexpand::tilde_with_context(input, move || home).into_owned()
}

/// `~/.zshenv`
pub open spec fn zshenv_pattern() -> Seq<char> {
    seq!['~', '/', '.', 'z', 's', 'h', 'e', 'n', 'v']
}

/// `~/.bashrc`
pub open spec fn bashrc_pattern() -> Seq<char> {
    seq!['~', '/', '.', 'b', 'a', 's', 'h', 'r', 'c']
}

/// The path of zsh's `.zshenv` in the home directory `home`.
pub open spec fn zshenv_file(home: Option<Seq<char>>) -> Seq<char> {
    tilde_expansion(zshenv_pattern(), home)
}

/// The path of bash's `.bashrc` in the home directory `home`.
pub open spec fn bashrc_file(home: Option<Seq<char>>) -> Seq<char> {
    tilde_expansion(bashrc_pattern(), home)
}

/// The path of `~/.zshenv`, with `home` as the home directory.
pub fn zshenv_path(home: Option<&str>) -> (r: String)
    ensures
        r@ == zshenv_file(opt_view(home)),
        home matches Some(h) ==> r@ == h@ + seq!['/', '.', 'z', 's', 'h', 'e', 'n', 'v'],
{
    proof {
        reveal_strlit("~/.zshenv");
    }
    assert("~/.zshenv"@ == zshenv_pattern());
    assert("~/.zshenv"@[1] == '/');
    let r = expand_tilde("~/.zshenv", home);
    assert(zshenv_pattern().skip(1) =~= seq!['/', '.', 'z', 's', 'h', 'e', 'n', 'v']);
    r
}

/// The path of `~/.bashrc`, with `home` as the home directory.
pub fn bashrc_path(home: Option<&str>) -> (r: String)
    ensures
        r@ == bashrc_file(opt_view(home)),
        home matches Some(h) ==> r@ == h@ + seq!['/', '.', 'b', 'a', 's', 'h', 'r', 'c'],
{
    proof {
        reveal_strlit("~/.bashrc");
    }
    assert("~/.bashrc"@ == bashrc_pattern());
    assert("~/.bashrc"@[1] == '/');
    let r = expand_tilde("~/.bashrc", home);
    assert(bashrc_pattern().skip(1) =~= seq!['/', '.', 'b', 'a', 's', 'h', 'r', 'c']);
    r
}

/// A shell whose configuration file can take new variables.
#[derive(Debug, Clone, Copy, PartialEq, Eq, Structural)]
pub enum Shell {
    Zsh,
    Bash,
}

/// The shell that a shell's path names: its last `/`-separated part must be
/// `zsh` or `bash`.
pub open spec fn shell_named(shell_path: Seq<char>) -> Option<Shell> {
    let last = split(shell_path, '/').last();
    if last == seq!['z', 's', 'h'] {
        Some(Shell::Zsh)
    } else if last == seq!['b', 'a', 's', 'h'] {
        Some(Shell::Bash)
    } else {
        None
    }
}

/// The shell that `shell_path` (the value of `SHELL`) names; `None` for a
/// shell other than zsh and bash.
pub fn shell_of(shell_path: &str) -> (r: Option<Shell>)
    ensures
        r == shell_named(shell_path@),
{
    let cs = chars_of(shell_path);
    let mut parts = split_chars(&cs, '/');
    proof {
        lemma_split_nonempty(cs@, '/');
    }
    let ghost all = views(parts@);
    let last = parts.pop().unwrap();
    assert(last@ == all.last());
    if same_chars(&last, &vec!['z', 's', 'h']) {
        Some(Shell::Zsh)
    } else if same_chars(&last, &vec!['b', 'a', 's', 'h']) {
        Some(Shell::Bash)
    } else {
        None
    }
}

/// The configuration file that takes a shell's new variables.
pub open spec fn shell_config_file(shell: Shell, home: Option<Seq<char>>) -> Seq<char> {
    match shell {
        Shell::Zsh => zshenv_file(home),
        Shell::Bash => bashrc_file(home),
    }
}

impl Shell {
    /// The shell's name: `zsh` or `bash`.
    pub fn name(&self) -> (r: String)
        ensures
            *self == Shell::Zsh ==> r@ == seq!['z', 's', 'h'],
            *self == Shell::Bash ==> r@ == seq!['b', 'a', 's', 'h'],
    {
        match self {
            Shell::Zsh => string_of(&vec!['z', 's', 'h']),
            Shell::Bash => string_of(&vec!['b', 'a', 's', 'h']),
        }
    }

    /// The path of the shell's configuration file (`~/.zshenv` or
    /// `~/.bashrc`), with `home` as the home directory.
    pub fn config_path(&self, home: Option<&str>) -> (r: String)
        ensures
            r@ == shell_config_file(*self, opt_view(home)),
    {
        match self {
            Shell::Zsh => zshenv_path(home),
            Shell::Bash => bashrc_path(home),
        }
    }
}

} // verus!
