//! Where an environment variable is declared: system wide, for the users'
//! login shells, or in the configuration file of a terminal shell.
use vstd::prelude::*;
use crate::text::{chars_of, string_of};

verus! {

/// The reach of a variable declaration.
#[derive(Debug, Clone, Copy, PartialEq, Eq, Structural)]
pub enum Scope {
    /// Declared in `/etc/environment`.
    System,
    /// Declared in a script under `/etc/profile.d`.
    User,
    /// Declared in the user's `~/.bashrc` or `~/.zshenv`.
    Terminal,
}

/// `c` with an ASCII upper-case letter turned into its lower-case form.
pub open spec fn ascii_lower(c: char) -> char {
    if 'A' <= c && c <= 'Z' {
        (((c as u32) + 32) as u8) as char
    } else {
        c
    }
}

/// `s` with its ASCII letters in lower case.
pub open spec fn lower(s: Seq<char>) -> Seq<char> {
    s.map_values(|c: char| ascii_lower(c))
}

pub open spec fn word_system() -> Seq<char> {
    seq!['s', 'y', 's', 't', 'e', 'm']
}

pub open spec fn word_user() -> Seq<char> {
    seq!['u', 's', 'e', 'r']
}

pub open spec fn word_terminal() -> Seq<char> {
    seq!['t', 'e', 'r', 'm', 'i', 'n', 'a', 'l']
}

/// The scope that a command-line word names, compared without regard to case.
pub open spec fn scope_named(s: Seq<char>) -> Option<Scope> {
    if lower(s) == word_system() {
        Some(Scope::System)
    } else if lower(s) == word_user() {
        Some(Scope::User)
    } else if lower(s) == word_terminal() {
        Some(Scope::Terminal)
    } else {
        None
    }
}

/// The word that names a scope.
pub open spec fn scope_word(scope: Scope) -> Seq<char> {
    match scope {
        Scope::System => word_system(),
        Scope::User => word_user(),
        Scope::Terminal => word_terminal(),
    }
}

fn lower_char(c: char) -> (r: char)
    ensures
        r == ascii_lower(c),
{
    if 'A' <= c && c <= 'Z' {
        (((c as u32) + 32) as u8) as char
    } else {
        c
    }
}

/// Whether `s` equals `word` once its ASCII letters are in lower case.
fn matches_lower(s: &Vec<char>, word: &Vec<char>) -> (r: bool)
    ensures
        r == (lower(s@) == word@),
{
    if s.len() != word.len() {
        assert(lower(s@).len() != word@.len());
        return false;
    }
    let mut i: usize = 0;
    while i < s.len()
        invariant
            s.len() == word.len(),
            i <= s.len(),
            forall|k: int| 0 <= k < i ==> ascii_lower(s@[k]) == word@[k],
        decreases s.len() - i,
    {
        if lower_char(s[i]) != word[i] {
            assert(lower(s@)[i as int] != word@[i as int]);
            return false;
        }
        i = i + 1;
    }
    assert(lower(s@) =~= word@);
    true
}

impl Scope {
    /// Reads a scope from a command-line word: `system`, `user` or
    /// `terminal`, in any mix of upper and lower case; any other word is
    /// handed back as the error.
    ///
    /// Only ASCII letters are folded: the only character outside ASCII whose
    /// lower-case form is an ASCII letter is the Kelvin sign, whose lower
    /// case `k` occurs in none of the three words.
    pub fn parse(s: &str) -> (r: Result<Scope, String>)
        ensures
            scope_named(s@) matches Some(sc) ==> r == Ok::<Scope, String>(sc),
            scope_named(s@) is None ==> (r matches Err(e) && e@ == s@),
    {
        let cs = chars_of(s);
        let system: Vec<char> = vec!['s', 'y', 's', 't', 'e', 'm'];
        let user: Vec<char> = vec!['u', 's', 'e', 'r'];
        let terminal: Vec<char> = vec!['t', 'e', 'r', 'm', 'i', 'n', 'a', 'l'];
        assert(system@ == word_system());
        assert(user@ == word_user());
        assert(terminal@ == word_terminal());
        if matches_lower(&cs, &system) {
            Ok(Scope::System)
        } else if matches_lower(&cs, &user) {
            Ok(Scope::User)
        } else if matches_lower(&cs, &terminal) {
            Ok(Scope::Terminal)
        } else {
            Err(string_of(&cs))
        }
    }

    /// The word that names this scope: `system`, `user` or `terminal`.
    pub fn to_string(&self) -> (r: String)
        ensures
            r@ == scope_word(*self),
    {
        let w: Vec<char> = match self {
            Scope::System => vec!['s', 'y', 's', 't', 'e', 'm'],
            Scope::User => vec!['u', 's', 'e', 'r'],
            Scope::Terminal => vec!['t', 'e', 'r', 'm', 'i', 'n', 'a', 'l'],
        };
        string_of(&w)
    }

    /// The colour (red, green, blue) in which a variable of this scope is
    /// named in a listing.
    pub fn color(&self) -> (r: (u8, u8, u8))
        ensures
            *self == Scope::System ==> r == (124u8, 171u8, 230u8),
            *self == Scope::User ==> r == (220u8, 222u8, 89u8),
            *self == Scope::Terminal ==> r == (163u8, 113u8, 217u8),
    {
        match self {
            Scope::System => (124, 171, 230),
            Scope::User => (220, 222, 89),
            Scope::Terminal => (163, 113, 217),
        }
    }
}

impl std::str::FromStr for Scope {
    type Err = String;

    fn from_str(s: &str) -> (r: Result<Self, Self::Err>)
        ensures
            scope_named(s@) matches Some(sc) ==> r == Ok::<Scope, String>(sc),
            scope_named(s@) is None ==> (r matches Err(e) && e@ == s@),
    {
        Scope::parse(s)
    }
}

} // verus!
