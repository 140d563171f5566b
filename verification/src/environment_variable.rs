//! One declared environment variable and how it is shown in a listing.
use vstd::prelude::*;
use vstd::string::*;
use crate::input::List;
use crate::scope::Scope;
use crate::term::{
    fg_light_black, fg_light_black_code, fg_light_white, fg_light_white_code, fg_rgb,
    fg_rgb_code,
};
use crate::text::{byte_len, push_spaces, spaces};

verus! {

/// What a variable declaration holds, as sequences of characters.
pub struct VarView {
    pub name: Seq<char>,
    pub value: Seq<char>,
    pub scope: Scope,
    pub declared_in: Seq<char>,
}

/// A variable as declared in one file.
#[derive(Debug)]
pub struct EnvironmentVariable {
    name: String,
    value: String,
    scope: Scope,
    declared_in: String,
}

impl View for EnvironmentVariable {
    type V = VarView;

    closed spec fn view(&self) -> VarView {
        VarView {
            name: self.name@,
            value: self.value@,
            scope: self.scope,
            declared_in: self.declared_in@,
        }
    }
}

/// What a list of variables holds.
pub open spec fn var_views(v: Seq<EnvironmentVariable>) -> Seq<VarView> {
    v.map_values(|x: EnvironmentVariable| x@)
}

/// `code` where colours are on, nothing where they are off.
pub open spec fn colored(code: Seq<char>, colors: bool) -> Seq<char> {
    if colors {
        code
    } else {
        Seq::<char>::empty()
    }
}

/// The colour of the file names in a listing.
pub open spec fn declared_in_code() -> Seq<char> {
    fg_rgb_code(116, 184, 164)
}

/// The colour of the names of a scope's variables in a listing.
pub open spec fn scope_code(scope: Scope) -> Seq<char> {
    match scope {
        Scope::System => fg_rgb_code(124, 171, 230),
        Scope::User => fg_rgb_code(220, 222, 89),
        Scope::Terminal => fg_rgb_code(163, 113, 217),
    }
}

/// The line that shows `v` in a listing: with the file that declares it in
/// front when `show_declared_in`, colour codes left out when `colors` is off.
pub open spec fn listing_line(v: VarView, show_declared_in: bool, colors: bool) -> Seq<char> {
    if show_declared_in {
        colored(declared_in_code(), colors) + v.declared_in + seq![' '] + colored(
            scope_code(v.scope),
            colors,
        ) + v.name + seq![' '] + colored(fg_light_black_code(), colors) + seq!['=', ' ']
            + colored(fg_light_white_code(), colors) + v.value
    } else {
        colored(scope_code(v.scope), colors) + v.name + seq![' '] + colored(
            fg_light_black_code(),
            colors,
        ) + seq!['='] + colored(fg_light_white_code(), colors) + seq![' '] + v.value
    }
}

fn push_colored(line: &mut String, code: String, colors: bool)
    ensures
        final(line)@ == old(line)@ + colored(code@, colors),
{
    if colors {
        line.append(code.as_str());
    } else {
        assert(old(line)@ + colored(code@, colors) =~= old(line)@);
    }
}

impl EnvironmentVariable {
    pub fn new(name: String, value: String, scope: Scope, declared_in: String) -> (r:
        EnvironmentVariable)
        ensures
            r@ == (VarView { name: name@, value: value@, scope, declared_in: declared_in@ }),
    {
        EnvironmentVariable { name, value, scope, declared_in }
    }

    pub fn get_name(&self) -> (r: &str)
        ensures
            r@ == self@.name,
    {
        self.name.as_str()
    }

    pub fn get_value(&self) -> (r: &str)
        ensures
            r@ == self@.value,
    {
        self.value.as_str()
    }

    pub fn get_declared_in(&self) -> (r: &str)
        ensures
            r@ == self@.declared_in,
    {
        self.declared_in.as_str()
    }

    pub fn get_scope(&self) -> (r: Scope)
        ensures
            r == self@.scope,
    {
        self.scope
    }

    /// Pads the name and the file name with spaces up to `name_len` and
    /// `declared_len` bytes, so that the columns of a listing line up.
    pub fn balance_lengths_with_declared(&mut self, name_len: usize, declared_len: usize)
        requires
            byte_len(old(self)@.name) <= name_len,
            byte_len(old(self)@.declared_in) <= declared_len,
        ensures
            final(self)@.name == old(self)@.name + spaces((name_len - byte_len(old(self)@.name)) as nat),
            final(self)@.declared_in == old(self)@.declared_in + spaces(
                (declared_len - byte_len(old(self)@.declared_in)) as nat,
            ),
            final(self)@.value == old(self)@.value,
            final(self)@.scope == old(self)@.scope,
            byte_len(final(self)@.name) == name_len,
            byte_len(final(self)@.declared_in) == declared_len,
    {
        let pad = name_len - self.name.as_str().len();
        push_spaces(&mut self.name, pad);
        let pad = declared_len - self.declared_in.as_str().len();
        push_spaces(&mut self.declared_in, pad);
    }

    /// Pads the name with spaces up to `name_len` bytes.
    pub fn balance_lengths(&mut self, name_len: usize)
        requires
            byte_len(old(self)@.name) <= name_len,
        ensures
            final(self)@.name == old(self)@.name + spaces((name_len - byte_len(old(self)@.name)) as nat),
            final(self)@.value == old(self)@.value,
            final(self)@.scope == old(self)@.scope,
            final(self)@.declared_in == old(self)@.declared_in,
            byte_len(final(self)@.name) == name_len,
    {
        let pad = name_len - self.name.as_str().len();
        push_spaces(&mut self.name, pad);
    }

    /// The line that shows this variable in a listing (see [`listing_line`]).
    pub fn format_line(&self, options: List, colors: bool) -> (r: String)
        ensures
            r@ == listing_line(self@, options.show_declared_in, colors),
    {
        let (r, g, b) = self.scope.color();
        let mut line = String::new();
        if options.show_declared_in {
            push_colored(&mut line, fg_rgb(116, 184, 164), colors);
            line.append(self.declared_in.as_str());
            line.append(" ");
            push_colored(&mut line, fg_rgb(r, g, b), colors);
            line.append(self.name.as_str());
            line.append(" ");
            push_colored(&mut line, fg_light_black(), colors);
            line.append("= ");
            push_colored(&mut line, fg_light_white(), colors);
            line.append(self.value.as_str());
            proof {
                reveal_strlit(" ");
                reveal_strlit("= ");
            }
        } else {
            push_colored(&mut line, fg_rgb(r, g, b), colors);
            line.append(self.name.as_str());
            line.append(" ");
            push_colored(&mut line, fg_light_black(), colors);
            line.append("=");
            push_colored(&mut line, fg_light_white(), colors);
            line.append(" ");
            line.append(self.value.as_str());
            proof {
                reveal_strlit(" ");
                reveal_strlit("=");
            }
        }
        assert(line@ =~= listing_line(self@, options.show_declared_in, colors));
        line
    }
}

} // verus!
