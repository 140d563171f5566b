//! What the `set` and `remove` commands do with the variables they find.
use vstd::prelude::*;
use crate::environment_variable::{EnvironmentVariable, VarView, var_views};
use crate::input::{Remove, SetOptions};
use crate::scope::Scope;
use crate::text::{chars_of, same_chars};

verus! {

/// Whether `i` is the first place in `vars` of a variable named `name`.
pub open spec fn first_named(vars: Seq<VarView>, name: Seq<char>, i: int) -> bool {
    &&& 0 <= i < vars.len()
    &&& vars[i].name == name
    &&& forall|j: int| 0 <= j < i ==> (#[trigger] vars[j]).name != name
}

/// Whether no variable in `vars` is named `name`.
pub open spec fn none_named(vars: Seq<VarView>, name: Seq<char>) -> bool {
    forall|j: int| 0 <= j < vars.len() ==> (#[trigger] vars[j]).name != name
}

/// The place of the first variable named `name`, where there is one.
pub fn find_variable(vars: &Vec<EnvironmentVariable>, name: &str) -> (r: Option<usize>)
    ensures
        r matches Some(i) ==> first_named(var_views(vars@), name@, i as int),
        r is None ==> none_named(var_views(vars@), name@),
{
    let target = chars_of(name);
    let mut i: usize = 0;
    while i < vars.len()
        invariant
            i <= vars.len(),
            target@ == name@,
            forall|j: int| 0 <= j < i ==> (#[trigger] var_views(vars@)[j]).name != name@,
        decreases vars.len() - i,
    {
        let found = chars_of(vars[i].get_name());
        if same_chars(&found, &target) {
            return Some(i);
        }
        i = i + 1;
    }
    None
}

/// What `set` does.
#[derive(Debug, Clone, Copy, PartialEq, Eq, Structural)]
pub enum SetPlan {
    /// Rewrite the file that declares the variable at this place of the
    /// list, the first one with the name.
    Replace(usize),
    /// Declare a new variable in `/etc/environment`.
    System,
    /// Declare a new variable in `/etc/profile.d/envch.sh`.
    User,
    /// Declare a new variable in the configuration file of the user's shell.
    Terminal,
}

/// What `set` does with a name that none of `vars` has: declare it in the
/// scope that the options name.
pub open spec fn new_in(scope: Scope) -> SetPlan {
    match scope {
        Scope::System => SetPlan::System,
        Scope::User => SetPlan::User,
        Scope::Terminal => SetPlan::Terminal,
    }
}

/// What `set` does with `vars`, the variables found: the first one named
/// like the option is rewritten where it is declared; where there is none,
/// a new one is declared in the scope that the options name.
pub fn plan_set(vars: &Vec<EnvironmentVariable>, options: &SetOptions) -> (r: SetPlan)
    ensures
        r matches SetPlan::Replace(i) ==> first_named(var_views(vars@), options.name@, i as int),
        !(r is Replace) ==> none_named(var_views(vars@), options.name@) && r == new_in(
            options.scope,
        ),
{
    match find_variable(vars, options.name.as_str()) {
        Some(i) => SetPlan::Replace(i),
        None => match options.scope {
            Scope::System => SetPlan::System,
            Scope::User => SetPlan::User,
            Scope::Terminal => SetPlan::Terminal,
        },
    }
}

/// What `remove` does.
#[derive(Debug, Clone, Copy, PartialEq, Eq, Structural)]
pub enum RemovePlan {
    /// No variable has the name.
    NotFound,
    /// Remove the declarations from `/etc/environment`.
    System,
    /// Remove the declarations from the script that declares the variable
    /// at this place of the list.
    Script(usize),
}

/// What `remove` does with `vars`, the variables found: the first one named
/// like the option decides; if it is of system scope its declarations leave
/// `/etc/environment`, otherwise the script that declares it.
pub fn plan_remove(vars: &Vec<EnvironmentVariable>, options: &Remove) -> (r: RemovePlan)
    ensures
        r is NotFound <==> none_named(var_views(vars@), options.name@),
        r is System ==> exists|i: int|
            first_named(var_views(vars@), options.name@, i) && (#[trigger] var_views(vars@)[i]).scope
                == Scope::System,
        r matches RemovePlan::Script(i) ==> first_named(var_views(vars@), options.name@, i as int)
            && var_views(vars@)[i as int].scope != Scope::System,
{
    match find_variable(vars, options.name.as_str()) {
        None => RemovePlan::NotFound,
        Some(i) => {
            assert(var_views(vars@)[i as int] == vars@[i as int]@);
            if vars[i].get_scope() == Scope::System {
                RemovePlan::System
            } else {
                RemovePlan::Script(i)
            }
        },
    }
}

/// What a user does for a variable of `scope` to take effect.
pub open spec fn hint_for(scope: Scope) -> Seq<char> {
    match scope {
        Scope::Terminal => "Restart your terminal for changes to take effect"@,
        Scope::User => "Log out of your computer for changes to take effect"@,
        Scope::System => "Restart your computer for changes to take effect"@,
    }
}

/// What a user does for a changed variable of `scope` to take effect.
pub fn restart_hint(scope: Scope) -> (r: String)
    ensures
        r@ == hint_for(scope),
{
    match scope {
        Scope::Terminal => "Restart your terminal for changes to take effect".to_owned(),
        Scope::User => "Log out of your computer for changes to take effect".to_owned(),
        Scope::System => "Restart your computer for changes to take effect".to_owned(),
    }
}

} // verus!
