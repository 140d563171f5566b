//! Reading variable declarations out of the files that hold them.
use vstd::prelude::*;
use crate::edit::string_views;
use crate::environment_variable::{EnvironmentVariable, VarView, var_views};
use crate::scope::Scope;
use crate::paths::{bashrc_file, bashrc_path, opt_view, zshenv_file, zshenv_path};
use crate::text::{
    byte_len, byte_len_of, chars_of, dollar_brace, export_chars, export_word, has_char,
    has_dollar_brace, has_prefix, is_quoted, lines, lines_of, path_chars, path_word, quoted,
    same_chars, skip_chars, skip_n, split, split_chars, split_first_two, starts_with_char,
    string_of, strip_quotes, strip_quotes_by_bytes, trim, trim_chars, views,
};

verus! {

/// The file of system-wide declarations.
pub open spec fn system_file() -> Seq<char> {
    seq!['/', 'e', 't', 'c', '/', 'e', 'n', 'v', 'i', 'r', 'o', 'n', 'm', 'e', 'n', 't']
}

fn system_file_string() -> (r: String)
    ensures
        r@ == system_file(),
{
    let v: Vec<char> = vec![
        '/', 'e', 't', 'c', '/', 'e', 'n', 'v', 'i', 'r', 'o', 'n', 'm', 'e', 'n', 't',
    ];
    string_of(&v)
}

/// A value of `/etc/environment` without its enclosing double quotes: the
/// last character is popped, then the first one skipped.
pub open spec fn unquote_system(v: Seq<char>) -> Seq<char> {
    if v.len() > 0 && v[0] == '"' && v.last() == '"' {
        if v.len() >= 2 {
            v.subrange(1, v.len() - 1)
        } else {
            Seq::<char>::empty()
        }
    } else {
        v
    }
}

/// The variables that the lines of `/etc/environment` declare: each line
/// that is not empty is `NAME=VALUE`, `PATH` is left out, and the value
/// ends at a second `=`.
pub open spec fn system_entries(segs: Seq<Seq<char>>) -> Seq<VarView>
    decreases segs.len(),
{
    if segs.len() == 0 {
        Seq::empty()
    } else if segs[0].len() == 0 {
        system_entries(segs.drop_first())
    } else {
        let parts = split(segs[0], '=');
        let rest = system_entries(segs.drop_first());
        if parts[0] == path_word() {
            rest
        } else {
            seq![
                VarView {
                    name: parts[0],
                    value: unquote_system(parts[1]),
                    scope: Scope::System,
                    declared_in: system_file(),
                },
            ] + rest
        }
    }
}

/// Whether every line that is not empty and does not declare `PATH` holds
/// an `=`.
pub open spec fn system_lines_parse(segs: Seq<Seq<char>>) -> bool
    decreases segs.len(),
{
    if segs.len() == 0 {
        true
    } else if segs[0].len() == 0 {
        system_lines_parse(segs.drop_first())
    } else {
        let parts = split(segs[0], '=');
        (parts[0] == path_word() || parts.len() >= 2) && system_lines_parse(segs.drop_first())
    }
}

/// The declarations of `/etc/environment`, given its contents.
pub open spec fn system_variables(contents: Seq<char>) -> Seq<VarView> {
    system_entries(split(contents, '\n'))
}

/// Whether `/etc/environment` with these contents can be read (see
/// [`system_lines_parse`]).
pub open spec fn system_environment_parses(contents: Seq<char>) -> bool {
    system_lines_parse(split(contents, '\n'))
}

/// Whether the contents of `/etc/environment` can be read: false where a
/// line that is not empty and does not declare `PATH` has no `=`.
pub fn can_parse_system_environment(contents: &str) -> (r: bool)
    ensures
        r == system_environment_parses(contents@),
{
    let cs = chars_of(contents);
    let segs = split_chars(&cs, '\n');
    let path = path_chars();
    let mut i: usize = 0;
    assert(views(segs@).skip(0) =~= views(segs@));
    while i < segs.len()
        invariant
            i <= segs.len(),
            views(segs@) == split(contents@, '\n'),
            path@ == path_word(),
            system_lines_parse(views(segs@)) == system_lines_parse(views(segs@).skip(i as int)),
        decreases segs.len() - i,
    {
        let ghost rest = views(segs@).skip(i as int);
        assert(rest[0] == segs@[i as int]@);
        assert(rest.drop_first() =~= views(segs@).skip(i + 1));
        if segs[i].len() != 0 {
            let (name, value) = split_first_two(&segs[i], '=');
            if !same_chars(&name, &path) && value.is_none() {
                return false;
            }
        }
        i = i + 1;
    }
    true
}

/// The variables declared in `/etc/environment`, given its contents (see
/// [`system_entries`]); each is of system scope and declared in
/// `/etc/environment`.
pub fn get_system_environment_variables(contents: &str) -> (r: Vec<EnvironmentVariable>)
    requires
        system_environment_parses(contents@),
    ensures
        var_views(r@) == system_variables(contents@),
{
    let cs = chars_of(contents);
    let segs = split_chars(&cs, '\n');
    let path = path_chars();
    let mut out: Vec<EnvironmentVariable> = Vec::new();
    let mut i: usize = 0;
    assert(views(segs@).skip(0) =~= views(segs@));
    while i < segs.len()
        invariant
            i <= segs.len(),
            views(segs@) == split(contents@, '\n'),
            path@ == path_word(),
            system_lines_parse(views(segs@).skip(i as int)),
            var_views(out@) + system_entries(views(segs@).skip(i as int)) == system_entries(
                views(segs@),
            ),
        decreases segs.len() - i,
    {
        let ghost rest = views(segs@).skip(i as int);
        assert(rest[0] == segs@[i as int]@);
        assert(rest.drop_first() =~= views(segs@).skip(i + 1));
        let (name, value) = split_first_two(&segs[i], '=');
        if segs[i].len() != 0 && !same_chars(&name, &path) {
            let raw = match value {
                Some(v) => v,
                None => Vec::new(),
            };
            let n = raw.len();
            let unquoted = if n > 0 && raw[0] == '"' && raw[n - 1] == '"' {
                if n >= 2 {
                    crate::text::slice_chars(&raw, 1, n - 1)
                } else {
                    Vec::new()
                }
            } else {
                raw
            };
            let var = EnvironmentVariable::new(
                string_of(&name),
                string_of(&unquoted),
                Scope::System,
                system_file_string(),
            );
            let ghost before = var_views(out@);
            out.push(var);
            assert(var_views(out@) =~= before.push(var@));
            assert(var_views(out@) + system_entries(rest.drop_first()) =~= before + system_entries(rest));
        }
        i = i + 1;
    }
    assert(system_entries(views(segs@).skip(i as int)) =~= Seq::<VarView>::empty());
    assert(var_views(out@) =~= var_views(out@) + Seq::<VarView>::empty());
    out
}

/// What a snapshot of the process environment holds: (name, value) pairs.
pub open spec fn env_views(env: Seq<(String, String)>) -> Seq<(Seq<char>, Seq<char>)> {
    env.map_values(|p: (String, String)| (p.0@, p.1@))
}

/// The value of the first entry of `env` named `name`, as `std::env::var`
/// finds it in the environment that `env` was read from.
pub open spec fn env_lookup(env: Seq<(Seq<char>, Seq<char>)>, name: Seq<char>) -> Option<Seq<char>>
    decreases env.len(),
{
    if env.len() == 0 {
        None
    } else if env[0].0 == name {
        Some(env[0].1)
    } else {
        env_lookup(env.drop_first(), name)
    }
}

/// The value of `name` in the environment snapshot `env`.
pub fn lookup_env(env: &Vec<(String, String)>, name: &Vec<char>) -> (r: Option<Vec<char>>)
    ensures
        r is Some <==> env_lookup(env_views(env@), name@) is Some,
        r matches Some(v) ==> Some(v@) == env_lookup(env_views(env@), name@),
{
    let mut i: usize = 0;
    assert(env_views(env@).skip(0) =~= env_views(env@));
    while i < env.len()
        invariant
            i <= env.len(),
            env_lookup(env_views(env@), name@) == env_lookup(env_views(env@).skip(i as int), name@),
        decreases env.len() - i,
    {
        let ghost rest = env_views(env@).skip(i as int);
        assert(rest.drop_first() =~= env_views(env@).skip(i + 1));
        assert(rest[0] == (env@[i as int].0@, env@[i as int].1@));
        let key = chars_of(env[i].0.as_str());
        if same_chars(&key, name) {
            return Some(chars_of(env[i].1.as_str()));
        }
        i = i + 1;
    }
    None
}

/// The name that an `export` line of a shell profile script declares: the
/// trimmed line after `export `, up to the first `=`.
pub open spec fn bash_name(line: Seq<char>) -> Seq<char> {
    split(skip_chars(trim(line), 7), '=')[0]
}

/// The value that a line of a shell profile script gives its variable,
/// before quotes are removed; `None` where the line declares nothing.
/// A line counts where, trimmed, it starts with `export ` and the name is
/// neither `PATH` nor starts with `#` nor holds a tab. Without
/// `from_env` the value is empty; with it, the value is the one in `env`, or
/// where the name is not there, the text after the first `=` up to the next
/// one, if there is an `=` and the text holds no `${`.
pub open spec fn bash_value(line: Seq<char>, from_env: bool, env: Seq<(Seq<char>, Seq<char>)>) -> Option<Seq<char>> {
    let t = trim(line);
    let parts = split(skip_chars(t, 7), '=');
    let name = parts[0];
    if !export_word().is_prefix_of(t) {
        None
    } else if name == path_word() || (name.len() > 0 && name[0] == '#') || name.contains('\t') {
        None
    } else if !from_env {
        Some(Seq::<char>::empty())
    } else {
        match env_lookup(env, name) {
            Some(v) => Some(v),
            None => if parts.len() < 2 || has_dollar_brace(parts[1]) {
                None
            } else {
                Some(parts[1])
            },
        }
    }
}

/// A quoted value stripped (see [`strip_quotes_by_bytes`]), any other value
/// kept.
pub open spec fn unquote_counted(v: Seq<char>) -> Seq<char> {
    if quoted(v) {
        strip_quotes_by_bytes(v)
    } else {
        v
    }
}

/// The variable that a line of a profile script in `file` declares.
pub open spec fn bash_entry(
    line: Seq<char>,
    file: Seq<char>,
    from_env: bool,
    env: Seq<(Seq<char>, Seq<char>)>,
) -> Option<VarView> {
    match bash_value(line, from_env, env) {
        Some(v) => Some(
            VarView {
                name: bash_name(line),
                value: unquote_counted(v),
                scope: Scope::User,
                declared_in: file,
            },
        ),
        None => None,
    }
}

pub open spec fn bash_entry_fn(
    file: Seq<char>,
    from_env: bool,
    env: Seq<(Seq<char>, Seq<char>)>,
) -> spec_fn(Seq<char>) -> Option<VarView> {
    |line: Seq<char>| bash_entry(line, file, from_env, env)
}

/// The variables that a profile script in `file` with contents `content`
/// declares, in order of their lines.
pub open spec fn bash_variables(
    content: Seq<char>,
    file: Seq<char>,
    from_env: bool,
    env: Seq<(Seq<char>, Seq<char>)>,
) -> Seq<VarView> {
    lines(content).filter_map(bash_entry_fn(file, from_env, env))
}

/// Whether a line's value can be unquoted: a quoted value is at least two
/// bytes long.
pub open spec fn bash_line_parses(line: Seq<char>, from_env: bool, env: Seq<(Seq<char>, Seq<char>)>) -> bool {
    bash_value(line, from_env, env) matches Some(v) ==> (quoted(v) ==> byte_len(v) >= 2)
}

/// Whether every line of a profile script can be read (see
/// [`bash_line_parses`]).
pub open spec fn bash_parses(content: Seq<char>, from_env: bool, env: Seq<(Seq<char>, Seq<char>)>) -> bool {
    forall|i: int|
        0 <= i < lines(content).len() ==> #[trigger] bash_line_parses(lines(content)[i], from_env, env)
}

/// The name and the value (before quotes are removed) that a line of a
/// profile script declares (see [`bash_value`]).
fn bash_line(line: &Vec<char>, from_env: bool, env: &Vec<(String, String)>) -> (r: Option<(Vec<char>, Vec<char>)>)
    ensures
        r is Some <==> bash_value(line@, from_env, env_views(env@)) is Some,
        r matches Some(p) ==> Some(p.1@) == bash_value(line@, from_env, env_views(env@))
            && p.0@ == bash_name(line@),
{
    let t = trim_chars(line);
    let export = export_chars();
    if !has_prefix(&t, &export) {
        return None;
    }
    let assignment = skip_n(&t, 7);
    let (name, second) = split_first_two(&assignment, '=');
    if same_chars(&name, &path_chars()) || starts_with_char(&name, '#') || has_char(&name, '\t') {
        return None;
    }
    if !from_env {
        return Some((name, Vec::new()));
    }
    match lookup_env(env, &name) {
        Some(v) => Some((name, v)),
        None => match second {
            None => None,
            Some(s) => {
                if dollar_brace(&s) {
                    None
                } else {
                    Some((name, s))
                }
            },
        },
    }
}

/// Whether every line of a profile script can be read: false where a
/// quoted value (from the file or from the environment) is a lone `"`.
pub fn can_parse_bash(content: &str, get_value_from_env: bool, env: &Vec<(String, String)>) -> (r: bool)
    ensures
        r == bash_parses(content@, get_value_from_env, env_views(env@)),
{
    let cs = chars_of(content);
    let ls = lines_of(&cs);
    let mut i: usize = 0;
    while i < ls.len()
        invariant
            i <= ls.len(),
            views(ls@) == lines(content@),
            forall|k: int| 0 <= k < i ==> #[trigger] bash_line_parses(lines(content@)[k], get_value_from_env, env_views(env@)),
        decreases ls.len() - i,
    {
        assert(views(ls@)[i as int] == ls@[i as int]@);
        match bash_line(&ls[i], get_value_from_env, env) {
            Some((_name, v)) => {
                if is_quoted(&v) && byte_len_of(&v) < 2 {
                    assert(!bash_line_parses(lines(content@)[i as int], get_value_from_env, env_views(env@)));
                    return false;
                }
            },
            None => {},
        }
        i = i + 1;
    }
    true
}

/// The variables that the profile script `file_name` with contents
/// `content` declares (see [`bash_variables`]), of user scope.
pub fn parse_bash(file_name: &str, content: &str, get_value_from_env: bool, env: &Vec<(String, String)>) -> (r: Vec<EnvironmentVariable>)
    requires
        bash_parses(content@, get_value_from_env, env_views(env@)),
    ensures
        var_views(r@) == bash_variables(content@, file_name@, get_value_from_env, env_views(env@)),
{
    let cs = chars_of(content);
    let ls = lines_of(&cs);
    let ghost f = bash_entry_fn(file_name@, get_value_from_env, env_views(env@));
    let mut out: Vec<EnvironmentVariable> = Vec::new();
    let mut i: usize = 0;
    while i < ls.len()
        invariant
            i <= ls.len(),
            views(ls@) == lines(content@),
            bash_parses(content@, get_value_from_env, env_views(env@)),
            f == bash_entry_fn(file_name@, get_value_from_env, env_views(env@)),
            var_views(out@) == views(ls@).take(i as int).filter_map(f),
        decreases ls.len() - i,
    {
        let ghost l = views(ls@)[i as int];
        assert(l == ls@[i as int]@);
        assert(views(ls@).take(i + 1).drop_last() =~= views(ls@).take(i as int));
        assert(views(ls@).take(i + 1).last() == l);
        assert(bash_line_parses(lines(content@)[i as int], get_value_from_env, env_views(env@)));
        match bash_line(&ls[i], get_value_from_env, env) {
            Some((name, v)) => {
                let value = if is_quoted(&v) {
                    strip_quotes(&v)
                } else {
                    v
                };
                let var = EnvironmentVariable::new(
                    string_of(&name),
                    string_of(&value),
                    Scope::User,
                    file_name.to_owned(),
                );
                let ghost before = var_views(out@);
                out.push(var);
                assert(var_views(out@) =~= before.push(var@));
            },
            None => {},
        }
        i = i + 1;
    }
    assert(views(ls@).take(ls.len() as int) =~= views(ls@));
    out
}

/// What debug mode reports of a line of a profile script: where values
/// come from the environment and a declared name is not there, that it was
/// not found, and then that the line has no `=`, or that its value uses
/// another variable (`${`), where the value cannot be taken from the file
/// either.
pub open spec fn bash_line_notes(
    line: Seq<char>,
    file: Seq<char>,
    from_env: bool,
    env: Seq<(Seq<char>, Seq<char>)>,
) -> Seq<Seq<char>> {
    let t = trim(line);
    let parts = split(skip_chars(t, 7), '=');
    let name = parts[0];
    if !export_word().is_prefix_of(t) || name == path_word() || (name.len() > 0 && name[0] == '#')
        || name.contains('\t') || !from_env || env_lookup(env, name) is Some {
        Seq::empty()
    } else {
        seq![name + " declared in "@ + file + " but not found in system"@] + if parts.len() < 2 {
            seq!["No equals sign found in "@ + file + " for name "@ + name]
        } else if has_dollar_brace(parts[1]) {
            seq!["Cannot extract value from variable declared with a variable and not found in system"@]
        } else {
            Seq::empty()
        }
    }
}

pub open spec fn bash_line_notes_fn(
    file: Seq<char>,
    from_env: bool,
    env: Seq<(Seq<char>, Seq<char>)>,
) -> spec_fn(Seq<char>) -> Seq<Seq<char>> {
    |line: Seq<char>| bash_line_notes(line, file, from_env, env)
}

/// What debug mode reports while a profile script is read, line after
/// line (see [`bash_line_notes`]).
pub open spec fn bash_notes(
    content: Seq<char>,
    file: Seq<char>,
    from_env: bool,
    env: Seq<(Seq<char>, Seq<char>)>,
) -> Seq<Seq<char>> {
    lines(content).flat_map(bash_line_notes_fn(file, from_env, env))
}

fn line_notes(line: &Vec<char>, file_name: &str, from_env: bool, env: &Vec<(String, String)>) -> (r: Vec<String>)
    ensures
        string_views(r@) == bash_line_notes(line@, file_name@, from_env, env_views(env@)),
{
    let mut notes: Vec<String> = Vec::new();
    let t = trim_chars(line);
    if !has_prefix(&t, &export_chars()) {
        assert(string_views(notes@) =~= Seq::<Seq<char>>::empty());
        return notes;
    }
    let assignment = skip_n(&t, 7);
    let (name, second) = split_first_two(&assignment, '=');
    if same_chars(&name, &path_chars()) || starts_with_char(&name, '#') || has_char(&name, '\t')
        || !from_env || lookup_env(env, &name).is_some() {
        assert(string_views(notes@) =~= Seq::<Seq<char>>::empty());
        return notes;
    }
    let name_s = string_of(&name);
    let mut first = name_s.clone();
    first.append(" declared in ");
    first.append(file_name);
    first.append(" but not found in system");
    notes.push(first);
    match second {
        None => {
            let mut m = String::new();
            m.append("No equals sign found in ");
            m.append(file_name);
            m.append(" for name ");
            m.append(name_s.as_str());
            notes.push(m);
        },
        Some(v) => {
            if dollar_brace(&v) {
                notes.push("Cannot extract value from variable declared with a variable and not found in system".to_owned());
            }
        },
    }
    assert(string_views(notes@) =~= bash_line_notes(line@, file_name@, from_env, env_views(env@)));
    notes
}

/// What debug mode reports while the profile script `file_name` with
/// contents `content` is read (see [`bash_notes`]).
pub fn parse_bash_notes(file_name: &str, content: &str, get_value_from_env: bool, env: &Vec<(String, String)>) -> (r: Vec<String>)
    ensures
        string_views(r@) == bash_notes(content@, file_name@, get_value_from_env, env_views(env@)),
{
    let cs = chars_of(content);
    let ls = lines_of(&cs);
    let ghost f = bash_line_notes_fn(file_name@, get_value_from_env, env_views(env@));
    let mut out: Vec<String> = Vec::new();
    let mut i: usize = 0;
    while i < ls.len()
        invariant
            i <= ls.len(),
            views(ls@) == lines(content@),
            f == bash_line_notes_fn(file_name@, get_value_from_env, env_views(env@)),
            string_views(out@) == views(ls@).take(i as int).flat_map(f),
        decreases ls.len() - i,
    {
        assert(views(ls@)[i as int] == ls@[i as int]@);
        proof {
            views(ls@).lemma_flat_map_take_append(f, i as int);
        }
        let mut more = line_notes(&ls[i], file_name, get_value_from_env, env);
        let ghost before = string_views(out@);
        let ghost added = string_views(more@);
        out.append(&mut more);
        assert(string_views(out@) =~= before + added);
        i = i + 1;
    }
    assert(views(ls@).take(ls.len() as int) =~= views(ls@));
    out
}

/// A name with a leading `export ` removed.
pub open spec fn drop_export(name: Seq<char>) -> Seq<char> {
    if export_word().is_prefix_of(name) {
        skip_chars(name, 7)
    } else {
        name
    }
}

fn drop_export_chars(name: Vec<char>) -> (r: Vec<char>)
    ensures
        r@ == drop_export(name@),
{
    if has_prefix(&name, &export_chars()) {
        skip_n(&name, 7)
    } else {
        name
    }
}

/// The variable that a line of `.zshenv` (the file `file`) declares: the
/// line holds an `=` and its name does not start with `#`; a leading
/// `export ` is dropped from the name, which must then not be `PATH`, and a
/// quoted value is stripped (see
/// [`strip_quotes_by_bytes`]). The value ends at a second `=`.
pub open spec fn zsh_entry(line: Seq<char>, file: Seq<char>) -> Option<VarView> {
    let parts = split(line, '=');
    if parts.len() < 2 || (parts[0].len() > 0 && parts[0][0] == '#') || drop_export(parts[0])
        == path_word() {
        None
    } else {
        Some(
            VarView {
                name: drop_export(parts[0]),
                value: unquote_counted(parts[1]),
                scope: Scope::Terminal,
                declared_in: file,
            },
        )
    }
}

pub open spec fn zsh_entry_fn(file: Seq<char>) -> spec_fn(Seq<char>) -> Option<VarView> {
    |line: Seq<char>| zsh_entry(line, file)
}

/// The variables that `.zshenv` (the file `file`) declares.
pub open spec fn zsh_variables(content: Seq<char>, file: Seq<char>) -> Seq<VarView> {
    lines(content).filter_map(zsh_entry_fn(file))
}

/// Whether the value of a line of `.zshenv` can be unquoted.
pub open spec fn zsh_line_parses(line: Seq<char>) -> bool {
    let parts = split(line, '=');
    (parts.len() >= 2 && !(parts[0].len() > 0 && parts[0][0] == '#') && drop_export(parts[0])
        != path_word() && quoted(parts[1])) ==> byte_len(parts[1]) >= 2
}

/// Whether every line of `.zshenv` can be read.
pub open spec fn zsh_parses(content: Seq<char>) -> bool {
    forall|i: int| 0 <= i < lines(content).len() ==> #[trigger] zsh_line_parses(lines(content)[i])
}

/// The variable that a line of `.bashrc` (the file `file`) declares: the
/// line holds an `=`; a leading `export ` is dropped from the name, which
/// must then not be `PATH`, hold no space or tab and not start with `#`. The value, taken
/// as it stands, ends at a second `=`.
pub open spec fn bashrc_entry(line: Seq<char>, file: Seq<char>) -> Option<VarView> {
    let parts = split(line, '=');
    let name = drop_export(parts[0]);
    if parts.len() < 2 || name == path_word() || name.contains(' ') || (name.len() > 0 && name[0] == '#')
        || name.contains('\t') {
        None
    } else {
        Some(VarView { name, value: parts[1], scope: Scope::Terminal, declared_in: file })
    }
}

pub open spec fn bashrc_entry_fn(file: Seq<char>) -> spec_fn(Seq<char>) -> Option<VarView> {
    |line: Seq<char>| bashrc_entry(line, file)
}

/// The variables that `.bashrc` (the file `file`) declares.
pub open spec fn bashrc_variables(content: Seq<char>, file: Seq<char>) -> Seq<VarView> {
    lines(content).filter_map(bashrc_entry_fn(file))
}

/// Whether every line of `.zshenv` can be read: false where a line with an
/// `=` and a name not starting with `#`, other than `PATH`, has a lone `"`
/// as its value.
pub fn can_parse_zshenv(content: &str) -> (r: bool)
    ensures
        r == zsh_parses(content@),
{
    let cs = chars_of(content);
    let ls = lines_of(&cs);
    let mut i: usize = 0;
    while i < ls.len()
        invariant
            i <= ls.len(),
            views(ls@) == lines(content@),
            forall|k: int| 0 <= k < i ==> #[trigger] zsh_line_parses(lines(content@)[k]),
        decreases ls.len() - i,
    {
        assert(views(ls@)[i as int] == ls@[i as int]@);
        let (name, second) = split_first_two(&ls[i], '=');
        match second {
            Some(v) => {
                if !starts_with_char(&name, '#') && !same_chars(&drop_export_chars(name), &path_chars())
                    && is_quoted(&v) && byte_len_of(&v) < 2 {
                    assert(!zsh_line_parses(lines(content@)[i as int]));
                    return false;
                }
            },
            None => {},
        }
        i = i + 1;
    }
    true
}

/// The variables that `.zshenv` declares, given its path and contents (see
/// [`zsh_entry`]), of terminal scope.
pub fn parse_zshenv(path: &str, content: &str) -> (r: Vec<EnvironmentVariable>)
    requires
        zsh_parses(content@),
    ensures
        var_views(r@) == zsh_variables(content@, path@),
{
    let cs = chars_of(content);
    let ls = lines_of(&cs);
    let ghost f = zsh_entry_fn(path@);
    let mut out: Vec<EnvironmentVariable> = Vec::new();
    let mut i: usize = 0;
    while i < ls.len()
        invariant
            i <= ls.len(),
            views(ls@) == lines(content@),
            zsh_parses(content@),
            f == zsh_entry_fn(path@),
            var_views(out@) == views(ls@).take(i as int).filter_map(f),
        decreases ls.len() - i,
    {
        let ghost l = views(ls@)[i as int];
        assert(l == ls@[i as int]@);
        assert(views(ls@).take(i + 1).drop_last() =~= views(ls@).take(i as int));
        assert(views(ls@).take(i + 1).last() == l);
        assert(zsh_line_parses(lines(content@)[i as int]));
        let (name, second) = split_first_two(&ls[i], '=');
        match second {
            Some(v) => {
                let hash = starts_with_char(&name, '#');
                let name = drop_export_chars(name);
                if !hash && !same_chars(&name, &path_chars()) {
                    let value = if is_quoted(&v) {
                        strip_quotes(&v)
                    } else {
                        v
                    };
                    let var = EnvironmentVariable::new(
                        string_of(&name),
                        string_of(&value),
                        Scope::Terminal,
                        path.to_owned(),
                    );
                    let ghost before = var_views(out@);
                    out.push(var);
                    assert(var_views(out@) =~= before.push(var@));
                }
            },
            None => {},
        }
        i = i + 1;
    }
    assert(views(ls@).take(ls.len() as int) =~= views(ls@));
    out
}

/// The variables that `.bashrc` declares, given its path and contents (see
/// [`bashrc_entry`]), of terminal scope.
pub fn parse_bashrc(path: &str, content: &str) -> (r: Vec<EnvironmentVariable>)
    ensures
        var_views(r@) == bashrc_variables(content@, path@),
{
    let cs = chars_of(content);
    let ls = lines_of(&cs);
    let ghost f = bashrc_entry_fn(path@);
    let mut out: Vec<EnvironmentVariable> = Vec::new();
    let mut i: usize = 0;
    while i < ls.len()
        invariant
            i <= ls.len(),
            views(ls@) == lines(content@),
            f == bashrc_entry_fn(path@),
            var_views(out@) == views(ls@).take(i as int).filter_map(f),
        decreases ls.len() - i,
    {
        let ghost l = views(ls@)[i as int];
        assert(l == ls@[i as int]@);
        assert(views(ls@).take(i + 1).drop_last() =~= views(ls@).take(i as int));
        assert(views(ls@).take(i + 1).last() == l);
        let (name, second) = split_first_two(&ls[i], '=');
        match second {
            Some(v) => {
                let name = drop_export_chars(name);
                if !same_chars(&name, &path_chars()) && !has_char(&name, ' ') && !starts_with_char(&name, '#')
                    && !has_char(&name, '\t') {
                    let var = EnvironmentVariable::new(
                        string_of(&name),
                        string_of(&v),
                        Scope::Terminal,
                        path.to_owned(),
                    );
                    let ghost before = var_views(out@);
                    out.push(var);
                    assert(var_views(out@) =~= before.push(var@));
                }
            },
            None => {},
        }
        i = i + 1;
    }
    assert(views(ls@).take(ls.len() as int) =~= views(ls@));
    out
}

/// The variables of a shell configuration file that may be missing: none
/// where it could not be read.
pub open spec fn terminal_part(content: Option<Seq<char>>, vars: spec_fn(Seq<char>) -> Seq<VarView>) -> Seq<VarView> {
    match content {
        Some(c) => vars(c),
        None => Seq::empty(),
    }
}

/// The variables that the terminal shells' configuration files declare:
/// those of `~/.zshenv`, then those of `~/.bashrc`; a file that could not be
/// read declares none.
pub open spec fn terminal_variables(
    home: Option<Seq<char>>,
    zshenv: Option<Seq<char>>,
    bashrc: Option<Seq<char>>,
) -> Seq<VarView> {
    terminal_part(zshenv, |c: Seq<char>| zsh_variables(c, zshenv_file(home)))
        + terminal_part(bashrc, |c: Seq<char>| bashrc_variables(c, bashrc_file(home)))
}

/// The variables declared in `~/.zshenv` and then in `~/.bashrc`, given the
/// home directory and the contents of the two files (`None` for a file
/// that could not be read). The result is always `Some`.
pub fn get_terminal_environment_variables(
    home: Option<&str>,
    zshenv: Option<&str>,
    bashrc: Option<&str>,
) -> (r: Option<Vec<EnvironmentVariable>>)
    requires
        zshenv matches Some(c) ==> zsh_parses(c@),
    ensures
        r matches Some(v) && var_views(v@) == terminal_variables(
            opt_view(home),
            opt_view(zshenv),
            opt_view(bashrc),
        ),
{
    let mut terminal_vars = match zshenv {
        Some(c) => {
            let path = zshenv_path(home);
            parse_zshenv(path.as_str(), c)
        },
        None => Vec::new(),
    };
    let mut bash_vars = match bashrc {
        Some(c) => {
            let path = bashrc_path(home);
            parse_bashrc(path.as_str(), c)
        },
        None => Vec::new(),
    };
    let ghost a = var_views(terminal_vars@);
    let ghost b = var_views(bash_vars@);
    terminal_vars.append(&mut bash_vars);
    assert(var_views(terminal_vars@) =~= a + b);
    Some(terminal_vars)
}

/// A file found in `/etc/profile.d` (directories left out), with its
/// contents, or `None` where it could not be read.
pub struct ProfileScript {
    pub file_name: String,
    pub content: Option<String>,
}

/// `/etc/profile.d/` followed by `name`.
pub open spec fn profile_file(name: Seq<char>) -> Seq<char> {
    seq!['/', 'e', 't', 'c', '/', 'p', 'r', 'o', 'f', 'i', 'l', 'e', '.', 'd', '/'] + name
}

/// Whether every script could be read.
pub open spec fn all_readable(files: Seq<ProfileScript>) -> bool {
    forall|i: int| 0 <= i < files.len() ==> (#[trigger] files[i]).content is Some
}

/// The variables that a readable profile script declares.
pub open spec fn script_variables(
    f: ProfileScript,
    from_env: bool,
    env: Seq<(Seq<char>, Seq<char>)>,
) -> Seq<VarView> {
    bash_variables(f.content.unwrap()@, profile_file(f.file_name@), from_env, env)
}

pub open spec fn script_variables_fn(
    from_env: bool,
    env: Seq<(Seq<char>, Seq<char>)>,
) -> spec_fn(ProfileScript) -> Seq<VarView> {
    |f: ProfileScript| script_variables(f, from_env, env)
}

/// The variables that the scripts of `/etc/profile.d` declare, script after
/// script; `None` where one of them could not be read.
pub open spec fn user_variables(
    files: Seq<ProfileScript>,
    from_env: bool,
    env: Seq<(Seq<char>, Seq<char>)>,
) -> Option<Seq<VarView>> {
    if all_readable(files) {
        Some(files.flat_map(script_variables_fn(from_env, env)))
    } else {
        None
    }
}

/// Whether every script up to the first unreadable one can be read (see
/// [`bash_parses`]).
pub open spec fn profile_scripts_parse(
    files: Seq<ProfileScript>,
    from_env: bool,
    env: Seq<(Seq<char>, Seq<char>)>,
) -> bool {
    forall|i: int|
        0 <= i < files.len() && all_readable(files.take(i + 1)) ==> bash_parses(
            (#[trigger] files[i]).content.unwrap()@,
            from_env,
            env,
        )
}

fn profile_file_string(name: &str) -> (r: String)
    ensures
        r@ == profile_file(name@),
{
    let mut path = string_of(&vec!['/', 'e', 't', 'c', '/', 'p', 'r', 'o', 'f', 'i', 'l', 'e', '.', 'd']);
    crate::text::push_char(&mut path, '/');
    path.append(name);
    assert(path@ =~= profile_file(name@));
    path
}

/// Whether the profile scripts can be read, up to the first one that could
/// not be read (see [`can_parse_bash`]).
pub fn can_parse_profile_scripts(
    files: &Vec<ProfileScript>,
    get_value_from_env: bool,
    env: &Vec<(String, String)>,
) -> (r: bool)
    ensures
        r == profile_scripts_parse(files@, get_value_from_env, env_views(env@)),
{
    let mut i: usize = 0;
    while i < files.len()
        invariant
            i <= files.len(),
            all_readable(files@.take(i as int)),
            forall|k: int|
                0 <= k < i ==> bash_parses(
                    (#[trigger] files@[k]).content.unwrap()@,
                    get_value_from_env,
                    env_views(env@),
                ),
        decreases files.len() - i,
    {
        match &files[i].content {
            None => {
                assert forall|k: int|
                    0 <= k < files@.len() && all_readable(files@.take(k + 1)) implies bash_parses(
                    (#[trigger] files@[k]).content.unwrap()@,
                    get_value_from_env,
                    env_views(env@),
                ) by {
                    if k >= i {
                        assert(files@.take(k + 1)[i as int] == files@[i as int]);
                    }
                }
                return true;
            },
            Some(c) => {
                if !can_parse_bash(c.as_str(), get_value_from_env, env) {
                    assert(files@.take(i + 1)[i as int] == files@[i as int]);
                    assert(all_readable(files@.take(i + 1))) by {
                        assert forall|k: int| 0 <= k < i + 1 implies (#[trigger] files@.take(i + 1)[k]).content is Some by {
                            if k < i {
                                assert(files@.take(i + 1)[k] == files@.take(i as int)[k]);
                            }
                        }
                    }
                    return false;
                }
            },
        }
        assert(all_readable(files@.take(i + 1))) by {
            assert forall|k: int| 0 <= k < i + 1 implies (#[trigger] files@.take(i + 1)[k]).content is Some by {
                if k < i {
                    assert(files@.take(i + 1)[k] == files@.take(i as int)[k]);
                }
            }
        }
        i = i + 1;
    }
    assert forall|k: int|
        0 <= k < files@.len() && all_readable(files@.take(k + 1)) implies bash_parses(
        (#[trigger] files@[k]).content.unwrap()@,
        get_value_from_env,
        env_views(env@),
    ) by {}
    true
}

/// The variables declared in the scripts of `/etc/profile.d`, given the
/// scripts (see [`user_variables`]); `None` where a script could not be
/// read.
pub fn get_user_environment_variables(
    files: &Vec<ProfileScript>,
    get_value_from_env: bool,
    env: &Vec<(String, String)>,
) -> (r: Option<Vec<EnvironmentVariable>>)
    requires
        profile_scripts_parse(files@, get_value_from_env, env_views(env@)),
    ensures
        r is Some <==> user_variables(files@, get_value_from_env, env_views(env@)) is Some,
        r matches Some(v) ==> Some(var_views(v@)) == user_variables(
            files@,
            get_value_from_env,
            env_views(env@),
        ),
{
    let ghost g = script_variables_fn(get_value_from_env, env_views(env@));
    let mut out: Vec<EnvironmentVariable> = Vec::new();
    let mut i: usize = 0;
    while i < files.len()
        invariant
            i <= files.len(),
            profile_scripts_parse(files@, get_value_from_env, env_views(env@)),
            g == script_variables_fn(get_value_from_env, env_views(env@)),
            all_readable(files@.take(i as int)),
            var_views(out@) == files@.take(i as int).flat_map(g),
        decreases files.len() - i,
    {
        assert(files@.take(i + 1)[i as int] == files@[i as int]);
        match &files[i].content {
            None => {
                assert(!all_readable(files@));
                return None;
            },
            Some(c) => {
                assert(all_readable(files@.take(i + 1))) by {
                    assert forall|k: int| 0 <= k < i + 1 implies (#[trigger] files@.take(i + 1)[k]).content is Some by {
                        if k < i {
                            assert(files@.take(i + 1)[k] == files@.take(i as int)[k]);
                        }
                    }
                }
                let path = profile_file_string(files[i].file_name.as_str());
                let mut vars = parse_bash(path.as_str(), c.as_str(), get_value_from_env, env);
                proof {
                    files@.lemma_flat_map_take_append(g, i as int);
                }
                let ghost before = var_views(out@);
                let ghost added = var_views(vars@);
                out.append(&mut vars);
                assert(var_views(out@) =~= before + added);
            },
        }
        i = i + 1;
    }
    assert(files@.take(files.len() as int) =~= files@);
    Some(out)
}

/// What debug mode reports while the profile scripts are read, script
/// after script, up to the first one that could not be read.
pub open spec fn profile_notes(
    files: Seq<ProfileScript>,
    from_env: bool,
    env: Seq<(Seq<char>, Seq<char>)>,
) -> Seq<Seq<char>>
    decreases files.len(),
{
    if files.len() == 0 || files[0].content is None {
        Seq::empty()
    } else {
        bash_notes(files[0].content.unwrap()@, profile_file(files[0].file_name@), from_env, env)
            + profile_notes(files.drop_first(), from_env, env)
    }
}

/// What debug mode reports while the profile scripts are read (see
/// [`profile_notes`]).
pub fn profile_script_notes(
    files: &Vec<ProfileScript>,
    get_value_from_env: bool,
    env: &Vec<(String, String)>,
) -> (r: Vec<String>)
    ensures
        string_views(r@) == profile_notes(files@, get_value_from_env, env_views(env@)),
{
    let mut out: Vec<String> = Vec::new();
    let mut i: usize = 0;
    assert(files@.skip(0) =~= files@);
    while i < files.len()
        invariant
            i <= files.len(),
            string_views(out@) + profile_notes(files@.skip(i as int), get_value_from_env, env_views(env@))
                == profile_notes(files@, get_value_from_env, env_views(env@)),
        decreases files.len() - i,
    {
        let ghost rest = files@.skip(i as int);
        assert(rest[0] == files@[i as int]);
        assert(rest.drop_first() =~= files@.skip(i + 1));
        match &files[i].content {
            None => {
                assert(string_views(out@) + Seq::<Seq<char>>::empty() =~= string_views(out@));
                return out;
            },
            Some(c) => {
                let path = profile_file_string(files[i].file_name.as_str());
                let mut more = parse_bash_notes(path.as_str(), c.as_str(), get_value_from_env, env);
                let ghost before = string_views(out@);
                let ghost added = string_views(more@);
                out.append(&mut more);
                assert(string_views(out@) =~= before + added);
                assert(before + added + profile_notes(rest.drop_first(), get_value_from_env, env_views(env@))
                    =~= before + (added + profile_notes(rest.drop_first(), get_value_from_env, env_views(env@))));
            },
        }
        i = i + 1;
    }
    assert(files@.skip(i as int) =~= Seq::<ProfileScript>::empty());
    assert(string_views(out@) + Seq::<Seq<char>>::empty() =~= string_views(out@));
    out
}

/// The values that the library reads its variables from.
pub struct Sources {
    /// The contents of `/etc/environment`.
    pub etc_environment: String,
    /// The files of `/etc/profile.d`, in the order the directory lists them.
    pub profile_scripts: Vec<ProfileScript>,
    /// A snapshot of the process environment.
    pub environment: Vec<(String, String)>,
    /// The home directory, where it is known.
    pub home: Option<String>,
    /// The contents of `~/.zshenv`, where it could be read.
    pub zshenv: Option<String>,
    /// The contents of `~/.bashrc`, where it could be read.
    pub bashrc: Option<String>,
}

/// The view of an optional `String`.
pub open spec fn opt_string_view(s: Option<String>) -> Option<Seq<char>> {
    match s {
        Some(h) => Some(h@),
        None => None,
    }
}

fn opt_str(s: &Option<String>) -> (r: Option<&str>)
    ensures
        opt_view(r) == opt_string_view(*s),
{
    match s {
        Some(h) => Some(h.as_str()),
        None => None,
    }
}

/// `PATH` with the value that the environment gives it, of system scope,
/// declared nowhere.
pub open spec fn path_entry(env: Seq<(Seq<char>, Seq<char>)>) -> Option<VarView> {
    match env_lookup(env, path_word()) {
        Some(v) => Some(VarView { name: path_word(), value: v, scope: Scope::System, declared_in: Seq::empty() }),
        None => None,
    }
}

/// The `PATH` variable of the environment snapshot `env`, where it is set.
pub fn path_variable(env: &Vec<(String, String)>) -> (r: Option<EnvironmentVariable>)
    ensures
        r is Some <==> path_entry(env_views(env@)) is Some,
        r matches Some(v) ==> Some(v@) == path_entry(env_views(env@)),
{
    let path = path_chars();
    match lookup_env(env, &path) {
        Some(v) => Some(EnvironmentVariable::new(string_of(&path), string_of(&v), Scope::System, String::new())),
        None => None,
    }
}

/// Whether the sources can be read (see [`system_environment_parses`],
/// [`profile_scripts_parse`], [`zsh_parses`]).
pub open spec fn sources_parse(s: Sources, from_env: bool) -> bool {
    &&& system_environment_parses(s.etc_environment@)
    &&& profile_scripts_parse(s.profile_scripts@, from_env, env_views(s.environment@))
    &&& (all_readable(s.profile_scripts@) ==> (s.zshenv matches Some(c) ==> zsh_parses(c@)))
}

/// Every variable: those of `/etc/environment`, then `PATH` from the
/// environment when `show_path` and it is set, then those of the profile
/// scripts, then those of the terminal shells; `None` where a profile
/// script could not be read.
pub open spec fn all_variables(s: Sources, from_env: bool, show_path: bool) -> Option<Seq<VarView>> {
    match user_variables(s.profile_scripts@, from_env, env_views(s.environment@)) {
        None => None,
        Some(u) => Some(
            system_variables(s.etc_environment@) + (if show_path && path_entry(env_views(s.environment@)) is Some {
                seq![path_entry(env_views(s.environment@)).unwrap()]
            } else {
                Seq::empty()
            }) + u + terminal_variables(
                opt_string_view(s.home),
                opt_string_view(s.zshenv),
                opt_string_view(s.bashrc),
            ),
        ),
    }
}

/// Whether every source can be read.
pub fn can_parse_sources(sources: &Sources, get_value_from_env: bool) -> (r: bool)
    ensures
        r == sources_parse(*sources, get_value_from_env),
{
    if !can_parse_system_environment(sources.etc_environment.as_str()) {
        return false;
    }
    if !can_parse_profile_scripts(&sources.profile_scripts, get_value_from_env, &sources.environment) {
        return false;
    }
    let mut i: usize = 0;
    while i < sources.profile_scripts.len()
        invariant
            i <= sources.profile_scripts.len(),
            system_environment_parses(sources.etc_environment@),
            profile_scripts_parse(sources.profile_scripts@, get_value_from_env, env_views(sources.environment@)),
            forall|k: int| 0 <= k < i ==> (#[trigger] sources.profile_scripts@[k]).content is Some,
        decreases sources.profile_scripts.len() - i,
    {
        assert(sources.profile_scripts@[i as int] == sources.profile_scripts[i as int]);
        if sources.profile_scripts[i].content.is_none() {
            assert(sources.profile_scripts@[i as int].content is None);
            assert(!all_readable(sources.profile_scripts@));
            return true;
        }
        i = i + 1;
    }
    match &sources.zshenv {
        Some(c) => can_parse_zshenv(c.as_str()),
        None => true,
    }
}

/// Every variable, read from `sources` (see [`all_variables`]); `None`
/// where a profile script could not be read.
pub fn get_all_environment_variables(
    sources: &Sources,
    get_value_from_env: bool,
    show_path: bool,
) -> (r: Option<Vec<EnvironmentVariable>>)
    requires
        sources_parse(*sources, get_value_from_env),
    ensures
        r is Some <==> all_variables(*sources, get_value_from_env, show_path) is Some,
        r matches Some(v) ==> Some(var_views(v@)) == all_variables(
            *sources,
            get_value_from_env,
            show_path,
        ),
{
    let mut system_vars = get_system_environment_variables(sources.etc_environment.as_str());
    let ghost sys = var_views(system_vars@);
    if show_path {
        match path_variable(&sources.environment) {
            Some(p) => {
                system_vars.push(p);
            },
            None => {},
        }
    }
    let ghost with_path = var_views(system_vars@);
    let user_vars = get_user_environment_variables(
        &sources.profile_scripts,
        get_value_from_env,
        &sources.environment,
    );
    let mut user_vars = match user_vars {
        None => {
            return None;
        },
        Some(u) => u,
    };
    let ghost users = var_views(user_vars@);
    system_vars.append(&mut user_vars);
    let terminal = get_terminal_environment_variables(
        opt_str(&sources.home),
        opt_str(&sources.zshenv),
        opt_str(&sources.bashrc),
    );
    let mut terminal_vars = match terminal {
        None => {
            return None;
        },
        Some(t) => t,
    };
    let ghost terms = var_views(terminal_vars@);
    system_vars.append(&mut terminal_vars);
    assert(var_views(system_vars@) =~= with_path + users + terms);
    assert(with_path =~= sys + (if show_path && path_entry(env_views(sources.environment@)) is Some {
        seq![path_entry(env_views(sources.environment@)).unwrap()]
    } else {
        Seq::<VarView>::empty()
    }));
    Some(system_vars)
}

} // verus!
