//! Setting and removing declarations in the text of the files that hold
//! them.
use vstd::prelude::*;
use vstd::string::*;
use crate::text::{
    chars_of, export_chars, export_word, has_prefix, is_quoted, lines, lines_of, push_all,
    quoted, same_chars, skip_chars, skip_n, split, split_first_two, string_of, views,
};

verus! {

/// The text of a file after a variable was set in it, with the values that
/// the declarations it replaced had, in the order of their lines.
pub struct Rewrite {
    pub content: String,
    pub previous: Vec<String>,
}

/// The character sequences of a list of strings.
pub open spec fn string_views(v: Seq<String>) -> Seq<Seq<char>> {
    v.map_values(|s: String| s@)
}

/// `"` around `value` where `q`, `value` alone otherwise.
pub open spec fn maybe_quoted(value: Seq<char>, q: bool) -> Seq<char> {
    if q {
        seq!['"'] + value + seq!['"']
    } else {
        value
    }
}

/// The part of a line that is read as `NAME=VALUE`: in a profile script
/// the line without its first seven characters (the place of `export `),
/// in `/etc/environment` the whole line.
pub open spec fn assignment_of(line: Seq<char>, in_script: bool) -> Seq<char> {
    if in_script {
        skip_chars(line, 7)
    } else {
        line
    }
}

/// The declaration of `name` that `set` writes: `NAME="VALUE"`, after
/// `export ` in a profile script.
pub open spec fn quoted_declaration(name: Seq<char>, value: Seq<char>, in_script: bool) -> Seq<char> {
    (if in_script { export_word() } else { Seq::empty() }) + name + seq!['='] + maybe_quoted(value, true)
}

/// The value that a line declares for `name`, where it declares one.
pub open spec fn set_previous(line: Seq<char>, name: Seq<char>, in_script: bool) -> Option<Seq<char>> {
    let parts = split(assignment_of(line, in_script), '=');
    if parts[0] == name && parts.len() >= 2 {
        Some(parts[1])
    } else {
        None
    }
}

/// What a line becomes when `name` is set to `value`: a line that declares
/// `name` is replaced by the new declaration; every other line is kept.
/// Each line written is followed by a line break.
pub open spec fn set_line(line: Seq<char>, name: Seq<char>, value: Seq<char>, in_script: bool) -> Seq<char> {
    if set_previous(line, name, in_script) is Some {
        quoted_declaration(name, value, in_script) + seq!['\n']
    } else {
        line + seq!['\n']
    }
}

pub open spec fn set_line_fn(name: Seq<char>, value: Seq<char>, in_script: bool) -> spec_fn(Seq<char>) -> Seq<char> {
    |line: Seq<char>| set_line(line, name, value, in_script)
}

pub open spec fn set_previous_fn(name: Seq<char>, in_script: bool) -> spec_fn(Seq<char>) -> Option<Seq<char>> {
    |line: Seq<char>| set_previous(line, name, in_script)
}

/// The values that the lines of `content` declare for `name`.
pub open spec fn previous_values(content: Seq<char>, name: Seq<char>, in_script: bool) -> Seq<Seq<char>> {
    lines(content).filter_map(set_previous_fn(name, in_script))
}

/// `content` with `name` set to `value`: each line as [`set_line`] makes it,
/// and where no line declared `name`, the new declaration at the end
/// (after a line break in a profile script).
pub open spec fn set_content(content: Seq<char>, name: Seq<char>, value: Seq<char>, in_script: bool) -> Seq<char> {
    lines(content).flat_map(set_line_fn(name, value, in_script)) + if previous_values(
        content,
        name,
        in_script,
    ).len() == 0 {
        (if in_script { seq!['\n'] } else { Seq::empty() }) + quoted_declaration(name, value, in_script)
    } else {
        Seq::empty()
    }
}

fn quoted_declaration_chars(name: &Vec<char>, value: &Vec<char>, in_script: bool) -> (r: Vec<char>)
    ensures
        r@ == quoted_declaration(name@, value@, in_script),
{
    let mut out: Vec<char> = if in_script { export_chars() } else { Vec::new() };
    push_all(&mut out, name);
    out.push('=');
    out.push('"');
    push_all(&mut out, value);
    out.push('"');
    assert(out@ =~= quoted_declaration(name@, value@, in_script));
    out
}

fn set_line_chars(line: &Vec<char>, name: &Vec<char>, value: &Vec<char>, in_script: bool) -> (r: (Vec<char>, Option<Vec<char>>))
    ensures
        r.0@ == set_line(line@, name@, value@, in_script),
        r.1 is Some <==> set_previous(line@, name@, in_script) is Some,
        r.1 matches Some(p) ==> Some(p@) == set_previous(line@, name@, in_script),
{
    let assignment = if in_script { skip_n(line, 7) } else { line.clone() };
    assert(assignment@ == assignment_of(line@, in_script));
    let (lname, second) = split_first_two(&assignment, '=');
    if same_chars(&lname, name) {
        match second {
            Some(p) => {
                let mut decl = quoted_declaration_chars(name, value, in_script);
                decl.push('\n');
                return (decl, Some(p));
            },
            None => {},
        }
    }
    let mut kept = line.clone();
    kept.push('\n');
    assert(kept@ =~= line@ + seq!['\n']);
    (kept, None)
}

fn set_in_file(content: &str, name: &str, value: &str, in_script: bool) -> (r: Rewrite)
    ensures
        r.content@ == set_content(content@, name@, value@, in_script),
        string_views(r.previous@) == previous_values(content@, name@, in_script),
{
    let cs = chars_of(content);
    let ls = lines_of(&cs);
    let target = chars_of(name);
    let val = chars_of(value);
    let ghost f = set_line_fn(name@, value@, in_script);
    let ghost g = set_previous_fn(name@, in_script);
    let mut out: Vec<char> = Vec::new();
    let mut previous: Vec<String> = Vec::new();
    let mut i: usize = 0;
    while i < ls.len()
        invariant
            i <= ls.len(),
            views(ls@) == lines(content@),
            target@ == name@,
            val@ == value@,
            f == set_line_fn(name@, value@, in_script),
            g == set_previous_fn(name@, in_script),
            out@ == views(ls@).take(i as int).flat_map(f),
            string_views(previous@) == views(ls@).take(i as int).filter_map(g),
        decreases ls.len() - i,
    {
        let ghost l = views(ls@)[i as int];
        assert(l == ls@[i as int]@);
        assert(views(ls@).take(i + 1).drop_last() =~= views(ls@).take(i as int));
        assert(views(ls@).take(i + 1).last() == l);
        proof {
            views(ls@).lemma_flat_map_take_append(f, i as int);
        }
        let (piece, prev) = set_line_chars(&ls[i], &target, &val, in_script);
        push_all(&mut out, &piece);
        match prev {
            Some(p) => {
                let ghost before = string_views(previous@);
                previous.push(string_of(&p));
                assert(string_views(previous@) =~= before.push(p@));
            },
            None => {},
        }
        i = i + 1;
    }
    assert(views(ls@).take(ls.len() as int) =~= views(ls@));
    let ghost base = out@;
    if previous.len() == 0 {
        if in_script {
            out.push('\n');
        }
        let decl = quoted_declaration_chars(&target, &val, in_script);
        push_all(&mut out, &decl);
        assert(out@ =~= base + ((if in_script { seq!['\n'] } else { Seq::<char>::empty() }) + decl@));
    } else {
        assert(out@ =~= base + Seq::<char>::empty());
    }
    Rewrite { content: string_of(&out), previous }
}

/// The new text of the profile script that holds the library's own
/// declarations (`/etc/profile.d/envch.sh`), with `name` set to `value`:
/// each line is read after its first seven characters (the place of
/// `export `); a line that declares `name` becomes `export NAME="VALUE"`,
/// and where none did, that declaration is added after a line break (see
/// [`set_content`]). `previous` holds the values that were replaced.
pub fn set_in_profile_script(content: &str, name: &str, value: &str) -> (r: Rewrite)
    ensures
        r.content@ == set_content(content@, name@, value@, true),
        string_views(r.previous@) == previous_values(content@, name@, true),
{
    set_in_file(content, name, value, true)
}

/// The new text of `/etc/environment` with `name` set to `value`: a line
/// that declares `name` becomes `NAME="VALUE"`, and where none did, that
/// declaration is added at the end (see [`set_content`]). `previous` holds
/// the values that were replaced.
pub fn set_in_system_environment(content: &str, name: &str, value: &str) -> (r: Rewrite)
    ensures
        r.content@ == set_content(content@, name@, value@, false),
        string_views(r.previous@) == previous_values(content@, name@, false),
{
    set_in_file(content, name, value, false)
}

/// The line without a leading `export `, and whether it had one.
pub open spec fn unexported(line: Seq<char>) -> Seq<char> {
    if export_word().is_prefix_of(line) {
        skip_chars(line, 7)
    } else {
        line
    }
}

/// The value that a line of the file declaring `name` gives it, where the
/// line (after a leading `export `) declares `name` and holds an `=`.
pub open spec fn replace_previous(line: Seq<char>, name: Seq<char>) -> Option<Seq<char>> {
    let parts = split(unexported(line), '=');
    if parts[0] == name && parts.len() >= 2 {
        Some(parts[1])
    } else {
        None
    }
}

/// What a line of the file that declares `name` becomes when `name` is set
/// to `value`: a line that declares another name is kept; one that names
/// `name` without an `=` is dropped; one that declares `name` is written
/// again with `value`, keeping its `export ` and whether its old value was
/// quoted. Every line written ends with a line break.
pub open spec fn replace_line(line: Seq<char>, name: Seq<char>, value: Seq<char>) -> Seq<char> {
    let parts = split(unexported(line), '=');
    if parts[0] != name {
        line + seq!['\n']
    } else if parts.len() < 2 {
        Seq::empty()
    } else {
        (if export_word().is_prefix_of(line) { export_word() } else { Seq::empty() }) + name
            + seq!['='] + maybe_quoted(value, quoted(parts[1])) + seq!['\n']
    }
}

pub open spec fn replace_line_fn(name: Seq<char>, value: Seq<char>) -> spec_fn(Seq<char>) -> Seq<char> {
    |line: Seq<char>| replace_line(line, name, value)
}

pub open spec fn replace_previous_fn(name: Seq<char>) -> spec_fn(Seq<char>) -> Option<Seq<char>> {
    |line: Seq<char>| replace_previous(line, name)
}

fn unexported_chars(line: &Vec<char>) -> (r: (Vec<char>, bool))
    ensures
        r.0@ == unexported(line@),
        r.1 == export_word().is_prefix_of(line@),
{
    if has_prefix(line, &export_chars()) {
        (skip_n(line, 7), true)
    } else {
        (line.clone(), false)
    }
}

fn replace_line_chars(line: &Vec<char>, name: &Vec<char>, value: &Vec<char>) -> (r: (Vec<char>, Option<Vec<char>>))
    ensures
        r.0@ == replace_line(line@, name@, value@),
        r.1 is Some <==> replace_previous(line@, name@) is Some,
        r.1 matches Some(p) ==> Some(p@) == replace_previous(line@, name@),
{
    let (assignment, exported) = unexported_chars(line);
    let (lname, second) = split_first_two(&assignment, '=');
    if !same_chars(&lname, name) {
        let mut kept = line.clone();
        kept.push('\n');
        assert(kept@ =~= line@ + seq!['\n']);
        return (kept, None);
    }
    match second {
        None => (Vec::new(), None),
        Some(old) => {
            let q = is_quoted(&old);
            let mut out: Vec<char> = if exported { export_chars() } else { Vec::new() };
            push_all(&mut out, &lname);
            out.push('=');
            if q {
                out.push('"');
            }
            push_all(&mut out, value);
            if q {
                out.push('"');
            }
            out.push('\n');
            assert(out@ =~= replace_line(line@, name@, value@));
            (out, Some(old))
        },
    }
}

/// The new text of the file that declares `name`, with `name` set to
/// `value`: each line as [`replace_line`] makes it.
pub open spec fn replace_content(content: Seq<char>, name: Seq<char>, value: Seq<char>) -> Seq<char> {
    lines(content).flat_map(replace_line_fn(name, value))
}

/// The values that the lines of `content` declare for `name` (see
/// [`replace_previous`]).
pub open spec fn replaced_values(content: Seq<char>, name: Seq<char>) -> Seq<Seq<char>> {
    lines(content).filter_map(replace_previous_fn(name))
}

/// The new text of the file in which `name` is already declared, with
/// `name` set to `value` (see [`replace_line`]); `previous` holds the
/// values that were replaced.
pub fn replace_declaration(content: &str, name: &str, value: &str) -> (r: Rewrite)
    ensures
        r.content@ == replace_content(content@, name@, value@),
        string_views(r.previous@) == replaced_values(content@, name@),
{
    let cs = chars_of(content);
    let ls = lines_of(&cs);
    let target = chars_of(name);
    let val = chars_of(value);
    let ghost f = replace_line_fn(name@, value@);
    let ghost g = replace_previous_fn(name@);
    let mut out: Vec<char> = Vec::new();
    let mut previous: Vec<String> = Vec::new();
    let mut i: usize = 0;
    while i < ls.len()
        invariant
            i <= ls.len(),
            views(ls@) == lines(content@),
            target@ == name@,
            val@ == value@,
            f == replace_line_fn(name@, value@),
            g == replace_previous_fn(name@),
            out@ == views(ls@).take(i as int).flat_map(f),
            string_views(previous@) == views(ls@).take(i as int).filter_map(g),
        decreases ls.len() - i,
    {
        let ghost l = views(ls@)[i as int];
        assert(l == ls@[i as int]@);
        assert(views(ls@).take(i + 1).drop_last() =~= views(ls@).take(i as int));
        assert(views(ls@).take(i + 1).last() == l);
        proof {
            views(ls@).lemma_flat_map_take_append(f, i as int);
        }
        let (piece, prev) = replace_line_chars(&ls[i], &target, &val);
        push_all(&mut out, &piece);
        match prev {
            Some(p) => {
                let ghost before = string_views(previous@);
                previous.push(string_of(&p));
                assert(string_views(previous@) =~= before.push(p@));
            },
            None => {},
        }
        i = i + 1;
    }
    assert(views(ls@).take(ls.len() as int) =~= views(ls@));
    Rewrite { content: string_of(&out), previous }
}

/// `content` followed by a line break and `export NAME=VALUE`: how a new
/// variable is added to a shell's configuration file.
pub open spec fn appended_declaration(content: Seq<char>, name: Seq<char>, value: Seq<char>) -> Seq<char> {
    content + seq!['\n'] + export_word() + name + seq!['='] + value
}

/// The text of a shell's configuration file with `export NAME=VALUE` added
/// on a new line.
pub fn append_declaration(content: &str, name: &str, value: &str) -> (r: String)
    ensures
        r@ == appended_declaration(content@, name@, value@),
{
    let mut out = chars_of(content);
    out.push('\n');
    push_all(&mut out, &export_chars());
    push_all(&mut out, &chars_of(name));
    out.push('=');
    push_all(&mut out, &chars_of(value));
    assert(out@ =~= appended_declaration(content@, name@, value@));
    string_of(&out)
}

/// Whether a line of `/etc/environment` declares `name`.
pub open spec fn declares_in_system(line: Seq<char>, name: Seq<char>) -> bool {
    split(line, '=')[0] == name
}

/// Whether a line of a shell script declares `name`: lines that start with
/// neither `export ` nor `name` are kept whatever they hold; the others
/// declare `name` where their text (after `export `) up to the first `=` is
/// `name`.
pub open spec fn declares_in_script(line: Seq<char>, name: Seq<char>) -> bool {
    (export_word().is_prefix_of(line) || name.is_prefix_of(line)) && split(unexported(line), '=')[0]
        == name
}

/// Whether the line declares `name`, in a script or in `/etc/environment`.
pub open spec fn declares(line: Seq<char>, name: Seq<char>, in_script: bool) -> bool {
    if in_script {
        declares_in_script(line, name)
    } else {
        declares_in_system(line, name)
    }
}

pub open spec fn kept_line_fn(name: Seq<char>, in_script: bool) -> spec_fn(Seq<char>) -> Seq<char> {
    |line: Seq<char>| if declares(line, name, in_script) { Seq::empty() } else { line + seq!['\n'] }
}

/// The text left when every line that declares `name` is removed, each
/// kept line followed by a line break; `None` where no line declared it.
pub open spec fn removed_content(content: Seq<char>, name: Seq<char>, in_script: bool) -> Option<Seq<char>> {
    if exists|i: int| 0 <= i < lines(content).len() && #[trigger] declares(lines(content)[i], name, in_script) {
        Some(lines(content).flat_map(kept_line_fn(name, in_script)))
    } else {
        None
    }
}

fn declares_chars(line: &Vec<char>, name: &Vec<char>, in_script: bool) -> (r: bool)
    ensures
        r == declares(line@, name@, in_script),
{
    if in_script {
        if !has_prefix(line, &export_chars()) && !has_prefix(line, name) {
            return false;
        }
        let (assignment, _) = unexported_chars(line);
        let (lname, _) = split_first_two(&assignment, '=');
        same_chars(&lname, name)
    } else {
        let (lname, _) = split_first_two(line, '=');
        same_chars(&lname, name)
    }
}

fn remove_from_file(content: &str, name: &str, in_script: bool) -> (r: Option<String>)
    ensures
        r is Some <==> removed_content(content@, name@, in_script) is Some,
        r matches Some(c) ==> Some(c@) == removed_content(content@, name@, in_script),
{
    let cs = chars_of(content);
    let ls = lines_of(&cs);
    let target = chars_of(name);
    let ghost f = kept_line_fn(name@, in_script);
    let mut out: Vec<char> = Vec::new();
    let mut updated = false;
    let mut i: usize = 0;
    while i < ls.len()
        invariant
            i <= ls.len(),
            views(ls@) == lines(content@),
            target@ == name@,
            f == kept_line_fn(name@, in_script),
            out@ == views(ls@).take(i as int).flat_map(f),
            updated <==> exists|k: int| 0 <= k < i && #[trigger] declares(lines(content@)[k], name@, in_script),
        decreases ls.len() - i,
    {
        let ghost l = views(ls@)[i as int];
        assert(l == ls@[i as int]@);
        proof {
            views(ls@).lemma_flat_map_take_append(f, i as int);
        }
        if declares_chars(&ls[i], &target, in_script) {
            updated = true;
            assert(f(l) =~= Seq::<char>::empty());
            assert(out@ =~= out@ + f(l));
        } else {
            let ghost before = out@;
            push_all(&mut out, &ls[i]);
            out.push('\n');
            assert(out@ =~= before + f(l));
        }
        i = i + 1;
    }
    assert(views(ls@).take(ls.len() as int) =~= views(ls@));
    if updated {
        Some(string_of(&out))
    } else {
        None
    }
}

/// The new text of `/etc/environment` without the lines that declare
/// `name` (those whose text up to the first `=` is `name`); `None` where no
/// line declared it.
pub fn remove_from_system_environment(content: &str, name: &str) -> (r: Option<String>)
    ensures
        r is Some <==> removed_content(content@, name@, false) is Some,
        r matches Some(c) ==> Some(c@) == removed_content(content@, name@, false),
{
    remove_from_file(content, name, false)
}

/// The new text of a shell script without the lines that declare `name`
/// (see [`declares_in_script`]); `None` where no line declared it.
pub fn remove_from_script(content: &str, name: &str) -> (r: Option<String>)
    ensures
        r is Some <==> removed_content(content@, name@, true) is Some,
        r matches Some(c) ==> Some(c@) == removed_content(content@, name@, true),
{
    remove_from_file(content, name, true)
}

} // verus!
