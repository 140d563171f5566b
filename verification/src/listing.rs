//! The output of the `list` command.
use vstd::prelude::*;
use crate::environment_variable::{EnvironmentVariable, VarView, listing_line, var_views};
use crate::input::List;
use crate::term::{no_underline, no_underline_code, underline, underline_code};
use crate::text::{byte_len, push_spaces, spaces, str_byte_len};

verus! {

/// The longest name of `vars`, in bytes (0 for no variables).
pub open spec fn max_name_len(vars: Seq<VarView>) -> nat
    decreases vars.len(),
{
    if vars.len() == 0 {
        0
    } else {
        let m = max_name_len(vars.drop_last());
        let b = byte_len(vars.last().name);
        if b > m { b } else { m }
    }
}

/// The longest file name of `vars`, in bytes (0 for no variables).
pub open spec fn max_declared_len(vars: Seq<VarView>) -> nat
    decreases vars.len(),
{
    if vars.len() == 0 {
        0
    } else {
        let m = max_declared_len(vars.drop_last());
        let b = byte_len(vars.last().declared_in);
        if b > m { b } else { m }
    }
}

/// No name is longer than the longest one.
pub proof fn lemma_max_name_len(vars: Seq<VarView>, i: int)
    requires
        0 <= i < vars.len(),
    ensures
        byte_len(vars[i].name) <= max_name_len(vars),
    decreases vars.len(),
{
    if i < vars.len() - 1 {
        lemma_max_name_len(vars.drop_last(), i);
    }
}

/// No file name is longer than the longest one.
pub proof fn lemma_max_declared_len(vars: Seq<VarView>, i: int)
    requires
        0 <= i < vars.len(),
    ensures
        byte_len(vars[i].declared_in) <= max_declared_len(vars),
    decreases vars.len(),
{
    if i < vars.len() - 1 {
        lemma_max_declared_len(vars.drop_last(), i);
    }
}

/// `text` underlined.
pub open spec fn underlined(text: Seq<char>) -> Seq<char> {
    underline_code() + text + no_underline_code()
}

/// The spaces that pad a title of `title_len` bytes to a column of
/// `width` bytes: none where the column is narrower.
pub open spec fn title_padding(width: nat, title_len: nat) -> nat {
    if width >= title_len {
        (width - title_len) as nat
    } else {
        0
    }
}

/// The column titles of a listing: `Declared in` (when shown), `Name` and
/// `Value`, underlined, each title padded to the width of its column where
/// the column is wider than the title.
pub open spec fn header(show_declared_in: bool, name_len: nat, declared_len: nat) -> Seq<char> {
    let names = underlined(seq!['N', 'a', 'm', 'e']) + spaces(title_padding(name_len, 4)) + seq![' ', ' ', ' ']
        + underlined(seq!['V', 'a', 'l', 'u', 'e']);
    if show_declared_in {
        underlined(seq!['D', 'e', 'c', 'l', 'a', 'r', 'e', 'd', ' ', 'i', 'n']) + spaces(
            title_padding(declared_len, 11),
        ) + seq![' '] + names
    } else {
        names
    }
}

/// A variable with its name padded to `name_len` bytes and, where
/// `with_declared`, its file name padded to `declared_len` bytes.
pub open spec fn padded(v: VarView, name_len: nat, declared_len: nat, with_declared: bool) -> VarView {
    VarView {
        name: v.name + spaces((name_len - byte_len(v.name)) as nat),
        value: v.value,
        scope: v.scope,
        declared_in: if with_declared {
            v.declared_in + spaces((declared_len - byte_len(v.declared_in)) as nat)
        } else {
            v.declared_in
        },
    }
}

pub open spec fn listing_line_fn(vars: Seq<VarView>, options: List, colors: bool) -> spec_fn(VarView) -> Seq<char> {
    |v: VarView|
        listing_line(
            padded(v, max_name_len(vars), max_declared_len(vars), options.show_declared_in),
            options.show_declared_in,
            colors,
        )
}

/// The lines that `list` prints for `vars`: nothing for no variables;
/// otherwise the column titles when `show_columns`, then one line per
/// variable (see [`listing_line`]) with the names, and the file names when
/// shown, padded to the longest of them.
pub open spec fn listing(vars: Seq<VarView>, options: List, colors: bool) -> Seq<Seq<char>> {
    if vars.len() == 0 {
        Seq::empty()
    } else {
        (if options.show_columns {
            seq![header(options.show_declared_in, max_name_len(vars), max_declared_len(vars))]
        } else {
            Seq::empty()
        }) + vars.map_values(listing_line_fn(vars, options, colors))
    }
}

/// The character sequences of a list of strings.
pub open spec fn line_views(v: Seq<String>) -> Seq<Seq<char>> {
    v.map_values(|s: String| s@)
}

fn longest_name(vars: &Vec<EnvironmentVariable>) -> (r: usize)
    ensures
        r == max_name_len(var_views(vars@)),
{
    let mut m: usize = 0;
    let mut i: usize = 0;
    while i < vars.len()
        invariant
            i <= vars.len(),
            m == max_name_len(var_views(vars@).take(i as int)),
        decreases vars.len() - i,
    {
        assert(var_views(vars@).take(i + 1).drop_last() =~= var_views(vars@).take(i as int));
        assert(var_views(vars@)[i as int] == vars@[i as int]@);
        let b = str_byte_len(vars[i].get_name());
        if b > m {
            m = b;
        }
        i = i + 1;
    }
    assert(var_views(vars@).take(vars.len() as int) =~= var_views(vars@));
    m
}

fn longest_declared(vars: &Vec<EnvironmentVariable>) -> (r: usize)
    ensures
        r == max_declared_len(var_views(vars@)),
{
    let mut m: usize = 0;
    let mut i: usize = 0;
    while i < vars.len()
        invariant
            i <= vars.len(),
            m == max_declared_len(var_views(vars@).take(i as int)),
        decreases vars.len() - i,
    {
        assert(var_views(vars@).take(i + 1).drop_last() =~= var_views(vars@).take(i as int));
        assert(var_views(vars@)[i as int] == vars@[i as int]@);
        let b = str_byte_len(vars[i].get_declared_in());
        if b > m {
            m = b;
        }
        i = i + 1;
    }
    assert(var_views(vars@).take(vars.len() as int) =~= var_views(vars@));
    m
}

fn underlined_text(line: &mut String, text: &str)
    ensures
        final(line)@ == old(line)@ + underlined(text@),
{
    line.append(underline().as_str());
    line.append(text);
    line.append(no_underline().as_str());
    assert(line@ =~= old(line)@ + underlined(text@));
}

fn header_line(show_declared_in: bool, name_len: usize, declared_len: usize) -> (r: String)
    ensures
        r@ == header(show_declared_in, name_len as nat, declared_len as nat),
{
    let mut line = String::new();
    if show_declared_in {
        underlined_text(&mut line, "Declared in");
        push_spaces(&mut line, if declared_len >= 11 { declared_len - 11 } else { 0 });
        line.append(" ");
    }
    underlined_text(&mut line, "Name");
    push_spaces(&mut line, if name_len >= 4 { name_len - 4 } else { 0 });
    line.append("   ");
    underlined_text(&mut line, "Value");
    proof {
        reveal_strlit("Declared in");
        reveal_strlit("Name");
        reveal_strlit("Value");
        reveal_strlit(" ");
        reveal_strlit("   ");
    }
    assert(line@ =~= header(show_declared_in, name_len as nat, declared_len as nat));
    line
}

/// The lines that `list` prints for `vars` (see [`listing`]), colour codes
/// left out where `colors` is off.
pub fn list_lines(vars: Vec<EnvironmentVariable>, options: List, colors: bool) -> (r: Vec<String>)
    ensures
        line_views(r@) == listing(var_views(vars@), options, colors),
{
    let mut out: Vec<String> = Vec::new();
    if vars.len() == 0 {
        assert(line_views(out@) =~= Seq::<Seq<char>>::empty());
        return out;
    }
    let ghost all = var_views(vars@);
    let ghost f = listing_line_fn(all, options, colors);
    let name_len = longest_name(&vars);
    let declared_len = if options.show_declared_in {
        longest_declared(&vars)
    } else {
        0
    };
    if options.show_columns {
        out.push(header_line(options.show_declared_in, name_len, declared_len));
    }
    let ghost head = line_views(out@);
    let mut vars = vars;
    let mut i: usize = 0;
    while i < vars.len()
        invariant
            i <= vars.len() == all.len(),
            forall|k: int| i <= k < all.len() ==> vars@[k]@ == #[trigger] all[k],
            name_len == max_name_len(all),
            options.show_declared_in ==> declared_len == max_declared_len(all),
            f == listing_line_fn(all, options, colors),
            line_views(out@) == head + all.take(i as int).map_values(f),
        decreases vars.len() - i,
    {
        let ghost v = all[i as int];
        proof {
            lemma_max_name_len(all, i as int);
            lemma_max_declared_len(all, i as int);
        }
        let line = {
            let var = &mut vars[i];
            if options.show_declared_in {
                var.balance_lengths_with_declared(name_len, declared_len);
            } else {
                var.balance_lengths(name_len);
            }
            var.format_line(options, colors)
        };
        assert(line@ == f(v)) by {
            assert(vars@[i as int]@ == padded(v, max_name_len(all), max_declared_len(all), options.show_declared_in));
        }
        let ghost before = line_views(out@);
        out.push(line);
        assert(line_views(out@) =~= before.push(f(v)));
        assert(all.take(i + 1).map_values(f) =~= all.take(i as int).map_values(f).push(f(v)));
        i = i + 1;
    }
    assert(all.take(all.len() as int) =~= all);
    assert(line_views(out@) =~= listing(all, options, colors));
    out
}

} // verus!
