//! What holds of the library across its functions.
use vstd::prelude::*;
use crate::commands::none_named;
use crate::listing::{lemma_max_declared_len, lemma_max_name_len, listing, max_declared_len, max_name_len, padded};
use crate::term::fg_rgb_code;
use crate::input::List;
use crate::edit::{
    appended_declaration, declares, maybe_quoted, replace_content, replace_line_fn, unexported, kept_line_fn, removed_content, quoted_declaration, set_content, set_line, set_line_fn, set_previous, set_previous_fn,
    previous_values, assignment_of, replaced_values, replace_previous_fn,
};
use crate::environment_variable::VarView;
use crate::list_env::{
    Sources, all_variables, bashrc_entry_fn, bashrc_variables, env_views, opt_string_view,
    profile_file, script_variables_fn, terminal_part, terminal_variables, user_variables,
    drop_export, env_lookup, unquote_counted, zsh_entry_fn, zsh_variables,
};
use crate::list_env::{bash_entry_fn, bash_variables, system_entries, system_file, system_variables, unquote_system};
use crate::scope::{Scope, lower, scope_named, scope_word, word_system, word_terminal, word_user};
use crate::paths::{bashrc_file, zshenv_file};
use crate::text::{
    lemma_lines_of_plain, lemma_split_nonempty, lemma_split_pair, lemma_split_piece_chars,
    lemma_split_terminated, lines, path_word, split, trim, byte_len, export_word, lemma_byte_len_push_space, spaces, has_dollar_brace, skip_chars, strip_quotes_by_bytes, quoted, trim_start, trim_end, is_white,
};

verus! {

/// A sequence mapped with two functions that agree on its elements
/// flattens to the same result.
proof fn lemma_flat_map_agree<A, B>(s: Seq<A>, f: spec_fn(A) -> Seq<B>, g: spec_fn(A) -> Seq<B>)
    requires
        forall|i: int| 0 <= i < s.len() ==> f(#[trigger] s[i]) == g(s[i]),
    ensures
        s.flat_map(f) == s.flat_map(g),
{
    assert(s.map_values(f) =~= s.map_values(g));
}

/// Keeping nothing keeps nothing.
proof fn lemma_filter_map_none<A, B>(s: Seq<A>, f: spec_fn(A) -> Option<B>)
    requires
        forall|i: int| 0 <= i < s.len() ==> f(#[trigger] s[i]) is None,
    ensures
        s.filter_map(f).len() == 0,
    decreases s.len(),
{
    if s.len() > 0 {
        assert forall|i: int| 0 <= i < s.drop_last().len() implies f(#[trigger] s.drop_last()[i]) is None by {
            assert(s.drop_last()[i] == s[i]);
        }
        lemma_filter_map_none(s.drop_last(), f);
        assert(f(s[s.len() - 1]) is None);
    }
}

/// The variables read from lines that are not empty, followed by more
/// lines, are those of the first lines, then those of the rest.
proof fn lemma_system_entries_append(ls: Seq<Seq<char>>, rest: Seq<Seq<char>>)
    ensures
        system_entries(ls + rest) == system_entries(ls) + system_entries(rest),
    decreases ls.len(),
{
    if ls.len() == 0 {
        assert(ls + rest =~= rest);
        assert(system_entries(ls) =~= Seq::<VarView>::empty());
        assert(Seq::<VarView>::empty() + system_entries(rest) =~= system_entries(rest));
    } else {
        assert((ls + rest)[0] == ls[0]);
        assert((ls + rest).drop_first() =~= ls.drop_first() + rest);
        lemma_system_entries_append(ls.drop_first(), rest);
        let parts = split(ls[0], '=');
        if ls[0].len() == 0 || parts[0] == path_word() {
        } else {
            let e = seq![
                VarView {
                    name: parts[0],
                    value: unquote_system(parts[1]),
                    scope: Scope::System,
                    declared_in: system_file(),
                },
            ];
            assert(e + (system_entries(ls.drop_first()) + system_entries(rest)) =~= (e
                + system_entries(ls.drop_first())) + system_entries(rest));
        }
    }
}

/// Setting a variable that `/etc/environment` does not declare yet makes
/// it readable: the file then declares what it declared before, followed
/// by the new variable with its value.
///
/// This holds of files without carriage returns, for a name other than
/// `PATH` and a name and value without `=` or line breaks.
pub proof fn law_set_new_system_variable(c: Seq<char>, n: Seq<char>, v: Seq<char>)
    requires
        !c.contains('\r'),
        forall|i: int| 0 <= i < lines(c).len() ==> set_previous(#[trigger] lines(c)[i], n, false) is None,
        n != path_word(),
        !n.contains('='),
        !n.contains('\n'),
        !v.contains('='),
        !v.contains('\n'),
    ensures
        system_variables(set_content(c, n, v, false)) == system_variables(c).push(
            VarView { name: n, value: v, scope: Scope::System, declared_in: system_file() },
        ),
{
    let ls = lines(c);
    let nl = |l: Seq<char>| l + seq!['\n'];
    lemma_lines_of_plain(c);
    lemma_split_nonempty(c, '\n');
    assert forall|i: int| 0 <= i < ls.len() implies !(#[trigger] ls[i]).contains('\n') by {
        if ls[i].contains('\n') {
            lemma_split_piece_chars(c, '\n', i, '\n');
        }
    }
    // No line declares `n`: every line is kept as it was.
    assert forall|i: int| 0 <= i < ls.len() implies (set_line_fn(n, v, false))(#[trigger] ls[i]) == nl(ls[i]) by {}
    lemma_flat_map_agree(ls, set_line_fn(n, v, false), nl);
    lemma_filter_map_none(ls, set_previous_fn(n, false));
    let decl = quoted_declaration(n, v, false);
    let body = ls.flat_map(nl);
    assert(set_content(c, n, v, false) == body + decl) by {
        assert(previous_values(c, n, false).len() == 0);
        assert(Seq::<char>::empty() + decl =~= decl);
    }
    // The new text cuts into the old lines and the declaration.
    let q = seq!['"'] + v + seq!['"'];
    assert(decl =~= n + seq!['='] + q);
    assert(!q.contains('=')) by {
        if q.contains('=') {
            let k = choose|k: int| 0 <= k < q.len() && q[k] == '=';
            assert(v[k - 1] == '=');
        }
    }
    assert(!decl.contains('\n')) by {
        if decl.contains('\n') {
            let k = choose|k: int| 0 <= k < decl.len() && decl[k] == '\n';
            if k < n.len() {
                assert(n[k] == '\n');
            } else if k > n.len() + 1 && k < decl.len() - 1 {
                assert(v[k - n.len() - 2] == '\n');
            }
        }
    }
    lemma_split_terminated(ls);
    crate::text::lemma_split_concat(body, decl, '\n');
    crate::text::lemma_split_no_sep(decl, '\n');
    assert(Seq::<char>::empty() + decl =~= decl);
    assert(split(body + decl, '\n') =~= ls.push(decl));
    // Reading it back.
    lemma_split_pair(n, q, '=');
    assert(unquote_system(q) =~= v);
    let entry = VarView { name: n, value: v, scope: Scope::System, declared_in: system_file() };
    assert(system_entries(seq![decl]) =~= seq![entry]) by {
        assert(seq![decl].drop_first() =~= Seq::<Seq<char>>::empty());
        assert(seq![decl][0] == decl);
        assert(split(decl, '=') == seq![n, q]);
        assert(split(decl, '=')[0] == n);
        assert(split(decl, '=')[1] == q);
        assert(decl.len() > 0);
        assert(system_entries(Seq::<Seq<char>>::empty()) =~= Seq::<VarView>::empty());
        assert(seq![entry] + Seq::<VarView>::empty() =~= seq![entry]);
    }
    lemma_system_entries_append(ls, seq![decl]);
    assert(ls.push(decl) =~= ls + seq![decl]);
    if split(c, '\n').last().len() == 0 {
        lemma_system_entries_append(ls, seq![Seq::<char>::empty()]);
        assert(ls.push(Seq::<char>::empty()) =~= ls + seq![Seq::<char>::empty()]);
        assert(system_entries(seq![Seq::<char>::empty()]) =~= Seq::<VarView>::empty()) by {
            let one = seq![Seq::<char>::empty()];
            assert(one.drop_first() =~= Seq::<Seq<char>>::empty());
            assert(one[0].len() == 0);
            assert(system_entries(one) == system_entries(one.drop_first()));
            assert(system_entries(Seq::<Seq<char>>::empty()) =~= Seq::<VarView>::empty());
        }
        assert(system_entries(ls) + Seq::<VarView>::empty() =~= system_entries(ls));
    }
    assert(system_variables(c) == system_entries(ls));
}

/// A line has no line break.
pub proof fn lemma_lines_no_newline(s: Seq<char>, i: int)
    requires
        0 <= i < lines(s).len(),
    ensures
        !lines(s)[i].contains('\n'),
{
    lemma_split_nonempty(s, '\n');
    let p = split(s, '\n');
    if lines(s)[i].contains('\n') {
        let k = choose|k: int| 0 <= k < lines(s)[i].len() && lines(s)[i][k] == '\n';
        assert(p[i][k] == '\n');
        assert(p[i].contains('\n'));
        lemma_split_piece_chars(s, '\n', i, '\n');
    }
}

/// The lines that are kept, in order.
pub open spec fn kept_lines(ls: Seq<Seq<char>>, name: Seq<char>, in_script: bool) -> Seq<Seq<char>>
    decreases ls.len(),
{
    if ls.len() == 0 {
        Seq::empty()
    } else {
        let init = kept_lines(ls.drop_last(), name, in_script);
        if declares(ls.last(), name, in_script) {
            init
        } else {
            init.push(ls.last())
        }
    }
}

proof fn lemma_kept_lines(ls: Seq<Seq<char>>, name: Seq<char>, in_script: bool)
    ensures
        ls.flat_map(kept_line_fn(name, in_script)) == kept_lines(ls, name, in_script).flat_map(
            |l: Seq<char>| l + seq!['\n'],
        ),
        forall|j: int|
            0 <= j < kept_lines(ls, name, in_script).len() ==> exists|i: int|
                0 <= i < ls.len() && #[trigger] kept_lines(ls, name, in_script)[j] == ls[i]
                    && !declares(ls[i], name, in_script),
    decreases ls.len(),
{
    let nl = |l: Seq<char>| l + seq!['\n'];
    let f = kept_line_fn(name, in_script);
    if ls.len() == 0 {
        assert(ls.map_values(f) =~= Seq::<Seq<char>>::empty());
        assert(kept_lines(ls, name, in_script).map_values(nl) =~= Seq::<Seq<char>>::empty());
    } else {
        let init = ls.drop_last();
        let l = ls.last();
        lemma_kept_lines(init, name, in_script);
        init.lemma_flat_map_push(f, l);
        assert(init.push(l) =~= ls);
        let k = kept_lines(init, name, in_script);
        if declares(l, name, in_script) {
            assert(f(l) =~= Seq::<char>::empty());
            assert(ls.flat_map(f) =~= init.flat_map(f));
            assert forall|j: int| 0 <= j < kept_lines(ls, name, in_script).len() implies exists|i: int|
                0 <= i < ls.len() && #[trigger] kept_lines(ls, name, in_script)[j] == ls[i]
                    && !declares(ls[i], name, in_script) by {
                let i = choose|i: int| 0 <= i < init.len() && k[j] == init[i] && !declares(init[i], name, in_script);
                assert(ls[i] == init[i]);
            }
        } else {
            k.lemma_flat_map_push(nl, l);
            assert forall|j: int| 0 <= j < kept_lines(ls, name, in_script).len() implies exists|i: int|
                0 <= i < ls.len() && #[trigger] kept_lines(ls, name, in_script)[j] == ls[i]
                    && !declares(ls[i], name, in_script) by {
                if j < k.len() {
                    let i = choose|i: int| 0 <= i < init.len() && k[j] == init[i] && !declares(init[i], name, in_script);
                    assert(ls[i] == init[i]);
                } else {
                    assert(ls[ls.len() - 1] == l);
                }
            }
        }
    }
}

/// Where no line that is read declares `n`, no variable read is named `n`.
proof fn lemma_system_entries_not_named(segs: Seq<Seq<char>>, n: Seq<char>)
    requires
        forall|j: int| 0 <= j < segs.len() && (#[trigger] segs[j]).len() > 0 ==> split(segs[j], '=')[0] != n,
    ensures
        none_named(system_entries(segs), n),
    decreases segs.len(),
{
    if segs.len() > 0 {
        assert forall|j: int| 0 <= j < segs.drop_first().len() && (#[trigger] segs.drop_first()[j]).len() > 0 implies split(segs.drop_first()[j], '=')[0] != n by {
            assert(segs.drop_first()[j] == segs[j + 1]);
        }
        lemma_system_entries_not_named(segs.drop_first(), n);
        let rest = system_entries(segs.drop_first());
        let parts = split(segs[0], '=');
        if segs[0].len() > 0 && parts[0] != path_word() {
            let e = system_entries(segs);
            assert forall|j: int| 0 <= j < e.len() implies (#[trigger] e[j]).name != n by {
                if j > 0 {
                    assert(e[j] == rest[j - 1]);
                }
            }
        }
    }
}

/// Once `name` is removed from `/etc/environment`, no variable read from
/// the file is named `name`.
pub proof fn law_remove_system_variable(c: Seq<char>, n: Seq<char>)
    ensures
        removed_content(c, n, false) matches Some(r) ==> none_named(system_variables(r), n),
{
    if removed_content(c, n, false) is Some {
        let ls = lines(c);
        let ks = kept_lines(ls, n, false);
        lemma_kept_lines(ls, n, false);
        assert forall|j: int| 0 <= j < ks.len() implies !(#[trigger] ks[j]).contains('\n') by {
            let i = choose|i: int| 0 <= i < ls.len() && ks[j] == ls[i] && !declares(ls[i], n, false);
            lemma_lines_no_newline(c, i);
        }
        lemma_split_terminated(ks);
        let segs = ks.push(Seq::<char>::empty());
        assert forall|j: int| 0 <= j < segs.len() && (#[trigger] segs[j]).len() > 0 implies split(segs[j], '=')[0] != n by {
            assert(j < ks.len());
            assert(segs[j] == ks[j]);
            let i = choose|i: int| 0 <= i < ls.len() && ks[j] == ls[i] && !declares(ls[i], n, false);
        }
        lemma_system_entries_not_named(segs, n);
    }
}

/// Dropping leading white space leaves a suffix.
proof fn lemma_trim_start_suffix(s: Seq<char>)
    ensures
        trim_start(s).len() <= s.len(),
        trim_start(s) == s.skip(s.len() - trim_start(s).len()),
    decreases s.len(),
{
    if s.len() > 0 && is_white(s[0]) {
        lemma_trim_start_suffix(s.drop_first());
        assert(s.drop_first().skip(s.drop_first().len() - trim_start(s.drop_first()).len()) =~= s.skip(
            s.len() - trim_start(s).len(),
        ));
    } else {
        assert(s.skip(0) =~= s);
    }
}

/// Where no kept line gives a variable named `n`, none read is named `n`.
proof fn lemma_filter_map_not_named(s: Seq<Seq<char>>, f: spec_fn(Seq<char>) -> Option<VarView>, n: Seq<char>)
    requires
        forall|i: int| 0 <= i < s.len() ==> (f(#[trigger] s[i]) matches Some(v) ==> v.name != n),
    ensures
        none_named(s.filter_map(f), n),
    decreases s.len(),
{
    if s.len() > 0 {
        assert forall|i: int| 0 <= i < s.drop_last().len() implies (f(#[trigger] s.drop_last()[i]) matches Some(v) ==> v.name != n) by {
            assert(s.drop_last()[i] == s[i]);
        }
        lemma_filter_map_not_named(s.drop_last(), f, n);
        assert(f(s[s.len() - 1]) matches Some(v) ==> v.name != n);
        let e = s.filter_map(f);
        let init = s.drop_last().filter_map(f);
        assert forall|j: int| 0 <= j < e.len() implies (#[trigger] e[j]).name != n by {
            if j < init.len() {
                assert(e[j] == init[j]);
            }
        }
    }
}

/// Once `name` is removed from a profile script, no variable read from the
/// script is named `name`.
///
/// This holds of scripts in which every line that is read as `name` is one
/// that the removal drops: a declaration that starts with white space is
/// kept, and would still be read.
pub proof fn law_remove_script_variable(
    c: Seq<char>,
    n: Seq<char>,
    file: Seq<char>,
    from_env: bool,
    env: Seq<(Seq<char>, Seq<char>)>,
)
    requires
        forall|i: int|
            0 <= i < lines(c).len() && (bash_entry_fn(file, from_env, env)(#[trigger] lines(c)[i]) matches Some(x)
                && x.name == n) ==> declares(lines(c)[i], n, true),
    ensures
        removed_content(c, n, true) matches Some(r) ==> none_named(bash_variables(r, file, from_env, env), n),
{
    if removed_content(c, n, true) is Some {
        let ls = lines(c);
        let ks = kept_lines(ls, n, true);
        let r = ls.flat_map(kept_line_fn(n, true));
        lemma_kept_lines(ls, n, true);
        assert forall|j: int| 0 <= j < ks.len() implies !(#[trigger] ks[j]).contains('\n') by {
            let i = choose|i: int| 0 <= i < ls.len() && ks[j] == ls[i] && !declares(ls[i], n, true);
            lemma_lines_no_newline(c, i);
        }
        lemma_lines_written_cr(ks);
        let rs = lines(r);
        let f = bash_entry_fn(file, from_env, env);
        assert forall|j: int| 0 <= j < rs.len() implies (f(#[trigger] rs[j]) matches Some(v) ==> v.name != n) by {
            let i = choose|i: int| 0 <= i < ls.len() && ks[j] == ls[i] && !declares(ls[i], n, true);
            assert(rs[j] == crate::text::strip_cr(ks[j]));
            lemma_trim_strip_cr(ks[j]);
            assert(f(rs[j]) == f(ls[i]));
        }
        lemma_filter_map_not_named(rs, f, n);
    }
}

/// A line that a removal keeps is not read as the removed name from a
/// shell configuration file.
proof fn lemma_kept_not_named(l: Seq<char>, n: Seq<char>)
    requires
        !declares(l, n, true),
    ensures
        drop_export(split(l, '=')[0]) != n,
{
    lemma_first_name(l);
    if !export_word().is_prefix_of(l) && !n.is_prefix_of(l) {
        crate::text::lemma_split_first_prefix(l, '=');
        assert(unexported(l) == l);
    }
}

/// Once `name` is removed from `.zshenv`, no variable read from the file is
/// named `name`.
pub proof fn law_remove_zsh_variable(c: Seq<char>, n: Seq<char>, file: Seq<char>)
    ensures
        removed_content(c, n, true) matches Some(r) ==> none_named(zsh_variables(r, file), n),
{
    if removed_content(c, n, true) is Some {
        let ls = lines(c);
        let ks = kept_lines(ls, n, true);
        let r = ls.flat_map(kept_line_fn(n, true));
        lemma_kept_lines(ls, n, true);
        assert forall|j: int| 0 <= j < ks.len() implies !(#[trigger] ks[j]).contains('\n') by {
            let i = choose|i: int| 0 <= i < ls.len() && ks[j] == ls[i] && !declares(ls[i], n, true);
            lemma_lines_no_newline(c, i);
        }
        lemma_lines_written_cr(ks);
        let rs = lines(r);
        let f = zsh_entry_fn(file);
        assert forall|j: int| 0 <= j < rs.len() implies (f(#[trigger] rs[j]) matches Some(v) ==> v.name != n) by {
            let i = choose|i: int| 0 <= i < ls.len() && ks[j] == ls[i] && !declares(ls[i], n, true);
            assert(rs[j] == crate::text::strip_cr(ks[j]));
            lemma_strip_cr_first(ks[j]);
            lemma_kept_not_named(ks[j], n);
        }
        lemma_filter_map_not_named(rs, f, n);
    }
}

/// Once `name` is removed from `.bashrc`, no variable read from the file is
/// named `name`.
pub proof fn law_remove_bashrc_variable(c: Seq<char>, n: Seq<char>, file: Seq<char>)
    ensures
        removed_content(c, n, true) matches Some(r) ==> none_named(bashrc_variables(r, file), n),
{
    if removed_content(c, n, true) is Some {
        let ls = lines(c);
        let ks = kept_lines(ls, n, true);
        let r = ls.flat_map(kept_line_fn(n, true));
        lemma_kept_lines(ls, n, true);
        assert forall|j: int| 0 <= j < ks.len() implies !(#[trigger] ks[j]).contains('\n') by {
            let i = choose|i: int| 0 <= i < ls.len() && ks[j] == ls[i] && !declares(ls[i], n, true);
            lemma_lines_no_newline(c, i);
        }
        lemma_lines_written_cr(ks);
        let rs = lines(r);
        let f = bashrc_entry_fn(file);
        assert forall|j: int| 0 <= j < rs.len() implies (f(#[trigger] rs[j]) matches Some(v) ==> v.name != n) by {
            let i = choose|i: int| 0 <= i < ls.len() && ks[j] == ls[i] && !declares(ls[i], n, true);
            assert(rs[j] == crate::text::strip_cr(ks[j]));
            lemma_strip_cr_first(ks[j]);
            lemma_kept_not_named(ks[j], n);
        }
        lemma_filter_map_not_named(rs, f, n);
    }
}

/// What holds of every value that `f` keeps holds of every element of the
/// filtered sequence.
proof fn lemma_filter_map_all<A, B>(s: Seq<A>, f: spec_fn(A) -> Option<B>, p: spec_fn(B) -> bool)
    requires
        forall|i: int| 0 <= i < s.len() ==> (f(#[trigger] s[i]) matches Some(v) ==> p(v)),
    ensures
        forall|j: int| 0 <= j < s.filter_map(f).len() ==> p(#[trigger] s.filter_map(f)[j]),
    decreases s.len(),
{
    if s.len() > 0 {
        assert forall|i: int| 0 <= i < s.drop_last().len() implies (f(#[trigger] s.drop_last()[i]) matches Some(v) ==> p(v)) by {
            assert(s.drop_last()[i] == s[i]);
        }
        lemma_filter_map_all(s.drop_last(), f, p);
        assert(f(s[s.len() - 1]) matches Some(v) ==> p(v));
        let e = s.filter_map(f);
        let init = s.drop_last().filter_map(f);
        assert forall|j: int| 0 <= j < e.len() implies p(#[trigger] e[j]) by {
            if j < init.len() {
                assert(e[j] == init[j]);
            }
        }
    }
}

/// What holds of every element of every part holds of every element of
/// the parts joined.
proof fn lemma_flat_map_all<A, B>(s: Seq<A>, f: spec_fn(A) -> Seq<B>, p: spec_fn(B) -> bool)
    requires
        forall|i: int, k: int| 0 <= i < s.len() && 0 <= k < f(s[i]).len() ==> p(#[trigger] f(s[i])[k]),
    ensures
        forall|j: int| 0 <= j < s.flat_map(f).len() ==> p(#[trigger] s.flat_map(f)[j]),
    decreases s.len(),
{
    if s.len() == 0 {
        assert(s.map_values(f) =~= Seq::<Seq<B>>::empty());
    } else {
        let init = s.drop_last();
        assert forall|i: int, k: int| 0 <= i < init.len() && 0 <= k < f(init[i]).len() implies p(#[trigger] f(init[i])[k]) by {
            assert(init[i] == s[i]);
        }
        lemma_flat_map_all(init, f, p);
        init.lemma_flat_map_push(f, s.last());
        assert(init.push(s.last()) =~= s);
        let a = init.flat_map(f);
        let b = f(s.last());
        assert forall|j: int| 0 <= j < s.flat_map(f).len() implies p(#[trigger] s.flat_map(f)[j]) by {
            if j < a.len() {
                assert(s.flat_map(f)[j] == a[j]);
            } else {
                assert(s.flat_map(f)[j] == b[j - a.len()]);
                assert(s[s.len() - 1] == s.last());
            }
        }
    }
}

/// `/etc/environment` yields no `PATH`.
proof fn lemma_system_entries_no_path(segs: Seq<Seq<char>>)
    ensures
        none_named(system_entries(segs), path_word()),
    decreases segs.len(),
{
    if segs.len() > 0 {
        lemma_system_entries_no_path(segs.drop_first());
        let rest = system_entries(segs.drop_first());
        let parts = split(segs[0], '=');
        if segs[0].len() > 0 && parts[0] != path_word() {
            let e = system_entries(segs);
            assert forall|j: int| 0 <= j < e.len() implies (#[trigger] e[j]).name != path_word() by {
                if j > 0 {
                    assert(e[j] == rest[j - 1]);
                }
            }
        }
    }
}

/// Unless `PATH` is asked for, no variable read is named `PATH`: none of
/// the files yields it.
pub proof fn law_path_hidden_by_default(s: Sources, from_env: bool)
    ensures
        all_variables(s, from_env, false) matches Some(vs) ==> none_named(vs, path_word()),
{
    let env = env_views(s.environment@);
    if let Some(u) = user_variables(s.profile_scripts@, from_env, env) {
        let sys = system_variables(s.etc_environment@);
        lemma_system_entries_no_path(split(s.etc_environment@, '\n'));
        let not_path = |v: VarView| v.name != path_word();
        let g = script_variables_fn(from_env, env);
        assert forall|i: int, k: int|
            0 <= i < s.profile_scripts@.len() && 0 <= k < g(s.profile_scripts@[i]).len() implies not_path(
            #[trigger] g(s.profile_scripts@[i])[k],
        ) by {
            let f = s.profile_scripts@[i];
            let ls = lines(f.content.unwrap()@);
            let bf = bash_entry_fn(profile_file(f.file_name@), from_env, env);
            assert forall|m: int| 0 <= m < ls.len() implies (bf(#[trigger] ls[m]) matches Some(v) ==> not_path(v)) by {}
            lemma_filter_map_all(ls, bf, not_path);
        }
        lemma_flat_map_all(s.profile_scripts@, g, not_path);
        let t = terminal_variables(opt_string_view(s.home), opt_string_view(s.zshenv), opt_string_view(s.bashrc));
        let a = terminal_part(opt_string_view(s.zshenv), |c: Seq<char>| zsh_variables(c, zshenv_file(opt_string_view(s.home))));
        let b = terminal_part(opt_string_view(s.bashrc), |c: Seq<char>| bashrc_variables(c, bashrc_file(opt_string_view(s.home))));
        if let Some(c) = opt_string_view(s.zshenv) {
            let zf = zsh_entry_fn(zshenv_file(opt_string_view(s.home)));
            assert forall|m: int| 0 <= m < lines(c).len() implies (zf(#[trigger] lines(c)[m]) matches Some(v) ==> not_path(v)) by {}
            lemma_filter_map_all(lines(c), zf, not_path);
        }
        if let Some(c) = opt_string_view(s.bashrc) {
            let bf = bashrc_entry_fn(bashrc_file(opt_string_view(s.home)));
            assert forall|m: int| 0 <= m < lines(c).len() implies (bf(#[trigger] lines(c)[m]) matches Some(v) ==> not_path(v)) by {}
            lemma_filter_map_all(lines(c), bf, not_path);
        }
        assert(t == a + b);
        let vs = all_variables(s, from_env, false).unwrap();
        let empty = Seq::<VarView>::empty();
        assert(vs == sys + empty + u + t);
        assert forall|i: int| 0 <= i < vs.len() implies (#[trigger] vs[i]).name != path_word() by {
            if i < sys.len() {
                assert(vs[i] == sys[i]);
            } else if i < sys.len() + u.len() {
                assert(vs[i] == u[i - sys.len()]);
                assert(not_path(u[i - sys.len()]));
            } else if i < sys.len() + u.len() + a.len() {
                assert(vs[i] == a[i - sys.len() - u.len()]);
                assert(not_path(a[i - sys.len() - u.len()]));
            } else {
                assert(vs[i] == b[i - sys.len() - u.len() - a.len()]);
                assert(not_path(b[i - sys.len() - u.len() - a.len()]));
            }
        }
    }
}

/// A scope reads back from the word that names it.
pub proof fn law_scope_word_round_trip(scope: Scope)
    ensures
        scope_named(scope_word(scope)) == Some(scope),
{
    let w = scope_word(scope);
    assert(lower(w) =~= w);
    assert(word_system() != word_user());
    assert(word_system() != word_terminal());
    assert(word_user() != word_terminal()) by {
        assert(word_user().len() != word_terminal().len());
    }
}

/// Spaces take one byte each.
pub proof fn lemma_byte_len_spaces(s: Seq<char>, k: nat)
    ensures
        byte_len(s + spaces(k)) == byte_len(s) + k,
    decreases k,
{
    if k == 0 {
        assert(s + spaces(0) =~= s);
    } else {
        lemma_byte_len_spaces(s, (k - 1) as nat);
        assert(s + spaces(k) =~= (s + spaces((k - 1) as nat)).push(' '));
        lemma_byte_len_push_space(s + spaces((k - 1) as nat));
    }
}

/// A listing lines its columns up: every name is padded to the byte length
/// of the longest name, and where file names are shown, every file name to
/// that of the longest file name.
pub proof fn law_listing_aligned(vars: Seq<VarView>, show_declared_in: bool, i: int)
    requires
        0 <= i < vars.len(),
    ensures
        byte_len(padded(vars[i], max_name_len(vars), max_declared_len(vars), show_declared_in).name)
            == max_name_len(vars),
        show_declared_in ==> byte_len(
            padded(vars[i], max_name_len(vars), max_declared_len(vars), show_declared_in).declared_in,
        ) == max_declared_len(vars),
{
    lemma_max_name_len(vars, i);
    lemma_max_declared_len(vars, i);
    lemma_byte_len_spaces(vars[i].name, (max_name_len(vars) - byte_len(vars[i].name)) as nat);
    lemma_byte_len_spaces(
        vars[i].declared_in,
        (max_declared_len(vars) - byte_len(vars[i].declared_in)) as nat,
    );
}

/// Filtering a sequence with one more element.
proof fn lemma_filter_map_push<A, B>(s: Seq<A>, x: A, f: spec_fn(A) -> Option<B>)
    ensures
        s.push(x).filter_map(f) == s.filter_map(f) + match f(x) {
            Some(y) => seq![y],
            None => Seq::<B>::empty(),
        },
{
    assert(s.push(x).drop_last() =~= s);
    assert(s.push(x).last() == x);
    if f(x) is None {
        assert(s.filter_map(f) + Seq::<B>::empty() =~= s.filter_map(f));
    }
}

/// The lines of a text without carriage returns, followed by a line break
/// and a line without line breaks: the old lines (an empty one where the
/// text ended with a line break), then the new one.
proof fn lemma_lines_append_line(c: Seq<char>, d: Seq<char>)
    requires
        !c.contains('\r'),
        !d.contains('\n'),
        d.len() > 0,
    ensures
        split(c, '\n').last().len() == 0 ==> lines(c + seq!['\n'] + d) == lines(c).push(Seq::<char>::empty()).push(d),
        split(c, '\n').last().len() > 0 ==> lines(c + seq!['\n'] + d) == lines(c).push(d),
{
    lemma_lines_of_plain(c);
    lemma_split_nonempty(c, '\n');
    let p = split(c, '\n');
    let nl = seq!['\n'];
    assert(split(nl, '\n') =~= seq![Seq::<char>::empty(), Seq::<char>::empty()]) by {
        assert(nl.drop_last() =~= Seq::<char>::empty());
        assert(nl.last() == '\n');
        assert(split(Seq::<char>::empty(), '\n') =~= seq![Seq::<char>::empty()]);
    }
    crate::text::lemma_split_concat(c, nl, '\n');
    assert(p.last() + Seq::<char>::empty() =~= p.last());
    assert(split(c + nl, '\n') =~= p.push(Seq::<char>::empty()));
    crate::text::lemma_split_no_sep(d, '\n');
    crate::text::lemma_split_concat(c + nl, d, '\n');
    assert(Seq::<char>::empty() + d =~= d);
    let q = split(c + nl + d, '\n');
    assert(q =~= p.push(d));
    // Pieces of `c` hold no carriage return, so the lines are the pieces.
    assert forall|i: int| 0 <= i < p.len() implies crate::text::strip_cr(#[trigger] p[i]) == p[i] by {
        if p[i].len() > 0 && p[i].last() == '\r' {
            assert(p[i][p[i].len() - 1] == '\r');
            lemma_split_piece_chars(c, '\n', i, '\r');
        }
    }
    assert(d.last() != '\n') by {
        assert(d[d.len() - 1] == d.last());
    }
    if p.last().len() == 0 {
        assert(p.last() =~= Seq::<char>::empty());
        assert(lines(c + nl + d) =~= lines(c).push(Seq::<char>::empty()).push(d)) by {
            assert(lines(c).len() == p.len() - 1);
        }
    } else {
        assert(lines(c + nl + d) =~= lines(c).push(d));
    }
}

/// `export NAME=VALUE` with no `=` in the name or the value cuts at its one
/// `=`.
proof fn lemma_split_export(n: Seq<char>, v: Seq<char>)
    requires
        !n.contains('='),
        !v.contains('='),
    ensures
        split(export_word() + n + seq!['='] + v, '=') == seq![export_word() + n, v],
        !(export_word() + n).contains('='),
{
    let e = export_word() + n;
    assert(!e.contains('=')) by {
        if e.contains('=') {
            let k = choose|k: int| 0 <= k < e.len() && e[k] == '=';
            if k >= 7 {
                assert(n[k - 7] == '=');
            }
        }
    }
    lemma_split_pair(e, v, '=');
}

/// A name that a line appended to `.zshenv` declares is read back: the
/// file then declares what it declared before, followed by the new
/// variable (its value without quotes, see [`unquote_counted`]).
///
/// This holds of files without carriage returns, for a name other than
/// `PATH` and a name and value without `=` or line breaks.
pub proof fn law_append_zsh_variable(c: Seq<char>, n: Seq<char>, v: Seq<char>, file: Seq<char>)
    requires
        !c.contains('\r'),
        n != path_word(),
        !n.contains('='),
        !n.contains('\n'),
        !v.contains('='),
        !v.contains('\n'),
    ensures
        zsh_variables(appended_declaration(c, n, v), file) == zsh_variables(c, file).push(
            VarView { name: n, value: unquote_counted(v), scope: Scope::Terminal, declared_in: file },
        ),
{
    let d = export_word() + n + seq!['='] + v;
    assert(appended_declaration(c, n, v) =~= c + seq!['\n'] + d);
    assert(!d.contains('\n')) by {
        if d.contains('\n') {
            let k = choose|k: int| 0 <= k < d.len() && d[k] == '\n';
            if 7 <= k < 7 + n.len() {
                assert(n[k - 7] == '\n');
            } else if k > 7 + n.len() {
                assert(v[k - 8 - n.len()] == '\n');
            }
        }
    }
    lemma_lines_append_line(c, d);
    lemma_split_export(n, v);
    let f = zsh_entry_fn(file);
    assert(drop_export(export_word() + n) =~= n) by {
        assert(export_word().is_prefix_of(export_word() + n)) by {
            assert(export_word() =~= (export_word() + n).subrange(0, 7));
        }
        assert((export_word() + n).skip(7) =~= n);
    }
    assert(f(d) == Some(VarView { name: n, value: unquote_counted(v), scope: Scope::Terminal, declared_in: file })) by {
        assert((export_word() + n)[0] == 'e');
    }
    if split(c, '\n').last().len() == 0 {
        lemma_filter_map_push(lines(c), Seq::<char>::empty(), f);
        lemma_filter_map_push(lines(c).push(Seq::<char>::empty()), d, f);
        assert(f(Seq::<char>::empty()) is None) by {
            assert(split(Seq::<char>::empty(), '=') =~= seq![Seq::<char>::empty()]);
        }
        assert(zsh_variables(c, file) + Seq::<VarView>::empty() =~= zsh_variables(c, file));
    } else {
        lemma_filter_map_push(lines(c), d, f);
    }
}

/// A name that a line appended to `.bashrc` declares is read back: the
/// file then declares what it declared before, followed by the new
/// variable with the value as written.
///
/// This holds of files without carriage returns, for a name other than
/// `PATH` without `=`, line breaks, spaces or tabs that does not start
/// with `#`, and a value without `=` or line breaks.
pub proof fn law_append_bashrc_variable(c: Seq<char>, n: Seq<char>, v: Seq<char>, file: Seq<char>)
    requires
        !c.contains('\r'),
        n != path_word(),
        !n.contains('='),
        !n.contains('\n'),
        !n.contains(' '),
        !n.contains('\t'),
        !(n.len() > 0 && n[0] == '#'),
        !v.contains('='),
        !v.contains('\n'),
    ensures
        bashrc_variables(appended_declaration(c, n, v), file) == bashrc_variables(c, file).push(
            VarView { name: n, value: v, scope: Scope::Terminal, declared_in: file },
        ),
{
    let d = export_word() + n + seq!['='] + v;
    assert(appended_declaration(c, n, v) =~= c + seq!['\n'] + d);
    assert(!d.contains('\n')) by {
        if d.contains('\n') {
            let k = choose|k: int| 0 <= k < d.len() && d[k] == '\n';
            if 7 <= k < 7 + n.len() {
                assert(n[k - 7] == '\n');
            } else if k > 7 + n.len() {
                assert(v[k - 8 - n.len()] == '\n');
            }
        }
    }
    lemma_lines_append_line(c, d);
    lemma_split_export(n, v);
    let f = bashrc_entry_fn(file);
    assert(drop_export(export_word() + n) =~= n) by {
        assert(export_word().is_prefix_of(export_word() + n)) by {
            assert(export_word() =~= (export_word() + n).subrange(0, 7));
        }
        assert((export_word() + n).skip(7) =~= n);
    }
    assert(f(d) == Some(VarView { name: n, value: v, scope: Scope::Terminal, declared_in: file }));
    if split(c, '\n').last().len() == 0 {
        lemma_filter_map_push(lines(c), Seq::<char>::empty(), f);
        lemma_filter_map_push(lines(c).push(Seq::<char>::empty()), d, f);
        assert(f(Seq::<char>::empty()) is None) by {
            assert(split(Seq::<char>::empty(), '=') =~= seq![Seq::<char>::empty()]);
        }
        assert(bashrc_variables(c, file) + Seq::<VarView>::empty() =~= bashrc_variables(c, file));
    } else {
        lemma_filter_map_push(lines(c), d, f);
    }
}

/// Text that starts and ends with other characters than white space is its
/// own trim.
proof fn lemma_trim_plain(s: Seq<char>)
    requires
        s.len() > 0,
        !is_white(s[0]),
        !is_white(s.last()),
    ensures
        trim(s) == s,
{
}

/// The UTF-8 length of a value between double quotes.
proof fn lemma_byte_len_quoted(v: Seq<char>)
    ensures
        byte_len(seq!['"'] + v + seq!['"']) == byte_len(v) + 2,
{
    let q1 = seq!['"'];
    crate::text::lemma_encode_concat(q1, v);
    crate::text::lemma_encode_concat(q1 + v, q1);
    assert(q1.drop_first() =~= Seq::<char>::empty());
    assert(vstd::utf8::encode_utf8(q1.drop_first()) =~= Seq::<u8>::empty());
    assert(vstd::utf8::encode_scalar('"' as u32).len() == 1);
    assert(byte_len(q1) == 1);
}

/// Setting a variable that a profile script does not declare yet makes it
/// readable by `list` (which reads values from the environment first): the
/// script then declares what it declared before, followed by the new
/// variable with its value.
///
/// This holds of scripts without carriage returns, for a name that the
/// environment does not hold, other than `PATH`, without `=`, line breaks
/// or tabs, not starting with `#`, and an ASCII value without `=`, line
/// breaks or `${`. (A value with wider characters keeps its closing quote
/// when read.)
pub proof fn law_set_new_user_variable(
    c: Seq<char>,
    n: Seq<char>,
    v: Seq<char>,
    file: Seq<char>,
    env: Seq<(Seq<char>, Seq<char>)>,
)
    requires
        !c.contains('\r'),
        forall|i: int| 0 <= i < lines(c).len() ==> set_previous(#[trigger] lines(c)[i], n, true) is None,
        env_lookup(env, n) is None,
        n != path_word(),
        !n.contains('='),
        !n.contains('\n'),
        !n.contains('\t'),
        !(n.len() > 0 && n[0] == '#'),
        !v.contains('='),
        !v.contains('\n'),
        !has_dollar_brace(v),
        byte_len(v) == v.len(),
    ensures
        bash_variables(set_content(c, n, v, true), file, true, env) == bash_variables(c, file, true, env).push(
            VarView { name: n, value: v, scope: Scope::User, declared_in: file },
        ),
{
    let ls = lines(c);
    let nl = |l: Seq<char>| l + seq!['\n'];
    lemma_lines_of_plain(c);
    lemma_split_nonempty(c, '\n');
    assert forall|i: int| 0 <= i < ls.len() implies !(#[trigger] ls[i]).contains('\n') by {
        lemma_lines_no_newline(c, i);
    }
    assert forall|i: int| 0 <= i < ls.len() implies (set_line_fn(n, v, true))(#[trigger] ls[i]) == nl(ls[i]) by {}
    lemma_flat_map_agree(ls, set_line_fn(n, v, true), nl);
    lemma_filter_map_none(ls, set_previous_fn(n, true));
    let decl = quoted_declaration(n, v, true);
    let body = ls.flat_map(nl);
    let q = seq!['"'] + v + seq!['"'];
    assert(decl =~= export_word() + n + seq!['='] + q);
    let tail = seq!['\n'] + decl;
    assert(set_content(c, n, v, true) == body + tail) by {
        assert(previous_values(c, n, true).len() == 0);
    }
    assert(!q.contains('=')) by {
        if q.contains('=') {
            let k = choose|k: int| 0 <= k < q.len() && q[k] == '=';
            assert(v[k - 1] == '=');
        }
    }
    assert(!decl.contains('\n')) by {
        if decl.contains('\n') {
            let k = choose|k: int| 0 <= k < decl.len() && decl[k] == '\n';
            if 7 <= k < 7 + n.len() {
                assert(n[k - 7] == '\n');
            } else if 8 + n.len() < k < decl.len() - 1 {
                assert(v[k - 9 - n.len()] == '\n');
            }
        }
    }
    // The new text: the old lines, an empty line, the declaration.
    lemma_split_terminated(ls);
    crate::text::lemma_split_no_sep(Seq::<char>::empty(), '\n');
    lemma_split_pair(Seq::<char>::empty(), decl, '\n');
    assert(Seq::<char>::empty() + seq!['\n'] + decl =~= tail);
    crate::text::lemma_split_concat(body, tail, '\n');
    assert(Seq::<char>::empty() + Seq::<char>::empty() =~= Seq::<char>::empty());
    let p = split(body + tail, '\n');
    assert(p =~= ls.push(Seq::<char>::empty()).push(decl));
    assert forall|i: int| 0 <= i < p.len() - 1 implies crate::text::strip_cr(#[trigger] p[i]) == p[i] by {
        if i < ls.len() {
            assert(p[i] == ls[i]);
            assert(ls[i] == split(c, '\n')[i]);
            if ls[i].len() > 0 && ls[i].last() == '\r' {
                assert(ls[i][ls[i].len() - 1] == '\r');
                lemma_split_piece_chars(c, '\n', i, '\r');
            }
        }
    }
    assert(decl.last() != '\n') by {
        assert(decl[decl.len() - 1] == decl.last());
    }
    assert(lines(body + tail) =~= ls.push(Seq::<char>::empty()).push(decl));
    // Reading the declaration back.
    lemma_trim_plain(decl);
    lemma_split_export(n, q);
    assert(skip_chars(trim(decl), 7) =~= n + seq!['='] + q);
    lemma_split_pair(n, q, '=');
    assert(export_word().is_prefix_of(decl)) by {
        assert(export_word() =~= decl.subrange(0, 7));
    }
    assert(!has_dollar_brace(q)) by {
        if has_dollar_brace(q) {
            let k = choose|k: int| 0 <= k && k + 1 < q.len() && #[trigger] q[k] == '$' && q[k + 1] == '{';
            assert(v[k - 1] == '$');
            assert(v[k] == '{');
        }
    }
    lemma_byte_len_quoted(v);
    assert(strip_quotes_by_bytes(q) =~= v);
    let f = bash_entry_fn(file, true, env);
    assert(f(decl) == Some(VarView { name: n, value: v, scope: Scope::User, declared_in: file }));
    assert(f(Seq::<char>::empty()) is None) by {
        assert(trim(Seq::<char>::empty()) =~= Seq::<char>::empty());
    }
    lemma_filter_map_push(ls, Seq::<char>::empty(), f);
    lemma_filter_map_push(ls.push(Seq::<char>::empty()), decl, f);
    assert(bash_variables(c, file, true, env) + Seq::<VarView>::empty() =~= bash_variables(c, file, true, env));
}

/// The line that a line becomes in the file that declares `n`, without its
/// line break; `None` for a dropped line.
spec fn replaced(line: Seq<char>, n: Seq<char>, v: Seq<char>) -> Option<Seq<char>> {
    let parts = split(unexported(line), '=');
    if parts[0] != n {
        Some(line)
    } else if parts.len() < 2 {
        None
    } else {
        Some(
            (if export_word().is_prefix_of(line) { export_word() } else { Seq::empty() }) + n + seq!['=']
                + maybe_quoted(v, quoted(parts[1])),
        )
    }
}

spec fn replaced_fn(n: Seq<char>, v: Seq<char>) -> spec_fn(Seq<char>) -> Option<Seq<char>> {
    |line: Seq<char>| replaced(line, n, v)
}

proof fn lemma_replaced_lines(ls: Seq<Seq<char>>, n: Seq<char>, v: Seq<char>)
    ensures
        ls.flat_map(replace_line_fn(n, v)) == ls.filter_map(replaced_fn(n, v)).flat_map(
            |l: Seq<char>| l + seq!['\n'],
        ),
    decreases ls.len(),
{
    let nl = |l: Seq<char>| l + seq!['\n'];
    let f = replace_line_fn(n, v);
    let g = replaced_fn(n, v);
    if ls.len() == 0 {
        assert(ls.map_values(f) =~= Seq::<Seq<char>>::empty());
        assert(ls.filter_map(g).map_values(nl) =~= Seq::<Seq<char>>::empty());
    } else {
        let init = ls.drop_last();
        let l = ls.last();
        lemma_replaced_lines(init, n, v);
        init.lemma_flat_map_push(f, l);
        assert(init.push(l) =~= ls);
        lemma_filter_map_push(init, l, g);
        let k = init.filter_map(g);
        match g(l) {
            Some(r) => {
                k.lemma_flat_map_push(nl, r);
                assert(k + seq![r] =~= k.push(r));
                assert(f(l) =~= r + seq!['\n']);
            },
            None => {
                assert(f(l) =~= Seq::<char>::empty());
                assert(k + Seq::<Seq<char>>::empty() =~= k);
                assert(init.flat_map(f) + Seq::<char>::empty() =~= init.flat_map(f));
            },
        }
    }
}

/// What a line read from the rewritten `/etc/environment` gives: where it
/// names `n`, the value `v`.
spec fn reads_back(seg: Seq<char>, n: Seq<char>, v: Seq<char>) -> bool {
    &&& !seg.contains('\n')
    &&& seg.len() > 0 && split(seg, '=')[0] == n ==> split(seg, '=').len() >= 2 && unquote_system(split(seg, '=')[1]) == v
}

proof fn lemma_system_entries_value(segs: Seq<Seq<char>>, n: Seq<char>, v: Seq<char>)
    requires
        forall|j: int| 0 <= j < segs.len() && (#[trigger] segs[j]).len() > 0 && split(segs[j], '=')[0] == n ==> unquote_system(split(segs[j], '=')[1]) == v,
    ensures
        forall|i: int| 0 <= i < system_entries(segs).len() && (#[trigger] system_entries(segs)[i]).name == n ==> system_entries(segs)[i].value == v,
    decreases segs.len(),
{
    if segs.len() > 0 {
        assert forall|j: int| 0 <= j < segs.drop_first().len() && (#[trigger] segs.drop_first()[j]).len() > 0 && split(segs.drop_first()[j], '=')[0] == n implies unquote_system(split(segs.drop_first()[j], '=')[1]) == v by {
            assert(segs.drop_first()[j] == segs[j + 1]);
        }
        lemma_system_entries_value(segs.drop_first(), n, v);
        let rest = system_entries(segs.drop_first());
        let parts = split(segs[0], '=');
        if segs[0].len() > 0 && parts[0] != path_word() {
            let e = system_entries(segs);
            assert forall|i: int| 0 <= i < e.len() && (#[trigger] e[i]).name == n implies e[i].value == v by {
                if i > 0 {
                    assert(e[i] == rest[i - 1]);
                }
            }
        }
    }
}

/// Setting a variable that `/etc/environment` declares gives it the new
/// value: every variable of that name read from the rewritten file has it.
///
/// This holds of files without carriage returns, for a name without `=` or
/// line breaks that does not start with
/// `export `, and a value without `=` or line breaks that is not enclosed
/// in double quotes.
pub proof fn law_replace_system_variable(c: Seq<char>, n: Seq<char>, v: Seq<char>)
    requires
        !c.contains('\r'),
        !n.contains('='),
        !n.contains('\n'),
        !export_word().is_prefix_of(n),
        !v.contains('='),
        !v.contains('\n'),
        !quoted(v),
    ensures
        forall|i: int|
            0 <= i < system_variables(replace_content(c, n, v)).len() && (#[trigger] system_variables(
                replace_content(c, n, v),
            )[i]).name == n ==> system_variables(replace_content(c, n, v))[i].value == v,
        (exists|i: int|
            0 <= i < lines(c).len() && split(#[trigger] lines(c)[i], '=')[0] == n && split(lines(c)[i], '=').len()
                >= 2) && n != path_word() ==> exists|j: int|
            0 <= j < system_variables(replace_content(c, n, v)).len() && (#[trigger] system_variables(
                replace_content(c, n, v),
            )[j]).name == n,
{
    let ls = lines(c);
    let g = replaced_fn(n, v);
    lemma_replaced_lines(ls, n, v);
    let rl = ls.filter_map(g);
    let p = |r: Seq<char>| reads_back(r, n, v);
    assert forall|i: int| 0 <= i < ls.len() implies (g(#[trigger] ls[i]) matches Some(r) ==> p(r)) by {
        let l = ls[i];
        lemma_lines_no_newline(c, i);
        let parts = split(unexported(l), '=');
        if parts[0] != n {
            // Kept as it is: where it names `n` after all, it starts with
            // `export `, and so would `n`.
            if split(l, '=')[0] == n {
                if export_word().is_prefix_of(l) {
                    lemma_split_nonempty(l, '=');
                    crate::text::lemma_split_first_prefix(l, '=');
                    if n.len() >= 7 {
                        assert(export_word() =~= n.subrange(0, 7)) by {
                            assert forall|k: int| 0 <= k < 7 implies n[k] == export_word()[k] by {
                                assert(l[k] == export_word()[k]);
                                assert(n[k] == l[k]);
                            }
                        }
                    } else {
                        assert(l[n.len() as int] == '=');
                        assert(l[n.len() as int] == export_word()[n.len() as int]);
                    }
                }
                assert(unexported(l) == l);
            }
        } else if parts.len() >= 2 {
            let mq = maybe_quoted(v, quoted(parts[1]));
            assert(!mq.contains('=') && !mq.contains('\n')) by {
                if mq.contains('=') || mq.contains('\n') {
                    let k = choose|k: int| 0 <= k < mq.len() && (mq[k] == '=' || mq[k] == '\n');
                    if quoted(parts[1]) {
                        assert(v[k - 1] == mq[k]);
                    } else {
                        assert(v[k] == mq[k]);
                    }
                }
            }
            let r = (if export_word().is_prefix_of(l) { export_word() } else { Seq::empty() }) + n + seq!['='] + mq;
            assert(!r.contains('\n')) by {
                if r.contains('\n') {
                    let k = choose|k: int| 0 <= k < r.len() && r[k] == '\n';
                    let e = if export_word().is_prefix_of(l) { 7int } else { 0int };
                    if e <= k < e + n.len() {
                        assert(n[k - e] == '\n');
                    } else if k > e + n.len() {
                        assert(mq[k - e - n.len() - 1] == '\n');
                    }
                }
            }
            if export_word().is_prefix_of(l) {
                lemma_split_export(n, mq);
                assert(r =~= export_word() + n + seq!['='] + mq);
                assert((export_word() + n).len() != n.len());
            } else {
                lemma_split_pair(n, mq, '=');
                assert(r =~= n + seq!['='] + mq);
                if quoted(parts[1]) {
                    assert(unquote_system(mq) =~= v);
                }
            }
        }
    }
    lemma_filter_map_all(ls, g, p);
    assert forall|j: int| 0 <= j < rl.len() implies !(#[trigger] rl[j]).contains('\n') by {
        assert(p(rl[j]));
    }
    lemma_split_terminated(rl);
    let segs = rl.push(Seq::<char>::empty());
    assert forall|j: int| 0 <= j < segs.len() && (#[trigger] segs[j]).len() > 0 && split(segs[j], '=')[0] == n implies unquote_system(split(segs[j], '=')[1]) == v by {
        assert(j < rl.len());
        assert(segs[j] == rl[j]);
        assert(p(rl[j]));
    }
    lemma_system_entries_value(segs, n, v);
    // A declaration of `n` is rewritten, and read back.
    if (exists|i: int|
        0 <= i < ls.len() && split(#[trigger] ls[i], '=')[0] == n && split(ls[i], '=').len() >= 2) && n
        != path_word() {
        let i = choose|i: int| 0 <= i < ls.len() && split(#[trigger] ls[i], '=')[0] == n && split(ls[i], '=').len() >= 2;
        let l = ls[i];
        lemma_no_export_prefix(l, n);
        assert(unexported(l) == l);
        let mq = maybe_quoted(v, quoted(split(l, '=')[1]));
        lemma_new_value(v, quoted(split(l, '=')[1]));
        let r = n + seq!['='] + mq;
        assert(g(l) == Some(r));
        lemma_split_pair(n, mq, '=');
        lemma_filter_map_exists(ls, g, i);
        let j = choose|j: int| 0 <= j < rl.len() && rl[j] == r;
        assert(segs[j] == r);
        lemma_system_entries_has(segs, j, n);
    }
}

/// What a line of the rewritten script gives when `list` reads it: where it
/// names `n`, the value `v`; it holds no line break.
spec fn reads_back_script(
    r: Seq<char>,
    n: Seq<char>,
    v: Seq<char>,
    file: Seq<char>,
    env: Seq<(Seq<char>, Seq<char>)>,
) -> bool {
    &&& !r.contains('\n')
    &&& (bash_entry_fn(file, true, env)(r) matches Some(x) ==> (x.name == n ==> x.value == v))
}

/// The new value, quoted or not as the old one was.
proof fn lemma_new_value(v: Seq<char>, q: bool)
    requires
        !v.contains('='),
        !v.contains('\n'),
    ensures
        !maybe_quoted(v, q).contains('='),
        !maybe_quoted(v, q).contains('\n'),
        !has_dollar_brace(v) ==> !has_dollar_brace(maybe_quoted(v, q)),
        !quoted(v) && byte_len(v) == v.len() ==> unquote_counted(maybe_quoted(v, q)) == v,
        q ==> maybe_quoted(v, q).last() == '"',
        !q ==> maybe_quoted(v, q) == v,
{
    let mq = maybe_quoted(v, q);
    if mq.contains('=') || mq.contains('\n') {
        let k = choose|k: int| 0 <= k < mq.len() && (mq[k] == '=' || mq[k] == '\n');
        if q {
            assert(v[k - 1] == mq[k]);
        } else {
            assert(v[k] == mq[k]);
        }
    }
    if !has_dollar_brace(v) && has_dollar_brace(mq) {
        let k = choose|k: int| 0 <= k && k + 1 < mq.len() && #[trigger] mq[k] == '$' && mq[k + 1] == '{';
        if q {
            assert(v[k - 1] == '$');
            assert(v[k] == '{');
        } else {
            assert(v[k] == '$');
            assert(v[k + 1] == '{');
        }
    }
    if q {
        lemma_byte_len_quoted(v);
        if byte_len(v) == v.len() {
            assert(strip_quotes_by_bytes(mq) =~= v);
        }
    }
}

/// The last character of `NAME=VALUE` (after `export ` or not): that of
/// the value, or `=` for an empty value.
proof fn lemma_declaration_last(e: Seq<char>, n: Seq<char>, mq: Seq<char>)
    ensures
        (e + n + seq!['='] + mq).last() == (if mq.len() == 0 { '=' } else { mq.last() }),
{
}

/// Text written as lines, each followed by a line break, reads back as
/// those lines where none holds a line break or ends with a carriage
/// return.
proof fn lemma_lines_written(rl: Seq<Seq<char>>)
    requires
        forall|j: int| 0 <= j < rl.len() ==> !(#[trigger] rl[j]).contains('\n') && (rl[j].len() > 0
            ==> rl[j].last() != '\r'),
    ensures
        lines(rl.flat_map(|l: Seq<char>| l + seq!['\n'])) == rl,
{
    lemma_split_terminated(rl);
    let body = rl.flat_map(|l: Seq<char>| l + seq!['\n']);
    assert forall|j: int| 0 <= j < rl.len() implies #[trigger] lines(body)[j] == rl[j] by {}
    assert(lines(body) =~= rl);
}

/// `export NAME=VALUE`, as `list` reads it from a profile script: the name
/// `n` with the value (quotes removed), unless the environment holds `n`.
proof fn lemma_read_exported(
    n: Seq<char>,
    mq: Seq<char>,
    file: Seq<char>,
    env: Seq<(Seq<char>, Seq<char>)>,
)
    requires
        env_lookup(env, n) is None,
        !n.contains('='),
        !mq.contains('='),
        !has_dollar_brace(mq),
        mq.len() > 0 ==> !is_white(mq.last()),
    ensures
        bash_entry_fn(file, true, env)(export_word() + n + seq!['='] + mq) matches Some(x) ==> (x.name == n
            && x.value == unquote_counted(mq)),
        n != path_word() && !(n.len() > 0 && n[0] == '#') && !n.contains('\t') ==> bash_entry_fn(
            file,
            true,
            env,
        )(export_word() + n + seq!['='] + mq) is Some,
{
    let r = export_word() + n + seq!['='] + mq;
    assert(!is_white(r.last())) by {
        if mq.len() == 0 {
            assert(r.last() == '=');
        } else {
            assert(r.last() == mq.last());
        }
    }
    lemma_trim_plain(r);
    assert(skip_chars(r, 7) =~= n + seq!['='] + mq);
    lemma_split_pair(n, mq, '=');
    assert(export_word().is_prefix_of(r)) by {
        assert(export_word() =~= r.subrange(0, 7));
    }
}

/// Leading white space is dropped up to text that starts otherwise.
proof fn lemma_trim_start_concat(a: Seq<char>, b: Seq<char>)
    requires
        b.len() > 0,
        !is_white(b[0]),
    ensures
        trim_start(a + b) == trim_start(a) + b,
    decreases a.len(),
{
    if a.len() == 0 {
        assert(a + b =~= b);
        assert(trim_start(a) + b =~= b);
    } else if is_white(a[0]) {
        assert((a + b)[0] == a[0]);
        assert((a + b).drop_first() =~= a.drop_first() + b);
        lemma_trim_start_concat(a.drop_first(), b);
    } else {
        assert((a + b)[0] == a[0]);
    }
}

/// What is left of a line without trailing white space is a prefix of it.
proof fn lemma_trim_end_prefix(s: Seq<char>)
    ensures
        trim_end(s).is_prefix_of(s),
    decreases s.len(),
{
    if s.len() > 0 && is_white(s.last()) {
        lemma_trim_end_prefix(s.drop_last());
    }
}

/// Text up to the first `=`, where a prefix already holds an `=`: the
/// prefix's.
proof fn lemma_split_prefix(p: Seq<char>, s: Seq<char>)
    requires
        p.is_prefix_of(s),
        split(p, '=').len() >= 2,
    ensures
        split(s, '=').len() >= 2,
        split(s, '=')[0] == split(p, '=')[0],
{
    let rest = s.skip(p.len() as int);
    assert(p + rest =~= s);
    crate::text::lemma_split_concat(p, rest, '=');
    lemma_split_nonempty(rest, '=');
}

/// A line that starts with `export ` and that `list` reads as `n` (with
/// values taken from the file, `n` not being in the environment) is one
/// that `set` rewrites: after `export `, its text up to the first `=` is
/// `n`, and an `=` follows.
proof fn lemma_read_as_name(l: Seq<char>, n: Seq<char>, file: Seq<char>, env: Seq<(Seq<char>, Seq<char>)>)
    requires
        export_word().is_prefix_of(l),
        env_lookup(env, n) is None,
        bash_entry_fn(file, true, env)(l) matches Some(x) && x.name == n,
    ensures
        split(unexported(l), '=').len() >= 2,
        split(unexported(l), '=')[0] == n,
        n != path_word(),
        !(n.len() > 0 && n[0] == '#'),
        !n.contains('\t'),
{
    assert(l[0] == 'e');
    assert(trim_start(l) == l);
    let t = trim(l);
    assert(t == trim_end(l));
    lemma_trim_end_prefix(l);
    let tail = skip_chars(t, 7);
    assert(tail.is_prefix_of(l.skip(7))) by {
        assert forall|k: int| 0 <= k < tail.len() implies tail[k] == l.skip(7)[k] by {
            assert(tail[k] == t[k + 7]);
            assert(t[k + 7] == l[k + 7]);
        }
    }
    assert(unexported(l) == l.skip(7));
    lemma_split_prefix(tail, l.skip(7));
}

/// `NAME=VALUE` with no `export ` in front is never read as `NAME` from a
/// profile script: where its trim starts with `export `, the name read is
/// shorter than `NAME`.
proof fn lemma_read_unexported(n: Seq<char>, mq: Seq<char>, file: Seq<char>, env: Seq<(Seq<char>, Seq<char>)>)
    requires
        !n.contains('='),
        !mq.contains('='),
        mq.len() > 0 ==> !is_white(mq.last()),
    ensures
        bash_entry_fn(file, true, env)(n + seq!['='] + mq) matches Some(x) ==> x.name != n,
{
    let b = seq!['='] + mq;
    let r = n + b;
    assert(n + seq!['='] + mq =~= r);
    lemma_trim_start_concat(n, b);
    lemma_trim_start_suffix(n);
    let ts = trim_start(n);
    let tb = ts + b;
    assert(!is_white(tb.last())) by {
        if mq.len() == 0 {
            assert(tb.last() == '=');
        } else {
            assert(tb.last() == mq.last());
        }
    }
    assert(trim(r) == tb);
    assert(!ts.contains('=')) by {
        if ts.contains('=') {
            let k = choose|k: int| 0 <= k < ts.len() && ts[k] == '=';
            assert(n[n.len() - ts.len() + k] == '=');
        }
    }
    if export_word().is_prefix_of(tb) {
        if ts.len() < 7 {
            assert(tb[ts.len() as int] == '=');
            assert(tb[ts.len() as int] == export_word()[ts.len() as int]);
        }
        let name = ts.skip(7);
        assert(skip_chars(tb, 7) =~= name + seq!['='] + mq);
        assert(!name.contains('=')) by {
            if name.contains('=') {
                let k = choose|k: int| 0 <= k < name.len() && name[k] == '=';
                assert(ts[k + 7] == '=');
            }
        }
        lemma_split_pair(name, mq, '=');
        assert(name.len() < n.len());
    }
}

/// What a line of a profile script becomes when `n` is set to `v` is read
/// back with the new value where it names `n`.
proof fn lemma_replaced_script_line(
    l: Seq<char>,
    n: Seq<char>,
    v: Seq<char>,
    file: Seq<char>,
    env: Seq<(Seq<char>, Seq<char>)>,
)
    requires
        (bash_entry_fn(file, true, env)(l) matches Some(x) && x.name == n) ==> export_word().is_prefix_of(l),
        !l.contains('\n'),
        env_lookup(env, n) is None,
        !n.contains('='),
        !n.contains('\n'),
        !v.contains('='),
        !v.contains('\n'),
        !has_dollar_brace(v),
        !quoted(v),
        byte_len(v) == v.len(),
        v.len() == 0 || !is_white(v.last()),
    ensures
        replaced_fn(n, v)(l) matches Some(r) ==> reads_back_script(r, n, v, file, env),
        (bash_entry_fn(file, true, env)(l) matches Some(x) && x.name == n) ==> (replaced_fn(n, v)(l) matches Some(
            r,
        ) && r.len() > 0 && r.last() != '\r' && (bash_entry_fn(file, true, env)(r) matches Some(y) && y.name == n)),
{
    let parts = split(unexported(l), '=');
    let f = bash_entry_fn(file, true, env);
    if f(l) matches Some(x) && x.name == n {
        lemma_read_as_name(l, n, file, env);
    }
    if parts[0] != n {
    } else if parts.len() >= 2 {
        let q = quoted(parts[1]);
        let mq = maybe_quoted(v, q);
        lemma_new_value(v, q);
        assert(mq.len() > 0 ==> !is_white(mq.last())) by {
            if mq.len() > 0 && !q {
                assert(v.len() > 0);
            }
        }
        let exported = export_word().is_prefix_of(l);
        let e = if exported { export_word() } else { Seq::<char>::empty() };
        let r = e + n + seq!['='] + mq;
        assert(!r.contains('\n')) by {
            if r.contains('\n') {
                let k = choose|k: int| 0 <= k < r.len() && r[k] == '\n';
                if e.len() <= k < e.len() + n.len() {
                    assert(n[k - e.len()] == '\n');
                } else if k > e.len() + n.len() {
                    assert(mq[k - e.len() - n.len() - 1] == '\n');
                } else if k < e.len() {
                    assert(export_word()[k] == '\n');
                }
            }
        }
        assert(!is_white(r.last())) by {
            if mq.len() == 0 {
                assert(r.last() == '=');
            } else {
                assert(r.last() == mq.last());
            }
        }
        if exported {
            lemma_read_exported(n, mq, file, env);
            assert(r =~= export_word() + n + seq!['='] + mq);
        } else {
            lemma_read_unexported(n, mq, file, env);
            assert(r =~= n + seq!['='] + mq);
        }
    }
}

/// Setting a variable that a profile script declares gives it the new
/// value: every variable of that name that `list` reads from the rewritten
/// script, with values taken from the file, has it; and where the script
/// declared the variable, it is read back.
///
/// This holds of scripts in which every line that is read as the name
/// starts with `export ` (a declaration that starts with white space is
/// not rewritten, and would keep its old value), for a name that the
/// environment does not hold, without `=` or line breaks, and an ASCII
/// value without `=`, line breaks or `${` that is not enclosed in double
/// quotes and does not end with white space.
pub proof fn law_replace_script_variable(
    c: Seq<char>,
    n: Seq<char>,
    v: Seq<char>,
    file: Seq<char>,
    env: Seq<(Seq<char>, Seq<char>)>,
)
    requires
        forall|i: int|
            0 <= i < lines(c).len() && (bash_entry_fn(file, true, env)(#[trigger] lines(c)[i]) matches Some(x)
                && x.name == n) ==> export_word().is_prefix_of(lines(c)[i]),
        env_lookup(env, n) is None,
        !n.contains('='),
        !n.contains('\n'),
        !v.contains('='),
        !v.contains('\n'),
        !has_dollar_brace(v),
        !quoted(v),
        byte_len(v) == v.len(),
        v.len() == 0 || !is_white(v.last()),
    ensures
        forall|i: int|
            0 <= i < bash_variables(replace_content(c, n, v), file, true, env).len() && (#[trigger] bash_variables(
                replace_content(c, n, v),
                file,
                true,
                env,
            )[i]).name == n ==> bash_variables(replace_content(c, n, v), file, true, env)[i].value == v,
        (exists|i: int|
            0 <= i < bash_variables(c, file, true, env).len() && (#[trigger] bash_variables(c, file, true, env)[i]).name
                == n) ==> exists|j: int|
            0 <= j < bash_variables(replace_content(c, n, v), file, true, env).len() && (#[trigger] bash_variables(
                replace_content(c, n, v),
                file,
                true,
                env,
            )[j]).name == n,
{
    let ls = lines(c);
    let g = replaced_fn(n, v);
    let f = bash_entry_fn(file, true, env);
    lemma_replaced_lines(ls, n, v);
    let rl = ls.filter_map(g);
    let p = |r: Seq<char>| reads_back_script(r, n, v, file, env);
    assert forall|i: int| 0 <= i < ls.len() implies (g(#[trigger] ls[i]) matches Some(r) ==> p(r)) by {
        lemma_lines_no_newline(c, i);
        lemma_replaced_script_line(ls[i], n, v, file, env);
    }
    lemma_filter_map_all(ls, g, p);
    assert forall|j: int| 0 <= j < rl.len() implies !(#[trigger] rl[j]).contains('\n') by {
        assert(p(rl[j]));
    }
    lemma_lines_written_cr(rl);
    let rs = lines(rl.flat_map(|l: Seq<char>| l + seq!['\n']));
    let qv = |x: VarView| (x.name == n ==> x.value == v);
    assert forall|j: int| 0 <= j < rs.len() implies (f(#[trigger] rs[j]) matches Some(x) ==> qv(x)) by {
        assert(rs[j] == crate::text::strip_cr(rl[j]));
        lemma_trim_strip_cr(rl[j]);
        assert(f(rs[j]) == f(rl[j]));
        assert(p(rl[j]));
    }
    lemma_filter_map_all(rs, f, qv);
    // A declaration that is read is rewritten, and read back.
    let old_vars = bash_variables(c, file, true, env);
    if exists|i: int| 0 <= i < old_vars.len() && (#[trigger] old_vars[i]).name == n {
        let k = choose|k: int| 0 <= k < old_vars.len() && (#[trigger] old_vars[k]).name == n;
        lemma_filter_map_found(ls, f, k);
        let i = choose|i: int| 0 <= i < ls.len() && f(ls[i]) == Some(old_vars[k]);
        lemma_lines_no_newline(c, i);
        lemma_replaced_script_line(ls[i], n, v, file, env);
        let r = g(ls[i]).unwrap();
        lemma_filter_map_exists(ls, g, i);
        let j = choose|j: int| 0 <= j < rl.len() && rl[j] == r;
        assert(rs[j] == r);
        lemma_filter_map_exists(rs, f, j);
    }
}

/// The name that a shell configuration line declares (its text up to the
/// first `=`, without a leading `export `) is the one that `set` compares.
proof fn lemma_first_name(l: Seq<char>)
    ensures
        drop_export(split(l, '=')[0]) == split(unexported(l), '=')[0],
        split(l, '=').len() == split(unexported(l), '=').len(),
        export_word().is_prefix_of(l) ==> split(l, '=')[0] == export_word() + split(unexported(l), '=')[0],
{
    lemma_split_nonempty(l, '=');
    let e = export_word();
    if e.is_prefix_of(l) {
        let rest = l.skip(7);
        assert(l =~= e + rest);
        assert(!e.contains('=')) by {
            if e.contains('=') {
                let k = choose|k: int| 0 <= k < e.len() && e[k] == '=';
            }
        }
        crate::text::lemma_split_no_sep(e, '=');
        crate::text::lemma_split_concat(e, rest, '=');
        lemma_split_nonempty(rest, '=');
        let first = split(l, '=')[0];
        assert(first == e + split(rest, '=')[0]);
        assert(e.is_prefix_of(first)) by {
            assert(first.subrange(0, 7) =~= e);
        }
        assert(skip_chars(first, 7) =~= split(rest, '=')[0]);
        assert(unexported(l) == rest);
    } else {
        crate::text::lemma_split_first_prefix(l, '=');
        let first = split(l, '=')[0];
        if e.is_prefix_of(first) {
            assert(e.is_prefix_of(l)) by {
                assert forall|k: int| 0 <= k < 7 implies l[k] == e[k] by {
                    assert(first[k] == e[k]);
                }
            }
        }
    }
}

/// A line of a text without carriage returns holds none.
proof fn lemma_lines_no_cr(c: Seq<char>, i: int)
    requires
        !c.contains('\r'),
        0 <= i < lines(c).len(),
    ensures
        !lines(c)[i].contains('\r'),
{
    lemma_lines_of_plain(c);
    lemma_split_nonempty(c, '\n');
    if lines(c)[i].contains('\r') {
        assert(lines(c)[i] == split(c, '\n')[i]);
        lemma_split_piece_chars(c, '\n', i, '\r');
    }
}

/// What a line of a shell configuration file becomes when `n` is set to
/// `v`: a line that declares another name is kept as it is; a line that
/// declares `n` becomes `NAME=VALUE` (after `export ` where it had it),
/// which cuts at its one `=` and, where it names `n`, holds the new value,
/// quoted as the old one was.
proof fn lemma_rewritten_line(l: Seq<char>, n: Seq<char>, v: Seq<char>)
    requires
        !l.contains('\n'),
        !l.contains('\r'),
        !n.contains('='),
        !n.contains('\n'),
        !v.contains('='),
        !v.contains('\n'),
        v.len() == 0 || v.last() != '\r',
    ensures
        replaced_fn(n, v)(l) matches Some(r) ==> {
            &&& !r.contains('\n')
            &&& (r.len() > 0 ==> r.last() != '\r')
            &&& (split(unexported(l), '=')[0] != n ==> r == l && drop_export(split(l, '=')[0]) != n)
            &&& (split(unexported(l), '=')[0] == n ==> split(r, '=').len() == 2 && (drop_export(
                split(r, '=')[0],
            ) == n ==> split(r, '=')[1] == maybe_quoted(v, quoted(split(unexported(l), '=')[1]))))
        },
{
    let parts = split(unexported(l), '=');
    lemma_first_name(l);
    if parts[0] != n {
        if l.len() > 0 {
            assert(l[l.len() - 1] == l.last());
        }
    } else if parts.len() >= 2 {
        let q = quoted(parts[1]);
        let mq = maybe_quoted(v, q);
        lemma_new_value(v, q);
        let exported = export_word().is_prefix_of(l);
        let e = if exported { export_word() } else { Seq::<char>::empty() };
        let r = e + n + seq!['='] + mq;
        assert(replaced_fn(n, v)(l) == Some(r));
        assert(!r.contains('\n')) by {
            if r.contains('\n') {
                let k = choose|k: int| 0 <= k < r.len() && r[k] == '\n';
                if e.len() <= k < e.len() + n.len() {
                    assert(n[k - e.len()] == '\n');
                } else if k > e.len() + n.len() {
                    assert(mq[k - e.len() - n.len() - 1] == '\n');
                } else if k < e.len() {
                    assert(export_word()[k] == '\n');
                }
            }
        }
        lemma_declaration_last(e, n, mq);
        if exported {
            lemma_split_export(n, mq);
            assert(r =~= export_word() + n + seq!['='] + mq);
            assert(drop_export(export_word() + n) == n) by {
                assert((export_word() + n).subrange(0, 7) =~= export_word());
                assert((export_word() + n).skip(7) =~= n);
            }
        } else {
            lemma_split_pair(n, mq, '=');
            assert(r =~= n + seq!['='] + mq);
            assert(drop_export(n) == n || drop_export(n).len() != n.len());
        }
    }
}

/// Setting a variable that `.zshenv` declares gives it the new value:
/// every variable of that name read from the rewritten file has it.
///
/// This holds of files without carriage returns, for a name without `=` or
/// line breaks, and an ASCII value without `=` or line breaks that is not
/// enclosed in double quotes and does not end with a carriage return.
pub proof fn law_replace_zsh_variable(c: Seq<char>, n: Seq<char>, v: Seq<char>, file: Seq<char>)
    requires
        !c.contains('\r'),
        !n.contains('='),
        !n.contains('\n'),
        !v.contains('='),
        !v.contains('\n'),
        !quoted(v),
        byte_len(v) == v.len(),
        v.len() == 0 || v.last() != '\r',
    ensures
        forall|i: int|
            0 <= i < zsh_variables(replace_content(c, n, v), file).len() && (#[trigger] zsh_variables(
                replace_content(c, n, v),
                file,
            )[i]).name == n ==> zsh_variables(replace_content(c, n, v), file)[i].value == v,
        (exists|i: int|
            0 <= i < zsh_variables(c, file).len() && (#[trigger] zsh_variables(c, file)[i]).name == n) ==> exists|j: int|
            0 <= j < zsh_variables(replace_content(c, n, v), file).len() && (#[trigger] zsh_variables(
                replace_content(c, n, v),
                file,
            )[j]).name == n,
{
    let ls = lines(c);
    let g = replaced_fn(n, v);
    let f = zsh_entry_fn(file);
    lemma_replaced_lines(ls, n, v);
    let rl = ls.filter_map(g);
    let p = |r: Seq<char>|
        !r.contains('\n') && (r.len() > 0 ==> r.last() != '\r') && (f(r) matches Some(x) ==> (x.name == n
            ==> x.value == v));
    assert forall|i: int| 0 <= i < ls.len() implies (g(#[trigger] ls[i]) matches Some(r) ==> p(r)) by {
        let l = ls[i];
        lemma_lines_no_newline(c, i);
        lemma_lines_no_cr(c, i);
        lemma_rewritten_line(l, n, v);
        let parts = split(unexported(l), '=');
        if parts[0] == n && parts.len() >= 2 {
            lemma_new_value(v, quoted(parts[1]));
        }
    }
    lemma_filter_map_all(ls, g, p);
    assert forall|j: int| 0 <= j < rl.len() implies !(#[trigger] rl[j]).contains('\n') && (rl[j].len() > 0
        ==> rl[j].last() != '\r') by {
        assert(p(rl[j]));
    }
    lemma_lines_written(rl);
    let qv = |x: VarView| (x.name == n ==> x.value == v);
    assert forall|j: int| 0 <= j < rl.len() implies (f(#[trigger] rl[j]) matches Some(x) ==> qv(x)) by {
        assert(p(rl[j]));
    }
    lemma_filter_map_all(rl, f, qv);
    // A declaration that is read is rewritten, and read back.
    let old_vars = zsh_variables(c, file);
    if exists|i: int| 0 <= i < old_vars.len() && (#[trigger] old_vars[i]).name == n {
        let k = choose|k: int| 0 <= k < old_vars.len() && (#[trigger] old_vars[k]).name == n;
        lemma_filter_map_found(ls, f, k);
        let i = choose|i: int| 0 <= i < ls.len() && f(ls[i]) == Some(old_vars[k]);
        let l = ls[i];
        lemma_lines_no_newline(c, i);
        lemma_lines_no_cr(c, i);
        lemma_first_name(l);
        lemma_rewritten_declares(l, n, v);
        let r = g(l).unwrap();
        lemma_filter_map_exists(ls, g, i);
        let j = choose|j: int| 0 <= j < rl.len() && rl[j] == r;
        lemma_filter_map_exists(rl, f, j);
    }
}

/// Setting a variable that `.bashrc` declares gives it the new value:
/// every variable of that name read from the rewritten file has it,
/// between double quotes where the old value had them.
///
/// This holds of files without carriage returns, for a name without `=` or
/// line breaks, and a value without `=` or line breaks that does not end
/// with a carriage return.
pub proof fn law_replace_bashrc_variable(c: Seq<char>, n: Seq<char>, v: Seq<char>, file: Seq<char>)
    requires
        !c.contains('\r'),
        !n.contains('='),
        !n.contains('\n'),
        !v.contains('='),
        !v.contains('\n'),
        v.len() == 0 || v.last() != '\r',
    ensures
        forall|i: int|
            0 <= i < bashrc_variables(replace_content(c, n, v), file).len() && (#[trigger] bashrc_variables(
                replace_content(c, n, v),
                file,
            )[i]).name == n ==> (bashrc_variables(replace_content(c, n, v), file)[i].value == v
                || bashrc_variables(replace_content(c, n, v), file)[i].value == seq!['"'] + v + seq!['"']),
        (exists|i: int|
            0 <= i < bashrc_variables(c, file).len() && (#[trigger] bashrc_variables(c, file)[i]).name == n)
            ==> exists|j: int|
            0 <= j < bashrc_variables(replace_content(c, n, v), file).len() && (#[trigger] bashrc_variables(
                replace_content(c, n, v),
                file,
            )[j]).name == n,
{
    let ls = lines(c);
    let g = replaced_fn(n, v);
    let f = bashrc_entry_fn(file);
    lemma_replaced_lines(ls, n, v);
    let rl = ls.filter_map(g);
    let qv = |x: VarView| (x.name == n ==> (x.value == v || x.value == seq!['"'] + v + seq!['"']));
    let p = |r: Seq<char>|
        !r.contains('\n') && (r.len() > 0 ==> r.last() != '\r') && (f(r) matches Some(x) ==> qv(x));
    assert forall|i: int| 0 <= i < ls.len() implies (g(#[trigger] ls[i]) matches Some(r) ==> p(r)) by {
        let l = ls[i];
        lemma_lines_no_newline(c, i);
        lemma_lines_no_cr(c, i);
        lemma_rewritten_line(l, n, v);
    }
    lemma_filter_map_all(ls, g, p);
    assert forall|j: int| 0 <= j < rl.len() implies !(#[trigger] rl[j]).contains('\n') && (rl[j].len() > 0
        ==> rl[j].last() != '\r') by {
        assert(p(rl[j]));
    }
    lemma_lines_written(rl);
    assert forall|j: int| 0 <= j < rl.len() implies (f(#[trigger] rl[j]) matches Some(x) ==> qv(x)) by {
        assert(p(rl[j]));
    }
    lemma_filter_map_all(rl, f, qv);
    // A declaration that is read is rewritten, and read back.
    let old_vars = bashrc_variables(c, file);
    if exists|i: int| 0 <= i < old_vars.len() && (#[trigger] old_vars[i]).name == n {
        let k = choose|k: int| 0 <= k < old_vars.len() && (#[trigger] old_vars[k]).name == n;
        lemma_filter_map_found(ls, f, k);
        let i = choose|i: int| 0 <= i < ls.len() && f(ls[i]) == Some(old_vars[k]);
        let l = ls[i];
        lemma_lines_no_newline(c, i);
        lemma_lines_no_cr(c, i);
        lemma_first_name(l);
        lemma_rewritten_declares(l, n, v);
        let r = g(l).unwrap();
        lemma_filter_map_exists(ls, g, i);
        let j = choose|j: int| 0 <= j < rl.len() && rl[j] == r;
        lemma_filter_map_exists(rl, f, j);
    }
}

/// Removing a variable twice: the second removal finds no line that
/// declares it, in `/etc/environment` as in a shell script.
///
/// This holds of files in which no line that the first removal keeps ends
/// with a carriage return (that the reading of the new text would drop).
pub proof fn law_remove_twice(c: Seq<char>, n: Seq<char>, in_script: bool)
    requires
        forall|i: int|
            0 <= i < lines(c).len() && !declares(#[trigger] lines(c)[i], n, in_script) && lines(c)[i].len() > 0
                ==> lines(c)[i].last() != '\r',
    ensures
        removed_content(c, n, in_script) matches Some(r) ==> removed_content(r, n, in_script) is None,
{
    if removed_content(c, n, in_script) is Some {
        let ls = lines(c);
        let ks = kept_lines(ls, n, in_script);
        let r = ls.flat_map(kept_line_fn(n, in_script));
        lemma_kept_lines(ls, n, in_script);
        assert forall|j: int| 0 <= j < ks.len() implies !(#[trigger] ks[j]).contains('\n') && (ks[j].len() > 0
            ==> ks[j].last() != '\r') by {
            let i = choose|i: int| 0 <= i < ls.len() && ks[j] == ls[i] && !declares(ls[i], n, in_script);
            lemma_lines_no_newline(c, i);
        }
        lemma_lines_written(ks);
        assert(lines(r) == ks);
        assert forall|i: int| 0 <= i < lines(r).len() implies !#[trigger] declares(lines(r)[i], n, in_script) by {
            let k = choose|k: int| 0 <= k < ls.len() && ks[i] == ls[k] && !declares(ls[k], n, in_script);
        }
    }
}

/// An element that `f` keeps is found in the filtered sequence.
proof fn lemma_filter_map_exists<A, B>(s: Seq<A>, f: spec_fn(A) -> Option<B>, i: int)
    requires
        0 <= i < s.len(),
        f(s[i]) is Some,
    ensures
        exists|j: int| 0 <= j < s.filter_map(f).len() && s.filter_map(f)[j] == f(s[i]).unwrap(),
    decreases s.len(),
{
    let init = s.drop_last();
    lemma_filter_map_push(init, s.last(), f);
    assert(init.push(s.last()) =~= s);
    if i == s.len() - 1 {
        assert(s.filter_map(f)[init.filter_map(f).len() as int] == f(s[i]).unwrap());
    } else {
        assert(init[i] == s[i]);
        lemma_filter_map_exists(init, f, i);
        let j = choose|j: int| 0 <= j < init.filter_map(f).len() && init.filter_map(f)[j] == f(init[i]).unwrap();
        assert(s.filter_map(f)[j] == init.filter_map(f)[j]);
    }
}

/// Text written as lines, each followed by a line break, reads back as
/// those lines, each without a carriage return that ended it.
proof fn lemma_lines_written_cr(rl: Seq<Seq<char>>)
    requires
        forall|j: int| 0 <= j < rl.len() ==> !(#[trigger] rl[j]).contains('\n'),
    ensures
        lines(rl.flat_map(|l: Seq<char>| l + seq!['\n'])) == rl.map_values(|l: Seq<char>| crate::text::strip_cr(l)),
{
    lemma_split_terminated(rl);
    let body = rl.flat_map(|l: Seq<char>| l + seq!['\n']);
    assert(lines(body) =~= rl.map_values(|l: Seq<char>| crate::text::strip_cr(l)));
}

/// A carriage return at the end of a line leaves the text before its first
/// `=` as it is, where the line still holds an `=` without it.
proof fn lemma_strip_cr_first(l: Seq<char>)
    ensures
        split(crate::text::strip_cr(l), '=').len() >= 2 ==> (split(l, '=').len() >= 2 && split(
            crate::text::strip_cr(l),
            '=',
        )[0] == split(l, '=')[0]),
{
    if l.len() > 0 && l.last() == '\r' {
        lemma_split_nonempty(l.drop_last(), '=');
    }
}

/// A carriage return at the end of a line does not change its trim.
proof fn lemma_trim_strip_cr(l: Seq<char>)
    ensures
        trim(crate::text::strip_cr(l)) == trim(l),
{
    if l.len() > 0 && l.last() == '\r' {
        lemma_trim_push_white(l.drop_last(), '\r');
        assert(l.drop_last().push('\r') =~= l);
    }
}

/// White space added at the end does not change the trim.
proof fn lemma_trim_push_white(d: Seq<char>, w: char)
    requires
        is_white(w),
    ensures
        trim(d.push(w)) == trim(d),
    decreases d.len(),
{
    if d.len() > 0 && is_white(d[0]) {
        assert(d.push(w)[0] == d[0]);
        assert(d.push(w).drop_first() =~= d.drop_first().push(w));
        lemma_trim_push_white(d.drop_first(), w);
    } else if d.len() == 0 {
        assert(d.push(w) =~= seq![w]);
        assert(seq![w].drop_first() =~= Seq::<char>::empty());
        assert(trim_start(Seq::<char>::empty()) =~= Seq::<char>::empty());
        assert(trim_end(Seq::<char>::empty()) =~= Seq::<char>::empty());
    } else {
        assert(d.push(w)[0] == d[0]);
        assert(d.push(w).drop_last() =~= d);
    }
}

/// Every element of the filtered sequence is kept from some element.
proof fn lemma_filter_map_found<A, B>(s: Seq<A>, f: spec_fn(A) -> Option<B>, k: int)
    requires
        0 <= k < s.filter_map(f).len(),
    ensures
        exists|i: int| 0 <= i < s.len() && f(s[i]) == Some(s.filter_map(f)[k]),
    decreases s.len(),
{
    let init = s.drop_last();
    lemma_filter_map_push(init, s.last(), f);
    assert(init.push(s.last()) =~= s);
    if k < init.filter_map(f).len() {
        lemma_filter_map_found(init, f, k);
        let i = choose|i: int| 0 <= i < init.len() && f(init[i]) == Some(init.filter_map(f)[k]);
        assert(s[i] == init[i]);
    } else {
        assert(f(s[s.len() - 1]) == Some(s.filter_map(f)[k]));
    }
}

/// A line whose text up to the first `=` is a name that does not start
/// with `export ` does not start with `export ` either.
proof fn lemma_no_export_prefix(l: Seq<char>, n: Seq<char>)
    requires
        split(l, '=')[0] == n,
        !export_word().is_prefix_of(n),
    ensures
        !export_word().is_prefix_of(l),
{
    lemma_split_nonempty(l, '=');
    crate::text::lemma_split_first_prefix(l, '=');
    if export_word().is_prefix_of(l) {
        if n.len() >= 7 {
            assert(export_word().is_prefix_of(n)) by {
                assert forall|k: int| 0 <= k < 7 implies n[k] == export_word()[k] by {
                    assert(n[k] == l[k]);
                }
            }
        } else if split(l, '=').len() > 1 {
            assert(l[n.len() as int] == '=');
            assert(l[n.len() as int] == export_word()[n.len() as int]);
        } else {
            assert(n == l);
        }
    }
}

/// `/etc/environment` yields a variable named `n` where a line that is not
/// empty has `n` before its first `=`.
proof fn lemma_system_entries_has(segs: Seq<Seq<char>>, j: int, n: Seq<char>)
    requires
        0 <= j < segs.len(),
        segs[j].len() > 0,
        split(segs[j], '=')[0] == n,
        n != path_word(),
    ensures
        exists|k: int| 0 <= k < system_entries(segs).len() && (#[trigger] system_entries(segs)[k]).name == n,
    decreases segs.len(),
{
    let rest = system_entries(segs.drop_first());
    let e = system_entries(segs);
    if j == 0 {
        assert(e[0].name == n);
    } else {
        assert(segs.drop_first()[j - 1] == segs[j]);
        lemma_system_entries_has(segs.drop_first(), j - 1, n);
        let k = choose|k: int| 0 <= k < rest.len() && (#[trigger] rest[k]).name == n;
        if segs[0].len() > 0 && split(segs[0], '=')[0] != path_word() {
            assert(e[k + 1] == rest[k]);
        } else {
            assert(e[k] == rest[k]);
        }
    }
}

/// A line of a shell configuration file that declares `n` (after
/// `export ` or not) is rewritten into one that cuts into `n` (after an
/// `export ` that is dropped) and the new value, and that ends neither with
/// a line break nor with a carriage return.
proof fn lemma_rewritten_declares(l: Seq<char>, n: Seq<char>, v: Seq<char>)
    requires
        !l.contains('\n'),
        !l.contains('\r'),
        !n.contains('='),
        !n.contains('\n'),
        !v.contains('='),
        !v.contains('\n'),
        v.len() == 0 || v.last() != '\r',
        split(unexported(l), '=')[0] == n,
        split(unexported(l), '=').len() >= 2,
        !(split(l, '=')[0].len() > 0 && split(l, '=')[0][0] == '#'),
    ensures
        replaced_fn(n, v)(l) matches Some(r) && split(r, '=').len() >= 2 && drop_export(split(r, '=')[0]) == n
            && !(split(r, '=')[0].len() > 0 && split(r, '=')[0][0] == '#') && split(r, '=')[1] == maybe_quoted(
            v,
            quoted(split(unexported(l), '=')[1]),
        ),
{
    let parts = split(unexported(l), '=');
    let q = quoted(parts[1]);
    let mq = maybe_quoted(v, q);
    lemma_new_value(v, q);
    if export_word().is_prefix_of(l) {
        lemma_split_export(n, mq);
        let r = export_word() + n + seq!['='] + mq;
        assert(replaced_fn(n, v)(l) == Some(r));
        assert(drop_export(export_word() + n) == n) by {
            assert((export_word() + n).subrange(0, 7) =~= export_word());
            assert((export_word() + n).skip(7) =~= n);
        }
        assert((export_word() + n)[0] == 'e');
    } else {
        assert(unexported(l) == l);
        let r = n + seq!['='] + mq;
        assert(replaced_fn(n, v)(l) == Some(r));
        lemma_split_pair(n, mq, '=');
        lemma_split_nonempty(l, '=');
        crate::text::lemma_split_first_prefix(l, '=');
        assert(!export_word().is_prefix_of(n)) by {
            if export_word().is_prefix_of(n) {
                assert forall|k: int| 0 <= k < 7 implies l[k] == export_word()[k] by {
                    assert(n[k] == l[k]);
                }
                assert(export_word().is_prefix_of(l));
            }
        }
    }
}

/// The environment gives a name the value of the first entry with exactly
/// that name, and nothing where no entry has exactly that name.
pub proof fn law_env_lookup_exact(env: Seq<(Seq<char>, Seq<char>)>, n: Seq<char>)
    ensures
        env_lookup(env, n) matches Some(v) ==> exists|i: int|
            0 <= i < env.len() && #[trigger] env[i] == (n, v) && forall|j: int| 0 <= j < i ==> (#[trigger] env[j]).0 != n,
        env_lookup(env, n) is None <==> forall|i: int| 0 <= i < env.len() ==> (#[trigger] env[i]).0 != n,
    decreases env.len(),
{
    if env.len() > 0 {
        law_env_lookup_exact(env.drop_first(), n);
        let rest = env.drop_first();
        if env[0].0 != n {
            if let Some(v) = env_lookup(env, n) {
                let i = choose|i: int|
                    0 <= i < rest.len() && #[trigger] rest[i] == (n, v) && forall|j: int| 0 <= j < i ==> (#[trigger] rest[j]).0 != n;
                assert(env[i + 1] == rest[i]);
                assert forall|j: int| 0 <= j < i + 1 implies (#[trigger] env[j]).0 != n by {
                    if j > 0 {
                        assert(env[j] == rest[j - 1]);
                    }
                }
            }
            assert((forall|i: int| 0 <= i < rest.len() ==> (#[trigger] rest[i]).0 != n) <==> (forall|i: int|
                0 <= i < env.len() ==> (#[trigger] env[i]).0 != n)) by {
                if forall|i: int| 0 <= i < rest.len() ==> (#[trigger] rest[i]).0 != n {
                    assert forall|i: int| 0 <= i < env.len() implies (#[trigger] env[i]).0 != n by {
                        if i > 0 {
                            assert(env[i] == rest[i - 1]);
                        }
                    }
                }
                if forall|i: int| 0 <= i < env.len() ==> (#[trigger] env[i]).0 != n {
                    assert forall|i: int| 0 <= i < rest.len() implies (#[trigger] rest[i]).0 != n by {
                        assert(env[i + 1] == rest[i]);
                    }
                }
            }
        } else {
            assert(env[0] == (n, env[0].1));
        }
    }
}

/// The lines a removal keeps are those that do not declare the name.
proof fn lemma_kept_filter(ls: Seq<Seq<char>>, n: Seq<char>, in_script: bool, keep: spec_fn(Seq<char>) -> bool)
    requires
        forall|i: int| 0 <= i < ls.len() ==> keep(#[trigger] ls[i]) == !declares(ls[i], n, in_script),
    ensures
        kept_lines(ls, n, in_script) == ls.filter(keep),
    decreases ls.len(),
{
    reveal(Seq::filter);
    if ls.len() > 0 {
        assert forall|i: int| 0 <= i < ls.drop_last().len() implies keep(#[trigger] ls.drop_last()[i])
            == !declares(ls.drop_last()[i], n, in_script) by {
            assert(ls.drop_last()[i] == ls[i]);
        }
        lemma_kept_filter(ls.drop_last(), n, in_script, keep);
        assert(keep(ls[ls.len() - 1]) == !declares(ls[ls.len() - 1], n, in_script));
    }
}

/// A line of a shell script declares `n` for a removal exactly where its
/// text before the first `=` is `export ` and `n`, or is `n` on a line that
/// does not start with `export `.
proof fn lemma_declares_in_script(l: Seq<char>, n: Seq<char>)
    ensures
        declares(l, n, true) == (split(l, '=')[0] == export_word() + n || (split(l, '=')[0] == n
            && !export_word().is_prefix_of(l))),
{
    lemma_split_nonempty(l, '=');
    crate::text::lemma_split_first_prefix(l, '=');
    lemma_first_name(l);
    let first = split(l, '=')[0];
    if export_word().is_prefix_of(l) {
        let a = split(unexported(l), '=')[0];
        if first == export_word() + n {
            assert(a =~= (export_word() + a).skip(7));
            assert(n =~= (export_word() + n).skip(7));
        }
    } else {
        assert(unexported(l) == l);
        if first == export_word() + n {
            assert(export_word().is_prefix_of(l)) by {
                assert forall|k: int| 0 <= k < 7 implies l[k] == export_word()[k] by {
                    assert(first[k] == l[k]);
                }
            }
        }
    }
}

/// Removing `n` from `/etc/environment` drops exactly the lines whose text
/// before the first `=` is `n` (a longer name that starts with `n` stays),
/// and writes every other line back in order, each followed by a line
/// break; where no line has that name, there is nothing to remove.
pub proof fn law_remove_system_lines(c: Seq<char>, n: Seq<char>)
    ensures
        removed_content(c, n, false) == (if exists|i: int|
            0 <= i < lines(c).len() && split(#[trigger] lines(c)[i], '=')[0] == n {
            Some(lines(c).filter(|l: Seq<char>| split(l, '=')[0] != n).flat_map(|l: Seq<char>| l + seq!['\n']))
        } else {
            None
        }),
{
    let ls = lines(c);
    let keep = |l: Seq<char>| split(l, '=')[0] != n;
    lemma_kept_lines(ls, n, false);
    lemma_kept_filter(ls, n, false, keep);
    assert((exists|i: int| 0 <= i < ls.len() && #[trigger] declares(ls[i], n, false)) == (exists|i: int|
        0 <= i < ls.len() && split(#[trigger] ls[i], '=')[0] == n)) by {
        if exists|i: int| 0 <= i < ls.len() && #[trigger] declares(ls[i], n, false) {
            let i = choose|i: int| 0 <= i < ls.len() && #[trigger] declares(ls[i], n, false);
            assert(!keep(ls[i]));
        }
        if exists|i: int| 0 <= i < ls.len() && split(#[trigger] ls[i], '=')[0] == n {
            let i = choose|i: int| 0 <= i < ls.len() && split(#[trigger] ls[i], '=')[0] == n;
            assert(declares(ls[i], n, false));
        }
    }
}

/// Removing `n` from a shell script drops exactly the lines whose text
/// before the first `=` is `export ` and `n`, or `n` on a line without
/// `export ` in front, and writes every other line back in order, each
/// followed by a line break; where no line declares `n`, there is nothing
/// to remove.
pub proof fn law_remove_script_lines(c: Seq<char>, n: Seq<char>)
    ensures
        removed_content(c, n, true) == (if exists|i: int|
            0 <= i < lines(c).len() && (split(#[trigger] lines(c)[i], '=')[0] == export_word() + n || (split(
                lines(c)[i],
                '=',
            )[0] == n && !export_word().is_prefix_of(lines(c)[i]))) {
            Some(
                lines(c).filter(
                    |l: Seq<char>|
                        !(split(l, '=')[0] == export_word() + n || (split(l, '=')[0] == n
                            && !export_word().is_prefix_of(l))),
                ).flat_map(|l: Seq<char>| l + seq!['\n']),
            )
        } else {
            None
        }),
{
    let ls = lines(c);
    let keep = |l: Seq<char>|
        !(split(l, '=')[0] == export_word() + n || (split(l, '=')[0] == n && !export_word().is_prefix_of(l)));
    assert forall|i: int| 0 <= i < ls.len() implies keep(#[trigger] ls[i]) == !declares(ls[i], n, true) by {
        lemma_declares_in_script(ls[i], n);
    }
    lemma_kept_lines(ls, n, true);
    lemma_kept_filter(ls, n, true, keep);
    assert((exists|i: int| 0 <= i < ls.len() && #[trigger] declares(ls[i], n, true)) == (exists|i: int|
        0 <= i < ls.len() && (split(#[trigger] ls[i], '=')[0] == export_word() + n || (split(ls[i], '=')[0] == n
            && !export_word().is_prefix_of(ls[i]))))) by {
        if exists|i: int| 0 <= i < ls.len() && #[trigger] declares(ls[i], n, true) {
            let i = choose|i: int| 0 <= i < ls.len() && #[trigger] declares(ls[i], n, true);
            assert(!keep(ls[i]));
        }
        if exists|i: int| 0 <= i < ls.len() && (split(#[trigger] ls[i], '=')[0] == export_word() + n || (split(
            ls[i],
            '=',
        )[0] == n && !export_word().is_prefix_of(ls[i]))) {
            let i = choose|i: int| 0 <= i < ls.len() && (split(#[trigger] ls[i], '=')[0] == export_word() + n || (split(
                ls[i],
                '=',
            )[0] == n && !export_word().is_prefix_of(ls[i])));
            assert(!keep(ls[i]));
        }
    }
}

/// The text before the first `=` of `NAME=...` is `NAME`, where `NAME`
/// holds no `=`.
proof fn lemma_split_name_first(n: Seq<char>, x: Seq<char>)
    requires
        !n.contains('='),
    ensures
        split(n + seq!['='] + x, '=')[0] == n,
        split(n + seq!['='] + x, '=').len() >= 2,
{
    let s = n + seq!['='] + x;
    lemma_split_nonempty(s, '=');
    crate::text::lemma_split_first_prefix(s, '=');
    let f = split(s, '=')[0];
    assert(s[n.len() as int] == '=');
    if split(s, '=').len() == 1 {
        assert(f == s);
        assert(f.contains('=')) by {
            assert(f[n.len() as int] == '=');
        }
        crate::text::lemma_split_piece_chars(s, '=', 0, '=');
    }
    if f.len() < n.len() {
        assert(n[f.len() as int] == s[f.len() as int]);
    } else if f.len() > n.len() {
        assert(f[n.len() as int] == '=');
        assert(f.contains('='));
        crate::text::lemma_split_piece_chars(s, '=', 0, '=');
    }
    assert(f =~= n) by {
        assert forall|k: int| 0 <= k < n.len() implies f[k] == n[k] by {
            assert(f[k] == s[k]);
        }
    }
}

/// Keeping and dropping elements, where the kept ones that `q` selects
/// are kept as they are and the others are changed into ones that `q` does
/// not select, leaves the selected elements as they were.
proof fn lemma_filter_map_filter<A>(s: Seq<A>, g: spec_fn(A) -> Option<A>, q: spec_fn(A) -> bool)
    requires
        forall|i: int|
            0 <= i < s.len() ==> (q(#[trigger] s[i]) ==> g(s[i]) == Some(s[i])) && (!q(s[i]) ==> (g(s[i]) matches Some(
                r,
            ) ==> !q(r))),
    ensures
        s.filter_map(g).filter(q) == s.filter(q),
    decreases s.len(),
{
    reveal(Seq::filter);
    if s.len() > 0 {
        let init = s.drop_last();
        assert forall|i: int| 0 <= i < init.len() implies (q(#[trigger] init[i]) ==> g(init[i]) == Some(init[i]))
            && (!q(init[i]) ==> (g(init[i]) matches Some(r) ==> !q(r))) by {
            assert(init[i] == s[i]);
        }
        lemma_filter_map_filter(init, g, q);
        lemma_filter_map_push(init, s.last(), g);
        assert(init.push(s.last()) =~= s);
        assert(s[s.len() - 1] == s.last());
        let k = init.filter_map(g);
        match g(s.last()) {
            Some(r) => {
                assert(k + seq![r] =~= k.push(r));
                assert(k.push(r).drop_last() =~= k);
            },
            None => {
                assert(k + Seq::<A>::empty() =~= k);
            },
        }
    }
}

/// Rewriting the file that declares `n` keeps every line that does not
/// declare `n` (its text before the first `=`, after a leading `export `,
/// is not `n`): those lines of the new text are the old ones, in order.
///
/// This holds of files whose lines do not end with a carriage return, for
/// a name without `=` or line breaks and a value without line breaks that
/// does not end with a carriage return.
pub proof fn law_replace_keeps_other_lines(c: Seq<char>, n: Seq<char>, v: Seq<char>)
    requires
        forall|i: int| 0 <= i < lines(c).len() && (#[trigger] lines(c)[i]).len() > 0 ==> lines(c)[i].last() != '\r',
        !n.contains('='),
        !n.contains('\n'),
        !v.contains('\n'),
        v.len() == 0 || v.last() != '\r',
    ensures
        lines(replace_content(c, n, v)).filter(|l: Seq<char>| split(unexported(l), '=')[0] != n) == lines(c).filter(
            |l: Seq<char>| split(unexported(l), '=')[0] != n,
        ),
{
    let ls = lines(c);
    let g = replaced_fn(n, v);
    let q = |l: Seq<char>| split(unexported(l), '=')[0] != n;
    lemma_replaced_lines(ls, n, v);
    let rl = ls.filter_map(g);
    let ok = |r: Seq<char>| !r.contains('\n') && (r.len() > 0 ==> r.last() != '\r');
    assert forall|i: int| 0 <= i < ls.len() implies (q(#[trigger] ls[i]) ==> g(ls[i]) == Some(ls[i])) && (!q(ls[i])
        ==> (g(ls[i]) matches Some(r) ==> !q(r))) && (g(ls[i]) matches Some(r) ==> ok(r)) by {
        let l = ls[i];
        lemma_lines_no_newline(c, i);
        let parts = split(unexported(l), '=');
        if parts[0] == n && parts.len() >= 2 {
            let mq = maybe_quoted(v, quoted(parts[1]));
            assert(!mq.contains('\n')) by {
                if mq.contains('\n') {
                    let k = choose|k: int| 0 <= k < mq.len() && mq[k] == '\n';
                    if quoted(parts[1]) {
                        assert(v[k - 1] == '\n');
                    } else {
                        assert(v[k] == '\n');
                    }
                }
            }
            let exported = export_word().is_prefix_of(l);
            let e = if exported { export_word() } else { Seq::<char>::empty() };
            let r = e + n + seq!['='] + mq;
            assert(g(l) == Some(r));
            lemma_declaration_last(e, n, mq);
            assert(!r.contains('\n')) by {
                if r.contains('\n') {
                    let k = choose|k: int| 0 <= k < r.len() && r[k] == '\n';
                    if e.len() <= k < e.len() + n.len() {
                        assert(n[k - e.len()] == '\n');
                    } else if k > e.len() + n.len() {
                        assert(mq[k - e.len() - n.len() - 1] == '\n');
                    } else if k < e.len() {
                        assert(export_word()[k] == '\n');
                    }
                }
            }
            assert(r.last() != '\r') by {
                if mq.len() > 0 {
                    if quoted(parts[1]) {
                        assert(mq.last() == '"');
                    } else {
                        assert(mq == v);
                    }
                }
            }
            lemma_split_name_first(n, mq);
            if exported {
                assert(export_word().is_prefix_of(r)) by {
                    assert(r.subrange(0, 7) =~= export_word());
                }
                assert(unexported(r) =~= n + seq!['='] + mq);
            } else {
                assert(unexported(l) == l);
                lemma_split_nonempty(l, '=');
                crate::text::lemma_split_first_prefix(l, '=');
                assert(!export_word().is_prefix_of(r)) by {
                    if export_word().is_prefix_of(r) {
                        if n.len() >= 7 {
                            assert(export_word().is_prefix_of(l)) by {
                                assert forall|k: int| 0 <= k < 7 implies l[k] == export_word()[k] by {
                                    assert(r[k] == n[k]);
                                    assert(l[k] == n[k]);
                                }
                            }
                        } else {
                            assert(r[n.len() as int] == '=');
                            assert(r[n.len() as int] == export_word()[n.len() as int]);
                        }
                    }
                }
                assert(r =~= n + seq!['='] + mq);
            }
        }
        if l.len() > 0 {
            assert(l[l.len() - 1] == l.last());
        }
    }
    lemma_filter_map_all(ls, g, ok);
    assert forall|j: int| 0 <= j < rl.len() implies !(#[trigger] rl[j]).contains('\n') && (rl[j].len() > 0
        ==> rl[j].last() != '\r') by {
        assert(ok(rl[j]));
    }
    lemma_lines_written(rl);
    lemma_filter_map_filter(ls, g, q);
}

/// Mapping a sequence with a function that keeps the elements `q` selects
/// and turns the others into ones it does not select leaves the selected
/// elements as they were.
proof fn lemma_map_filter<A>(s: Seq<A>, h: spec_fn(A) -> A, q: spec_fn(A) -> bool)
    requires
        forall|i: int| 0 <= i < s.len() ==> (q(#[trigger] s[i]) ==> h(s[i]) == s[i]) && (!q(s[i]) ==> !q(h(s[i]))),
    ensures
        s.map_values(h).filter(q) == s.filter(q),
    decreases s.len(),
{
    reveal(Seq::filter);
    if s.len() > 0 {
        let init = s.drop_last();
        assert forall|i: int| 0 <= i < init.len() implies (q(#[trigger] init[i]) ==> h(init[i]) == init[i]) && (!q(
            init[i],
        ) ==> !q(h(init[i]))) by {
            assert(init[i] == s[i]);
        }
        lemma_map_filter(init, h, q);
        assert(s.map_values(h).drop_last() =~= init.map_values(h));
        assert(s[s.len() - 1] == s.last());
    }
}

/// Lines written each with a line break, then one more line without one,
/// read back as those lines.
proof fn lemma_lines_written_then(y: Seq<Seq<char>>, d: Seq<char>)
    requires
        forall|j: int| 0 <= j < y.len() ==> !(#[trigger] y[j]).contains('\n') && (y[j].len() > 0 ==> y[j].last() != '\r'),
        d.len() > 0,
        !d.contains('\n'),
        d.last() != '\r',
    ensures
        lines(y.flat_map(|l: Seq<char>| l + seq!['\n']) + d) == y.push(d),
{
    let w = y.flat_map(|l: Seq<char>| l + seq!['\n']);
    lemma_split_terminated(y);
    crate::text::lemma_split_no_sep(d, '\n');
    crate::text::lemma_split_concat(w, d, '\n');
    assert(Seq::<char>::empty() + d =~= d);
    assert(split(w + d, '\n') =~= y.push(d));
    assert(lines(w + d) =~= y.push(d));
}

/// Setting `n` keeps every line whose name (its text before the first `=`,
/// after the seven characters where `export ` stands in a profile script)
/// is not `n`: those lines of the new text are the old ones, in order.
/// Where no line declared `n` with an `=`, a profile script also gets an
/// empty line before the new declaration.
///
/// This holds of files whose lines do not end with a carriage return, for
/// a name that is not empty, without `=` or line breaks, and a value
/// without line breaks.
pub proof fn law_set_keeps_other_lines(c: Seq<char>, n: Seq<char>, v: Seq<char>, in_script: bool)
    requires
        forall|i: int| 0 <= i < lines(c).len() && (#[trigger] lines(c)[i]).len() > 0 ==> lines(c)[i].last() != '\r',
        n.len() > 0,
        !n.contains('='),
        !n.contains('\n'),
        !v.contains('\n'),
    ensures
        lines(set_content(c, n, v, in_script)).filter(|l: Seq<char>| split(assignment_of(l, in_script), '=')[0] != n)
            == lines(c).filter(|l: Seq<char>| split(assignment_of(l, in_script), '=')[0] != n) + (if in_script
            && !(exists|i: int|
            0 <= i < lines(c).len() && split(assignment_of(#[trigger] lines(c)[i], in_script), '=')[0] == n && split(
                assignment_of(lines(c)[i], in_script),
                '=',
            ).len() >= 2) {
            seq![Seq::<char>::empty()]
        } else {
            Seq::<Seq<char>>::empty()
        }),
{
    reveal(Seq::filter);
    let ls = lines(c);
    let p = |l: Seq<char>| split(assignment_of(l, in_script), '=')[0] != n;
    let decl = quoted_declaration(n, v, in_script);
    let q = seq!['"'] + v + seq!['"'];
    let nl = |l: Seq<char>| l + seq!['\n'];
    let h = |l: Seq<char>| if set_previous(l, n, in_script) is Some { decl } else { l };
    let y = ls.map_values(h);
    // The declaration is one line, named `n`.
    assert(!q.contains('\n')) by {
        if q.contains('\n') {
            let k = choose|k: int| 0 <= k < q.len() && q[k] == '\n';
            assert(v[k - 1] == '\n');
        }
    }
    lemma_split_name_first(n, q);
    if in_script {
        assert(decl =~= export_word() + n + seq!['='] + q);
        assert(assignment_of(decl, in_script) =~= n + seq!['='] + q);
    } else {
        assert(decl =~= n + seq!['='] + q);
    }
    assert(!p(decl));
    assert(decl.len() > 0 && decl.last() == '"');
    assert(!decl.contains('\n')) by {
        if decl.contains('\n') {
            let k = choose|k: int| 0 <= k < decl.len() && decl[k] == '\n';
            let e = if in_script { 7int } else { 0int };
            if e <= k < e + n.len() {
                assert(n[k - e] == '\n');
            } else if k > e + n.len() {
                assert(q[k - e - n.len() - 1] == '\n');
            } else if k < e {
                assert(export_word()[k] == '\n');
            }
        }
    }
    assert(ls.map_values(set_line_fn(n, v, in_script)) =~= y.map_values(nl));
    assert forall|j: int| 0 <= j < y.len() implies !(#[trigger] y[j]).contains('\n') && (y[j].len() > 0
        ==> y[j].last() != '\r') by {
        lemma_lines_no_newline(c, j);
        assert(y[j] == h(ls[j]));
    }
    assert forall|i: int| 0 <= i < ls.len() implies (p(#[trigger] ls[i]) ==> h(ls[i]) == ls[i]) && (!p(ls[i])
        ==> !p(h(ls[i]))) by {}
    lemma_map_filter(ls, h, p);
    let has = exists|i: int|
        0 <= i < ls.len() && split(assignment_of(#[trigger] ls[i], in_script), '=')[0] == n && split(
            assignment_of(ls[i], in_script),
            '=',
        ).len() >= 2;
    let g = set_previous_fn(n, in_script);
    if has {
        let i = choose|i: int|
            0 <= i < ls.len() && split(assignment_of(#[trigger] ls[i], in_script), '=')[0] == n && split(
                assignment_of(ls[i], in_script),
                '=',
            ).len() >= 2;
        lemma_filter_map_exists(ls, g, i);
        assert(set_content(c, n, v, in_script) =~= y.flat_map(nl));
        lemma_lines_written(y);
        assert(lines(set_content(c, n, v, in_script)) == y);
        assert(y.filter(p) == ls.filter(p));
        assert(ls.filter(p) + Seq::<Seq<char>>::empty() =~= ls.filter(p));
    } else {
        assert forall|i: int| 0 <= i < ls.len() implies g(#[trigger] ls[i]) is None by {}
        lemma_filter_map_none(ls, g);
        if in_script {
            let e = Seq::<char>::empty();
            y.lemma_flat_map_push(nl, e);
            assert(set_content(c, n, v, in_script) =~= y.push(e).flat_map(nl) + decl);
            assert forall|j: int| 0 <= j < y.push(e).len() implies !(#[trigger] y.push(e)[j]).contains('\n') && (
            y.push(e)[j].len() > 0 ==> y.push(e)[j].last() != '\r') by {
                if j < y.len() {
                    assert(y.push(e)[j] == y[j]);
                }
            }
            lemma_lines_written_then(y.push(e), decl);
            assert(assignment_of(e, in_script) =~= e);
            assert(split(e, '=') =~= seq![e]);
            assert(p(e));
            assert(y.push(e).push(decl).drop_last() =~= y.push(e));
            assert(y.push(e).drop_last() =~= y);
            assert(y.push(e).push(decl).filter(p) == y.push(e).filter(p));
            assert(y.push(e).filter(p) == y.filter(p).push(e));
            assert(ls.filter(p) + seq![e] =~= ls.filter(p).push(e));
        } else {
            assert(set_content(c, n, v, in_script) =~= y.flat_map(nl) + decl);
            lemma_lines_written_then(y, decl);
            assert(y.push(decl).drop_last() =~= y);
            assert(y.push(decl).filter(p) == y.filter(p));
            assert(ls.filter(p) + Seq::<Seq<char>>::empty() =~= ls.filter(p));
        }
    }
}

/// A value that setting `n` reports as replaced is that of a line whose
/// name (as [`law_set_keeps_other_lines`] reads it) is exactly `n`.
pub proof fn law_set_previous_value(c: Seq<char>, n: Seq<char>, in_script: bool, k: int)
    requires
        0 <= k < previous_values(c, n, in_script).len(),
    ensures
        exists|i: int|
            0 <= i < lines(c).len() && split(assignment_of(#[trigger] lines(c)[i], in_script), '=')[0] == n && split(
                assignment_of(lines(c)[i], in_script),
                '=',
            ).len() >= 2 && split(assignment_of(lines(c)[i], in_script), '=')[1] == previous_values(c, n, in_script)[k],
{
    let ls = lines(c);
    lemma_filter_map_found(ls, set_previous_fn(n, in_script), k);
    let i = choose|i: int| 0 <= i < ls.len() && set_previous_fn(n, in_script)(ls[i]) == Some(
        previous_values(c, n, in_script)[k],
    );
    assert(set_previous(ls[i], n, in_script) == Some(previous_values(c, n, in_script)[k]));
}

/// A value that rewriting the file that declares `n` reports as replaced
/// is that of a line whose text before the first `=`, after a leading
/// `export `, is exactly `n`.
pub proof fn law_replaced_value(c: Seq<char>, n: Seq<char>, k: int)
    requires
        0 <= k < replaced_values(c, n).len(),
    ensures
        exists|i: int|
            0 <= i < lines(c).len() && split(unexported(#[trigger] lines(c)[i]), '=')[0] == n && split(
                unexported(lines(c)[i]),
                '=',
            ).len() >= 2 && split(unexported(lines(c)[i]), '=')[1] == replaced_values(c, n)[k],
{
    let ls = lines(c);
    lemma_filter_map_found(ls, replace_previous_fn(n), k);
    let i = choose|i: int| 0 <= i < ls.len() && replace_previous_fn(n)(ls[i]) == Some(replaced_values(c, n)[k]);
    assert(crate::edit::replace_previous(ls[i], n) == Some(replaced_values(c, n)[k]));
}

/// A listing names each variable in the colour of its own scope: blue for
/// system, yellow for user and pink for terminal variables. With colours
/// on, the line of a variable starts with that colour and its name (after
/// the colour and the padded file name, where file names are shown); with
/// colours off, it starts with the name or the file name.
pub proof fn law_listing_colours(vars: Seq<VarView>, o: List, i: int)
    requires
        0 <= i < vars.len(),
    ensures
        ({
            let k = if o.show_columns { i + 1 } else { i };
            let colour = match vars[i].scope {
                Scope::System => fg_rgb_code(124, 171, 230),
                Scope::User => fg_rgb_code(220, 222, 89),
                Scope::Terminal => fg_rgb_code(163, 113, 217),
            };
            let file = fg_rgb_code(116, 184, 164) + vars[i].declared_in + spaces(
                (max_declared_len(vars) - byte_len(vars[i].declared_in)) as nat,
            ) + seq![' '];
            &&& !o.show_declared_in ==> (colour + vars[i].name).is_prefix_of(listing(vars, o, true)[k])
            &&& o.show_declared_in ==> (file + colour + vars[i].name).is_prefix_of(listing(vars, o, true)[k])
            &&& !o.show_declared_in ==> vars[i].name.is_prefix_of(listing(vars, o, false)[k])
            &&& o.show_declared_in ==> vars[i].declared_in.is_prefix_of(listing(vars, o, false)[k])
        }),
{
    let k = if o.show_columns { i + 1 } else { i };
    let colour = match vars[i].scope {
        Scope::System => fg_rgb_code(124, 171, 230),
        Scope::User => fg_rgb_code(220, 222, 89),
        Scope::Terminal => fg_rgb_code(163, 113, 217),
    };
    let file = fg_rgb_code(116, 184, 164) + vars[i].declared_in + spaces(
        (max_declared_len(vars) - byte_len(vars[i].declared_in)) as nat,
    ) + seq![' '];
    let pv = padded(vars[i], max_name_len(vars), max_declared_len(vars), o.show_declared_in);
    assert(listing(vars, o, true)[k] == crate::environment_variable::listing_line(pv, o.show_declared_in, true));
    assert(listing(vars, o, false)[k] == crate::environment_variable::listing_line(pv, o.show_declared_in, false));
    assert(crate::environment_variable::scope_code(vars[i].scope) == colour);
    let on = listing(vars, o, true)[k];
    let off = listing(vars, o, false)[k];
    if o.show_declared_in {
        let pre = file + colour + vars[i].name;
        assert(on.subrange(0, pre.len() as int) =~= pre);
        assert(off.subrange(0, vars[i].declared_in.len() as int) =~= vars[i].declared_in);
    } else {
        let pre = colour + vars[i].name;
        assert(on.subrange(0, pre.len() as int) =~= pre);
        assert(off.subrange(0, vars[i].name.len() as int) =~= vars[i].name);
    }
}

} // verus!
