//! Character-sequence utilities shared by the parsers and editors.
use vstd::prelude::*;
use vstd::string::*;

verus! {

broadcast use vstd::string::group_string_axioms;

/// The characters of `s`, in order.
pub fn chars_of(s: &str) -> (r: Vec<char>)
    ensures
        r@ == s@,
{
    let mut r: Vec<char> = Vec::new();
    for c in it: s.chars()
        invariant
            it.seq() == s@,
            r@ == it.seq().take(it.index() as int),
    {
        r.push(c);
    }
    r
}

/// Appends one character to a `String` (std's `String::push`).
#[verifier::external_body]
pub(crate) fn push_char(s: &mut String, c: char)
    ensures
        final(s)@ == old(s)@.push(c),
{
    s.push(c);
}

/// A `String` holding exactly the characters of `v`.
pub fn string_of(v: &Vec<char>) -> (r: String)
    ensures
        r@ == v@,
{
    let mut r = String::new();
    let mut i: usize = 0;
    while i < v.len()
        invariant
            i <= v.len(),
            r@ == v@.take(i as int),
        decreases v.len() - i,
    {
        push_char(&mut r, v[i]);
        i = i + 1;
        assert(r@ =~= v@.take(i as int));
    }
    assert(v@.take(v.len() as int) =~= v@);
    r
}

/// The pieces of `s` between the occurrences of `sep`, as `str::split` with a
/// `char` pattern yields them: always at least one piece, empty pieces kept.
pub open spec fn split(s: Seq<char>, sep: char) -> Seq<Seq<char>>
    decreases s.len(),
{
    if s.len() == 0 {
        seq![Seq::<char>::empty()]
    } else {
        let p = split(s.drop_last(), sep);
        if s.last() == sep {
            p.push(Seq::<char>::empty())
        } else {
            p.update(p.len() - 1, p.last().push(s.last()))
        }
    }
}

pub proof fn lemma_split_nonempty(s: Seq<char>, sep: char)
    ensures
        split(s, sep).len() >= 1,
    decreases s.len(),
{
    if s.len() > 0 {
        lemma_split_nonempty(s.drop_last(), sep);
    }
}

/// The character sequences held by a vector of character vectors.
pub open spec fn views(v: Seq<Vec<char>>) -> Seq<Seq<char>> {
    v.map_values(|x: Vec<char>| x@)
}

/// Splits `s` at every `sep`, keeping empty pieces.
pub fn split_chars(s: &Vec<char>, sep: char) -> (r: Vec<Vec<char>>)
    ensures
        views(r@) == split(s@, sep),
{
    let mut done: Vec<Vec<char>> = Vec::new();
    let mut cur: Vec<char> = Vec::new();
    let mut i: usize = 0;
    while i < s.len()
        invariant
            i <= s.len(),
            views(done@).push(cur@) == split(s@.take(i as int), sep),
        decreases s.len() - i,
    {
        let c = s[i];
        proof {
            assert(s@.take(i + 1).drop_last() =~= s@.take(i as int));
            lemma_split_nonempty(s@.take(i as int), sep);
        }
        if c == sep {
            let finished = cur;
            done.push(finished);
            cur = Vec::new();
        } else {
            cur.push(c);
        }
        i = i + 1;
        assert(views(done@).push(cur@) =~= split(s@.take(i as int), sep));
    }
    assert(s@.take(s.len() as int) =~= s@);
    done.push(cur);
    assert(views(done@) =~= split(s@, sep));
    done
}

/// A line without a carriage return that ended it.
pub open spec fn strip_cr(l: Seq<char>) -> Seq<char> {
    if l.len() > 0 && l.last() == '\r' {
        l.drop_last()
    } else {
        l
    }
}

/// The lines of `s`, as `str::lines` yields them: `s` is cut at each `'\n'`,
/// a `'\r'` right before a `'\n'` is dropped with it, and a final empty piece
/// (after a terminating newline, or of an empty `s`) is no line.
pub open spec fn lines(s: Seq<char>) -> Seq<Seq<char>> {
    let p = split(s, '\n');
    let n = if p.last().len() == 0 { p.len() - 1 } else { p.len() as int };
    Seq::new(n as nat, |i: int| if i < p.len() - 1 { strip_cr(p[i]) } else { p[i] })
}

/// The lines of `s` (see [`lines`]).
pub fn lines_of(s: &Vec<char>) -> (r: Vec<Vec<char>>)
    ensures
        views(r@) == lines(s@),
{
    let parts = split_chars(s, '\n');
    proof {
        lemma_split_nonempty(s@, '\n');
    }
    let np = parts.len();
    let n = if parts[np - 1].len() == 0 { np - 1 } else { np };
    let mut r: Vec<Vec<char>> = Vec::new();
    let mut i: usize = 0;
    while i < n
        invariant
            n <= np == parts.len(),
            views(parts@) == split(s@, '\n'),
            i <= n,
            n == (if split(s@, '\n').last().len() == 0 { np - 1 } else { np as int }),
            views(r@) =~= lines(s@).take(i as int),
        decreases n - i,
    {
        let part = &parts[i];
        let mut line: Vec<char> = Vec::new();
        let mut len = part.len();
        if i + 1 < np && len > 0 && part[len - 1] == '\r' {
            len = len - 1;
        }
        let mut j: usize = 0;
        while j < len
            invariant
                len <= part.len(),
                j <= len,
                line@ =~= part@.take(j as int),
            decreases len - j,
        {
            line.push(part[j]);
            j = j + 1;
        }
        assert(views(parts@)[i as int] == part@);
        assert(line@ =~= lines(s@)[i as int]);
        let ghost before = views(r@);
        let ghost l = line@;
        r.push(line);
        assert(views(r@) =~= before.push(l));
        assert(lines(s@).take(i + 1) =~= lines(s@).take(i as int).push(l));
        i = i + 1;
    }
    assert(lines(s@).take(n as int) =~= lines(s@));
    r
}

/// The first piece of `s` cut at `sep`, and the second one if there is one.
pub fn split_first_two(s: &Vec<char>, sep: char) -> (r: (Vec<char>, Option<Vec<char>>))
    ensures
        r.0@ == split(s@, sep)[0],
        r.1 is Some <==> split(s@, sep).len() >= 2,
        r.1 matches Some(v) ==> v@ == split(s@, sep)[1],
{
    let mut parts = split_chars(s, sep);
    proof {
        lemma_split_nonempty(s@, sep);
    }
    let ghost all = views(parts@);
    let first = parts.remove(0);
    assert(views(parts@) =~= all.drop_first());
    if parts.len() > 0 {
        let second = parts.remove(0);
        (first, Some(second))
    } else {
        (first, None)
    }
}

/// Whether `p` is a prefix of `s`.
pub fn has_prefix(s: &Vec<char>, p: &Vec<char>) -> (r: bool)
    ensures
        r == p@.is_prefix_of(s@),
{
    if p.len() > s.len() {
        return false;
    }
    let mut i: usize = 0;
    while i < p.len()
        invariant
            p.len() <= s.len(),
            i <= p.len(),
            forall|k: int| 0 <= k < i ==> s@[k] == p@[k],
        decreases p.len() - i,
    {
        if s[i] != p[i] {
            return false;
        }
        i = i + 1;
    }
    assert(p@ =~= s@.subrange(0, p@.len() as int));
    true
}

/// Whether `a` and `b` hold the same characters.
pub fn same_chars(a: &Vec<char>, b: &Vec<char>) -> (r: bool)
    ensures
        r == (a@ == b@),
{
    if a.len() != b.len() {
        return false;
    }
    let mut i: usize = 0;
    while i < a.len()
        invariant
            a.len() == b.len(),
            i <= a.len(),
            forall|k: int| 0 <= k < i ==> a@[k] == b@[k],
        decreases a.len() - i,
    {
        if a[i] != b[i] {
            return false;
        }
        i = i + 1;
    }
    assert(a@ =~= b@);
    true
}

/// Whether `c` occurs in `s`.
pub fn has_char(s: &Vec<char>, c: char) -> (r: bool)
    ensures
        r == s@.contains(c),
{
    let mut i: usize = 0;
    while i < s.len()
        invariant
            i <= s.len(),
            forall|k: int| 0 <= k < i ==> s@[k] != c,
        decreases s.len() - i,
    {
        if s[i] == c {
            return true;
        }
        i = i + 1;
    }
    false
}

/// `s` without its first `n` characters (empty when `s` is shorter), as
/// `chars().skip(n)` collects it.
pub open spec fn skip_chars(s: Seq<char>, n: int) -> Seq<char> {
    if n <= s.len() {
        s.skip(n)
    } else {
        Seq::<char>::empty()
    }
}

/// The characters of `s` from index `from` up to index `to`.
pub fn slice_chars(s: &Vec<char>, from: usize, to: usize) -> (r: Vec<char>)
    requires
        from <= to <= s.len(),
    ensures
        r@ == s@.subrange(from as int, to as int),
{
    let mut r: Vec<char> = Vec::new();
    let mut i: usize = from;
    while i < to
        invariant
            from <= i <= to <= s.len(),
            r@ =~= s@.subrange(from as int, i as int),
        decreases to - i,
    {
        r.push(s[i]);
        i = i + 1;
    }
    r
}

/// `s` without its first `n` characters (see [`skip_chars`]).
pub fn skip_n(s: &Vec<char>, n: usize) -> (r: Vec<char>)
    ensures
        r@ == skip_chars(s@, n as int),
{
    if n <= s.len() {
        slice_chars(s, n, s.len())
    } else {
        Vec::new()
    }
}

/// Appends the characters of `src` to `dst`.
pub fn push_all(dst: &mut Vec<char>, src: &Vec<char>)
    ensures
        final(dst)@ == old(dst)@ + src@,
{
    let mut i: usize = 0;
    while i < src.len()
        invariant
            i <= src.len(),
            dst@ =~= old(dst)@ + src@.take(i as int),
        decreases src.len() - i,
    {
        dst.push(src[i]);
        i = i + 1;
    }
    assert(src@.take(src.len() as int) =~= src@);
}

/// The length in bytes of the UTF-8 encoding of `s` (what `str::len` returns).
pub open spec fn byte_len(s: Seq<char>) -> nat {
    vstd::utf8::encode_utf8(s).len()
}

/// Encoding a concatenation encodes each part in turn.
pub proof fn lemma_encode_concat(a: Seq<char>, b: Seq<char>)
    ensures
        vstd::utf8::encode_utf8(a + b) == vstd::utf8::encode_utf8(a) + vstd::utf8::encode_utf8(b),
    decreases a.len(),
{
    if a.len() == 0 {
        assert(a + b =~= b);
        assert(vstd::utf8::encode_utf8(a) =~= Seq::<u8>::empty());
        assert(vstd::utf8::encode_utf8(a) + vstd::utf8::encode_utf8(b) =~= vstd::utf8::encode_utf8(b));
    } else {
        lemma_encode_concat(a.drop_first(), b);
        assert((a + b).drop_first() =~= a.drop_first() + b);
        assert((a + b)[0] == a[0]);
        let e0 = vstd::utf8::encode_scalar(a[0] as u32);
        assert(vstd::utf8::encode_utf8(a + b) == e0 + vstd::utf8::encode_utf8((a + b).drop_first()));
        assert(vstd::utf8::encode_utf8(a) == e0 + vstd::utf8::encode_utf8(a.drop_first()));
        assert(e0 + (vstd::utf8::encode_utf8(a.drop_first()) + vstd::utf8::encode_utf8(b))
            =~= (e0 + vstd::utf8::encode_utf8(a.drop_first())) + vstd::utf8::encode_utf8(b));
    }
}

/// One space takes one byte.
pub proof fn lemma_byte_len_push_space(s: Seq<char>)
    ensures
        byte_len(s.push(' ')) == byte_len(s) + 1,
{
    lemma_encode_concat(s, seq![' ']);
    assert(s.push(' ') =~= s + seq![' ']);
    let one = seq![' '];
    assert(one.drop_first() =~= Seq::<char>::empty());
    assert(vstd::utf8::encode_utf8(one.drop_first()) =~= Seq::<u8>::empty());
    assert(vstd::utf8::encode_scalar(' ' as u32).len() == 1);
}

/// `n` spaces.
pub open spec fn spaces(n: nat) -> Seq<char> {
    Seq::new(n, |_i: int| ' ')
}

/// Appends `n` spaces to `s`.
pub fn push_spaces(s: &mut String, n: usize)
    ensures
        final(s)@ == old(s)@ + spaces(n as nat),
        byte_len(final(s)@) == byte_len(old(s)@) + n,
{
    let mut k: usize = 0;
    while k < n
        invariant
            k <= n,
            s@ =~= old(s)@ + spaces(k as nat),
            byte_len(s@) == byte_len(old(s)@) + k,
        decreases n - k,
    {
        proof {
            lemma_byte_len_push_space(s@);
        }
        push_char(s, ' ');
        k = k + 1;
    }
}

/// Characters with the Unicode `White_Space` property (what
/// `char::is_whitespace` tests).
pub open spec fn is_white(c: char) -> bool {
    ||| c == ' ' || c == '\t' || c == '\n' || c == '\u{0B}' || c == '\u{0C}' || c == '\r'
    ||| c == '\u{85}' || c == '\u{A0}' || c == '\u{1680}'
    ||| ('\u{2000}' <= c && c <= '\u{200A}')
    ||| c == '\u{2028}' || c == '\u{2029}' || c == '\u{202F}' || c == '\u{205F}'
    ||| c == '\u{3000}'
}

/// Whether `c` is white space (see [`is_white`]).
pub fn white(c: char) -> (r: bool)
    ensures
        r == is_white(c),
{
    c == ' ' || c == '\t' || c == '\n' || c == '\u{0B}' || c == '\u{0C}' || c == '\r' || c
        == '\u{85}' || c == '\u{A0}' || c == '\u{1680}' || ('\u{2000}' <= c && c <= '\u{200A}')
        || c == '\u{2028}' || c == '\u{2029}' || c == '\u{202F}' || c == '\u{205F}' || c
        == '\u{3000}'
}

/// `s` without its leading white space.
pub open spec fn trim_start(s: Seq<char>) -> Seq<char>
    decreases s.len(),
{
    if s.len() > 0 && is_white(s[0]) {
        trim_start(s.drop_first())
    } else {
        s
    }
}

/// `s` without its trailing white space.
pub open spec fn trim_end(s: Seq<char>) -> Seq<char>
    decreases s.len(),
{
    if s.len() > 0 && is_white(s.last()) {
        trim_end(s.drop_last())
    } else {
        s
    }
}

/// `s` without white space at either end, as `str::trim` returns it.
pub open spec fn trim(s: Seq<char>) -> Seq<char> {
    trim_end(trim_start(s))
}

/// `s` without white space at either end (see [`trim`]).
pub fn trim_chars(s: &Vec<char>) -> (r: Vec<char>)
    ensures
        r@ == trim(s@),
{
    let mut i: usize = 0;
    assert(s@.skip(0) =~= s@);
    while i < s.len() && white(s[i])
        invariant
            i <= s.len(),
            trim_start(s@) == trim_start(s@.skip(i as int)),
        decreases s.len() - i,
    {
        assert(s@.skip(i as int).drop_first() =~= s@.skip(i + 1));
        i = i + 1;
    }
    let ghost start = s@.skip(i as int);
    assert(trim_start(start) == start);
    let mut j: usize = s.len();
    while j > i && white(s[j - 1])
        invariant
            i <= j <= s.len(),
            start == s@.skip(i as int),
            trim_end(start) == trim_end(s@.subrange(i as int, j as int)),
        decreases j,
    {
        assert(s@.subrange(i as int, j as int).drop_last() =~= s@.subrange(i as int, j - 1));
        j = j - 1;
    }
    assert(s@.subrange(i as int, s.len() as int) =~= start);
    slice_chars(s, i, j)
}

/// Whether `"${"` occurs in `s`.
pub open spec fn has_dollar_brace(s: Seq<char>) -> bool {
    exists|i: int| 0 <= i && i + 1 < s.len() && #[trigger] s[i] == '$' && s[i + 1] == '{'
}

/// Whether `"${"` occurs in `s`.
pub fn dollar_brace(s: &Vec<char>) -> (r: bool)
    ensures
        r == has_dollar_brace(s@),
{
    if s.len() < 2 {
        return false;
    }
    let mut i: usize = 0;
    while i + 1 < s.len()
        invariant
            s.len() >= 2,
            i + 1 <= s.len(),
            forall|k: int| 0 <= k < i && k + 1 < s.len() ==> !(#[trigger] s@[k] == '$' && s@[k + 1] == '{'),
        decreases s.len() - i,
    {
        if s[i] == '$' && s[i + 1] == '{' {
            return true;
        }
        i = i + 1;
    }
    false
}

/// Whether `s` starts and ends with a double quote (one quote does both).
pub open spec fn quoted(s: Seq<char>) -> bool {
    s.len() > 0 && s[0] == '"' && s.last() == '"'
}

/// Whether `s` starts and ends with a double quote.
pub fn is_quoted(s: &Vec<char>) -> (r: bool)
    ensures
        r == quoted(s@),
{
    s.len() > 0 && s[0] == '"' && s[s.len() - 1] == '"'
}

/// Whether the first character of `s` is `c`.
pub fn starts_with_char(s: &Vec<char>, c: char) -> (r: bool)
    ensures
        r == (s@.len() > 0 && s@[0] == c),
{
    s.len() > 0 && s[0] == c
}

/// The characters of `export ` (with its space).
pub open spec fn export_word() -> Seq<char> {
    seq!['e', 'x', 'p', 'o', 'r', 't', ' ']
}

/// The characters of `export `.
pub fn export_chars() -> (r: Vec<char>)
    ensures
        r@ == export_word(),
{
    vec!['e', 'x', 'p', 'o', 'r', 't', ' ']
}

/// The characters of `PATH`.
pub open spec fn path_word() -> Seq<char> {
    seq!['P', 'A', 'T', 'H']
}

/// The characters of `PATH`.
pub fn path_chars() -> (r: Vec<char>)
    ensures
        r@ == path_word(),
{
    vec!['P', 'A', 'T', 'H']
}

/// `v` from its second character on, keeping `byte_len(v) - 2` characters at
/// most: `v.chars().skip(1).take(v.len() - 2)`, which removes the enclosing
/// quotes of an ASCII value but only the opening one of a value with wider
/// characters.
pub open spec fn strip_quotes_by_bytes(v: Seq<char>) -> Seq<char> {
    if byte_len(v) - 1 < v.len() {
        v.subrange(1, byte_len(v) - 1)
    } else {
        v.subrange(1, v.len() as int)
    }
}

/// `v` without its quotes (see [`strip_quotes_by_bytes`]).
pub fn strip_quotes(v: &Vec<char>) -> (r: Vec<char>)
    requires
        v@.len() >= 1,
        byte_len(v@) >= 2,
    ensures
        r@ == strip_quotes_by_bytes(v@),
{
    let s = string_of(v);
    let bl = str_byte_len(s.as_str());
    let end = if bl - 1 < v.len() { bl - 1 } else { v.len() };
    slice_chars(v, 1, end)
}

/// The UTF-8 length of `v` in bytes.
pub fn byte_len_of(v: &Vec<char>) -> (r: usize)
    ensures
        r == byte_len(v@),
{
    let s = string_of(v);
    str_byte_len(s.as_str())
}

/// The UTF-8 length of `s` in bytes.
pub fn str_byte_len(s: &str) -> (r: usize)
    ensures
        r == byte_len(s@),
{
    broadcast use vstd::slice::group_slice_axioms;
    s.as_bytes().len()
}

/// Cutting a concatenation: the last piece of `a` and the first piece of
/// `b` join.
pub proof fn lemma_split_concat(a: Seq<char>, b: Seq<char>, sep: char)
    ensures
        split(a + b, sep) == split(a, sep).drop_last() + seq![split(a, sep).last() + split(b, sep)[0]]
            + split(b, sep).drop_first(),
    decreases b.len(),
{
    lemma_split_nonempty(a, sep);
    lemma_split_nonempty(b, sep);
    let sa = split(a, sep);
    if b.len() == 0 {
        assert(a + b =~= a);
        assert(split(b, sep) =~= seq![Seq::<char>::empty()]);
        assert(sa.last() + Seq::<char>::empty() =~= sa.last());
        assert(sa.drop_last() + seq![sa.last()] + Seq::<Seq<char>>::empty() =~= sa);
    } else {
        let b1 = b.drop_last();
        let c = b.last();
        lemma_split_concat(a, b1, sep);
        lemma_split_nonempty(b1, sep);
        assert((a + b).drop_last() =~= a + b1);
        assert((a + b).last() == c);
        let p = split(a + b1, sep);
        let sb1 = split(b1, sep);
        let sb = split(b, sep);
        if c == sep {
            assert(sb =~= sb1.push(Seq::<char>::empty()));
            assert(sb[0] == sb1[0]);
            assert(sb.drop_first() =~= sb1.drop_first().push(Seq::<char>::empty()));
            assert(split(a + b, sep) =~= p.push(Seq::<char>::empty()));
            assert(split(a + b, sep) =~= sa.drop_last() + seq![sa.last() + sb[0]] + sb.drop_first());
        } else {
            assert(sb =~= sb1.update(sb1.len() - 1, sb1.last().push(c)));
            assert(split(a + b, sep) =~= p.update(p.len() - 1, p.last().push(c)));
            if sb1.len() == 1 {
                assert(sb[0] =~= sb1[0].push(c));
                assert(sb.drop_first() =~= Seq::<Seq<char>>::empty());
                assert(sa.last() + sb1[0].push(c) =~= (sa.last() + sb1[0]).push(c));
                assert(split(a + b, sep) =~= sa.drop_last() + seq![sa.last() + sb[0]] + sb.drop_first());
            } else {
                assert(sb[0] == sb1[0]);
                assert(sb.drop_first() =~= sb1.drop_first().update(
                    sb1.drop_first().len() - 1,
                    sb1.drop_first().last().push(c),
                ));
                assert(split(a + b, sep) =~= sa.drop_last() + seq![sa.last() + sb[0]] + sb.drop_first());
            }
        }
    }
}

/// A sequence without the separator is one piece.
pub proof fn lemma_split_no_sep(s: Seq<char>, sep: char)
    requires
        !s.contains(sep),
    ensures
        split(s, sep) == seq![s],
    decreases s.len(),
{
    if s.len() > 0 {
        assert(!s.drop_last().contains(sep)) by {
            if s.drop_last().contains(sep) {
                let k = choose|k: int| 0 <= k < s.drop_last().len() && s.drop_last()[k] == sep;
                assert(s[k] == sep);
            }
        }
        lemma_split_no_sep(s.drop_last(), sep);
        assert(s.last() != sep) by {
            assert(s[s.len() - 1] == s.last());
        }
        assert(s.drop_last().push(s.last()) =~= s);
    } else {
        assert(s =~= Seq::<char>::empty());
    }
}

/// Every character of a piece is a character of the whole.
pub proof fn lemma_split_piece_chars(s: Seq<char>, sep: char, i: int, c: char)
    requires
        0 <= i < split(s, sep).len(),
        split(s, sep)[i].contains(c),
    ensures
        s.contains(c),
        c != sep,
    decreases s.len(),
{
    lemma_split_nonempty(s, sep);
    if s.len() == 0 {
        assert(split(s, sep)[i] =~= Seq::<char>::empty());
    } else {
        let p = split(s.drop_last(), sep);
        lemma_split_nonempty(s.drop_last(), sep);
        let piece = split(s, sep)[i];
        let k = choose|k: int| 0 <= k < piece.len() && piece[k] == c;
        if s.last() == sep {
            assert(i < p.len());
            assert(piece == p[i]);
            lemma_split_piece_chars(s.drop_last(), sep, i, c);
            let j = choose|j: int| 0 <= j < s.drop_last().len() && s.drop_last()[j] == c;
            assert(s[j] == c);
        } else if i < p.len() - 1 {
            assert(piece == p[i]);
            lemma_split_piece_chars(s.drop_last(), sep, i, c);
            let j = choose|j: int| 0 <= j < s.drop_last().len() && s.drop_last()[j] == c;
            assert(s[j] == c);
        } else {
            assert(piece =~= p.last().push(s.last()));
            if k == piece.len() - 1 {
                assert(s[s.len() - 1] == c);
            } else {
                assert(p.last()[k] == c);
                assert(p[p.len() - 1] == p.last());
                lemma_split_piece_chars(s.drop_last(), sep, p.len() - 1, c);
                let j = choose|j: int| 0 <= j < s.drop_last().len() && s.drop_last()[j] == c;
                assert(s[j] == c);
            }
        }
    }
}

/// `NAME=VALUE` with no `=` in either part cuts into the two parts.
pub proof fn lemma_split_pair(a: Seq<char>, b: Seq<char>, sep: char)
    requires
        !a.contains(sep),
        !b.contains(sep),
    ensures
        split(a + seq![sep] + b, sep) == seq![a, b],
{
    lemma_split_no_sep(a, sep);
    lemma_split_no_sep(b, sep);
    let one = seq![sep];
    assert(split(one, sep) =~= seq![Seq::<char>::empty(), Seq::<char>::empty()]) by {
        assert(one.drop_last() =~= Seq::<char>::empty());
        assert(one.last() == sep);
        assert(split(Seq::<char>::empty(), sep) =~= seq![Seq::<char>::empty()]);
    }
    lemma_split_concat(a, one, sep);
    assert(split(a + one, sep) =~= seq![a, Seq::<char>::empty()]) by {
        assert(a + Seq::<char>::empty() =~= a);
    }
    lemma_split_concat(a + one, b, sep);
    assert(Seq::<char>::empty() + b =~= b);
}

/// Lines, each followed by a line break, cut back into the lines and an
/// empty piece.
pub proof fn lemma_split_terminated(ls: Seq<Seq<char>>)
    requires
        forall|i: int| 0 <= i < ls.len() ==> !(#[trigger] ls[i]).contains('\n'),
    ensures
        split(ls.flat_map(|l: Seq<char>| l + seq!['\n']), '\n') == ls.push(Seq::<char>::empty()),
    decreases ls.len(),
{
    let f = |l: Seq<char>| l + seq!['\n'];
    if ls.len() == 0 {
        assert(ls.flat_map(f) =~= Seq::<char>::empty()) by {
            assert(ls.map_values(f) =~= Seq::<Seq<char>>::empty());
        }
        assert(ls.push(Seq::<char>::empty()) =~= seq![Seq::<char>::empty()]);
    } else {
        let init = ls.drop_last();
        let l = ls.last();
        assert forall|i: int| 0 <= i < init.len() implies !(#[trigger] init[i]).contains('\n') by {
            assert(init[i] == ls[i]);
        }
        lemma_split_terminated(init);
        init.lemma_flat_map_push(f, l);
        assert(init.push(l) =~= ls);
        assert(!l.contains('\n')) by {
            assert(ls[ls.len() - 1] == l);
        }
        lemma_split_no_sep(l, '\n');
        lemma_split_concat(l, seq!['\n'], '\n');
        let nl = seq!['\n'];
        assert(split(nl, '\n') =~= seq![Seq::<char>::empty(), Seq::<char>::empty()]) by {
            assert(nl.drop_last() =~= Seq::<char>::empty());
            assert(nl.last() == '\n');
            assert(split(Seq::<char>::empty(), '\n') =~= seq![Seq::<char>::empty()]);
        }
        assert(split(l + nl, '\n') =~= seq![l, Seq::<char>::empty()]) by {
            assert(l + Seq::<char>::empty() =~= l);
        }
        lemma_split_concat(init.flat_map(f), l + nl, '\n');
        assert(Seq::<char>::empty() + l =~= l);
        assert(split(ls.flat_map(f), '\n') =~= ls.push(Seq::<char>::empty()));
    }
}

/// The pieces of a text without carriage returns are its lines, with the
/// empty piece after a final line break.
pub proof fn lemma_lines_of_plain(s: Seq<char>)
    requires
        !s.contains('\r'),
    ensures
        split(s, '\n').last().len() == 0 ==> split(s, '\n') == lines(s).push(Seq::<char>::empty()),
        split(s, '\n').last().len() > 0 ==> split(s, '\n') == lines(s),
        forall|i: int| 0 <= i < lines(s).len() ==> #[trigger] lines(s)[i] == split(s, '\n')[i],
{
    lemma_split_nonempty(s, '\n');
    let p = split(s, '\n');
    assert forall|i: int| 0 <= i < p.len() implies strip_cr(#[trigger] p[i]) == p[i] by {
        if p[i].len() > 0 && p[i].last() == '\r' {
            assert(p[i].contains('\r')) by {
                assert(p[i][p[i].len() - 1] == '\r');
            }
            lemma_split_piece_chars(s, '\n', i, '\r');
        }
    }
    if p.last().len() == 0 {
        assert forall|i: int| 0 <= i < p.len() - 1 implies #[trigger] lines(s)[i] == p[i] by {}
        assert(p.last() =~= Seq::<char>::empty());
        assert(lines(s).len() == p.len() - 1);
        assert(p =~= lines(s).push(Seq::<char>::empty()));
    } else {
        assert(p =~= lines(s));
    }
}

/// The first piece is the text up to the first separator: the whole text
/// where there is no other piece.
pub proof fn lemma_split_first_prefix(s: Seq<char>, sep: char)
    ensures
        split(s, sep)[0].is_prefix_of(s),
        split(s, sep).len() == 1 ==> split(s, sep)[0] == s,
        split(s, sep).len() > 1 ==> split(s, sep)[0].len() < s.len() && s[split(s, sep)[0].len() as int] == sep,
    decreases s.len(),
{
    lemma_split_nonempty(s, sep);
    if s.len() == 0 {
        assert(split(s, sep)[0] =~= s);
    } else {
        let d = s.drop_last();
        lemma_split_first_prefix(d, sep);
        lemma_split_nonempty(d, sep);
        let p = split(d, sep);
        if s.last() == sep {
            assert(split(s, sep)[0] == p[0]);
            if p.len() == 1 {
                assert(s[d.len() as int] == s.last());
            }
        } else {
            if p.len() == 1 {
                assert(split(s, sep)[0] =~= p[0].push(s.last()));
                assert(d.push(s.last()) =~= s);
            } else {
                assert(split(s, sep)[0] == p[0]);
            }
        }
    }
}

} // verus!
