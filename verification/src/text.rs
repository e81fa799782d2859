//! Character-level text utilities shared by the tools: whitespace trimming,
//! splitting, line handling, joining and number rendering.

use vstd::prelude::*;
use vstd::string::*;

verus! {

// ---------------------------------------------------------------------------
// Specifications
// ---------------------------------------------------------------------------

/// Unicode `White_Space` characters (what `char::is_whitespace` accepts).
pub open spec fn is_ws(c: char) -> bool {
    let v = c as u32;
    ||| 0x9 <= v <= 0xD
    ||| v == 0x20
    ||| v == 0x85
    ||| v == 0xA0
    ||| v == 0x1680
    ||| 0x2000 <= v <= 0x200A
    ||| v == 0x2028
    ||| v == 0x2029
    ||| v == 0x202F
    ||| v == 0x205F
    ||| v == 0x3000
}

/// `s` with leading whitespace removed.
pub open spec fn trim_start(s: Seq<char>) -> Seq<char>
    decreases s.len(),
{
    if s.len() > 0 && is_ws(s[0]) {
        trim_start(s.drop_first())
    } else {
        s
    }
}

/// `s` with trailing whitespace removed.
pub open spec fn trim_end(s: Seq<char>) -> Seq<char>
    decreases s.len(),
{
    if s.len() > 0 && is_ws(s.last()) {
        trim_end(s.drop_last())
    } else {
        s
    }
}

/// `s` with leading and trailing whitespace removed.
pub open spec fn trim(s: Seq<char>) -> Seq<char> {
    trim_end(trim_start(s))
}

/// The pieces of `s` between occurrences of `c` (there is always at least one).
pub open spec fn split(s: Seq<char>, c: char) -> Seq<Seq<char>>
    decreases s.len(),
{
    if s.len() == 0 {
        seq![Seq::<char>::empty()]
    } else {
        let r = split(s.drop_last(), c);
        if s.last() == c {
            r.push(Seq::<char>::empty())
        } else {
            r.update(r.len() - 1, r.last().push(s.last()))
        }
    }
}

/// One trailing `'\r'` removed, if present.
pub open spec fn strip_cr(l: Seq<char>) -> Seq<char> {
    if l.len() > 0 && l.last() == '\r' {
        l.drop_last()
    } else {
        l
    }
}

/// The lines of `s`: pieces ended by `"\n"` or `"\r\n"`; a final line ending
/// is optional and an empty text has no lines.
pub open spec fn lines(s: Seq<char>) -> Seq<Seq<char>> {
    let pieces = split(s, '\n');
    let ended = pieces.drop_last().map_values(|p: Seq<char>| strip_cr(p));
    if pieces.last().len() == 0 {
        ended
    } else {
        ended.push(pieces.last())
    }
}

/// The pieces of `s`, each keeping the `'\n'` that ends it; a final piece
/// without a newline is kept when it is not empty.
pub open spec fn split_inclusive_nl(s: Seq<char>) -> Seq<Seq<char>> {
    let pieces = split(s, '\n');
    let ended = pieces.drop_last().map_values(|p: Seq<char>| p.push('\n'));
    if pieces.last().len() == 0 {
        ended
    } else {
        ended.push(pieces.last())
    }
}

/// The parts concatenated with `sep` between neighbours.
pub open spec fn join(parts: Seq<Seq<char>>, sep: Seq<char>) -> Seq<char>
    decreases parts.len(),
{
    if parts.len() == 0 {
        Seq::<char>::empty()
    } else if parts.len() == 1 {
        parts[0]
    } else {
        join(parts.drop_last(), sep) + sep + parts.last()
    }
}

/// The character views of a sequence of strings.
pub open spec fn views(v: Seq<String>) -> Seq<Seq<char>> {
    v.map_values(|s: String| s@)
}

/// Concatenation of all parts.
pub open spec fn concat(parts: Seq<Seq<char>>) -> Seq<char>
    decreases parts.len(),
{
    if parts.len() == 0 {
        Seq::<char>::empty()
    } else {
        concat(parts.drop_last()) + parts.last()
    }
}

/// Whether `p` is a prefix of `s`.
pub open spec fn has_prefix(s: Seq<char>, p: Seq<char>) -> bool {
    p.len() <= s.len() && s.take(p.len() as int) == p
}

/// Whether `p` is a suffix of `s`.
pub open spec fn has_suffix(s: Seq<char>, p: Seq<char>) -> bool {
    p.len() <= s.len() && s.skip(s.len() - p.len()) == p
}

/// Whether `p` occurs in `s` at position `i`.
pub open spec fn occurs_at(s: Seq<char>, p: Seq<char>, i: int) -> bool {
    0 <= i && i + p.len() <= s.len() && s.subrange(i, i + p.len()) == p
}

/// Whether `p` occurs anywhere in `s`.
pub open spec fn contains_seq(s: Seq<char>, p: Seq<char>) -> bool {
    exists|i: int| occurs_at(s, p, i)
}

/// The position of the first `c` in `s`, if any.
pub open spec fn first_index(s: Seq<char>, c: char) -> Option<int>
    decreases s.len(),
{
    if s.len() == 0 {
        None
    } else {
        match first_index(s.drop_last(), c) {
            Some(i) => Some(i),
            None => if s.last() == c {
                Some(s.len() - 1)
            } else {
                None
            },
        }
    }
}

/// The position of the last occurrence of `p` in `s`, if any.
pub open spec fn last_occurrence(s: Seq<char>, p: Seq<char>) -> Option<int> {
    if exists|i: int| occurs_at(s, p, i) {
        Some(choose|i: int| occurs_at(s, p, i) && forall|j: int| occurs_at(s, p, j) ==> j <= i)
    } else {
        None
    }
}

/// The character of a decimal digit.
pub open spec fn digit_char(d: int) -> char {
    (48 + d) as char
}

/// The decimal rendering of `n`.
pub open spec fn dec(n: nat) -> Seq<char>
    decreases n,
{
    if n < 10 {
        seq![digit_char(n as int)]
    } else {
        dec(n / 10).push(digit_char((n % 10) as int))
    }
}

/// The upper-case character of a hexadecimal digit.
pub open spec fn hex_char(d: int) -> char {
    if d < 10 {
        (48 + d) as char
    } else {
        (55 + d) as char
    }
}

/// A 16-bit value in four upper-case hexadecimal digits.
pub open spec fn hex4(v: u16) -> Seq<char> {
    seq![
        hex_char((v / 4096) as int),
        hex_char(((v / 256) % 16) as int),
        hex_char(((v / 16) % 16) as int),
        hex_char((v % 16) as int),
    ]
}

/// The number of bytes of the UTF-8 encoding of `c`.
pub open spec fn utf8_width(c: char) -> nat {
    let v = c as u32;
    if v < 0x80 {
        1
    } else if v < 0x800 {
        2
    } else if v < 0x10000 {
        3
    } else {
        4
    }
}

/// The number of bytes of the UTF-8 encoding of `s`.
pub open spec fn utf8_len(s: Seq<char>) -> nat
    decreases s.len(),
{
    if s.len() == 0 {
        0
    } else {
        utf8_len(s.drop_last()) + utf8_width(s.last())
    }
}

// ---------------------------------------------------------------------------
// Lemmas
// ---------------------------------------------------------------------------

/// The byte length of a concatenation is the sum of the byte lengths.
pub proof fn lemma_utf8_len_add(a: Seq<char>, b: Seq<char>)
    ensures
        utf8_len(a + b) == utf8_len(a) + utf8_len(b),
    decreases b.len(),
{
    if b.len() == 0 {
        assert(a + b =~= a);
    } else {
        lemma_utf8_len_add(a, b.drop_last());
        assert((a + b).drop_last() =~= a + b.drop_last());
    }
}

/// Byte length of a prefix is bounded by the byte length of the whole.
pub proof fn lemma_utf8_len_take(s: Seq<char>, i: int)
    requires
        0 <= i <= s.len(),
    ensures
        utf8_len(s.take(i)) <= utf8_len(s),
        utf8_len(s.take(i)) >= i,
    decreases s.len() - i,
{
    lemma_utf8_len_at_least(s.take(i));
    if i == s.len() {
        assert(s.take(i) =~= s);
    } else {
        lemma_utf8_len_take(s, i + 1);
        assert(s.take(i + 1).drop_last() =~= s.take(i));
    }
}

/// Every character takes at least one byte.
pub proof fn lemma_utf8_len_at_least(s: Seq<char>)
    ensures
        utf8_len(s) >= s.len(),
    decreases s.len(),
{
    if s.len() > 0 {
        lemma_utf8_len_at_least(s.drop_last());
    }
}

/// Joining one more part.
pub proof fn lemma_join_push(parts: Seq<Seq<char>>, sep: Seq<char>, p: Seq<char>)
    ensures
        join(parts.push(p), sep) == if parts.len() == 0 {
            p
        } else {
            join(parts, sep) + sep + p
        },
{
    assert(parts.push(p).drop_last() =~= parts);
}

/// Concatenating one more part.
pub proof fn lemma_concat_push(parts: Seq<Seq<char>>, p: Seq<char>)
    ensures
        concat(parts.push(p)) == concat(parts) + p,
{
    assert(parts.push(p).drop_last() =~= parts);
}

/// `split` of a prefix extended by one character.
pub proof fn lemma_split_step(s: Seq<char>, i: int, c: char)
    requires
        0 <= i < s.len(),
    ensures
        split(s.take(i + 1), c) == if s[i] == c {
            split(s.take(i), c).push(Seq::<char>::empty())
        } else {
            split(s.take(i), c).update(
                split(s.take(i), c).len() - 1,
                split(s.take(i), c).last().push(s[i]),
            )
        },
{
    assert(s.take(i + 1).drop_last() =~= s.take(i));
}

/// `split` always yields at least one piece.
pub proof fn lemma_split_len(s: Seq<char>, c: char)
    ensures
        split(s, c).len() >= 1,
    decreases s.len(),
{
    if s.len() > 0 {
        lemma_split_len(s.drop_last(), c);
    }
}

/// A text without `c` is a single piece.
pub proof fn lemma_split_without(s: Seq<char>, c: char)
    requires
        forall|i: int| 0 <= i < s.len() ==> s[i] != c,
    ensures
        split(s, c) == seq![s],
    decreases s.len(),
{
    if s.len() > 0 {
        lemma_split_without(s.drop_last(), c);
        assert(s.drop_last().push(s.last()) =~= s);
    } else {
        assert(s =~= Seq::<char>::empty());
    }
}

/// Decimal renderings are never empty.
pub proof fn lemma_dec_nonempty(n: nat)
    ensures
        dec(n).len() >= 1,
    decreases n,
{
    if n >= 10 {
        lemma_dec_nonempty(n / 10);
    }
}

// ---------------------------------------------------------------------------
// Executable helpers
// ---------------------------------------------------------------------------

/// Appends one character to a string.
///
/// Trusted: calls `String::push`, which appends the character to the end
/// of the string.
#[verifier::external_body]
pub(crate) fn push_char(s: &mut String, c: char)
    ensures
        final(s)@ == old(s)@.push(c),
{
    s.push(c);
}

/// Appends the characters of `t` to `s`.
pub fn push_str(s: &mut String, t: &str)
    ensures
        final(s)@ == old(s)@ + t@,
{
    s.append(t);
}

/// Appends a character vector to a string.
pub fn push_chars(s: &mut String, t: &Vec<char>)
    ensures
        final(s)@ == old(s)@ + t@,
{
    let ghost s0 = s@;
    let mut i: usize = 0;
    while i < t.len()
        invariant
            i <= t.len(),
            s@ == s0 + t@.take(i as int),
        decreases t.len() - i,
    {
        push_char(s, t[i]);
        assert(t@.take(i + 1) =~= t@.take(i as int).push(t@[i as int]));
        i = i + 1;
    }
    assert(t@.take(t.len() as int) =~= t@);
}

/// A string holding the given characters.
pub fn string_of(t: &Vec<char>) -> (res: String)
    ensures
        res@ == t@,
{
    let mut s = String::new();
    push_chars(&mut s, t);
    assert(Seq::<char>::empty() + t@ =~= t@);
    s
}

/// The characters of a string slice, as a vector.
pub fn chars_of(s: &str) -> (res: Vec<char>)
    ensures
        res@ == s@,
{
    let mut res: Vec<char> = Vec::new();
    for c in it: s.chars()
        invariant
            res@ == it.seq().take(it.index() as int),
            it.seq() == s@,
    {
        res.push(c);
    }
    res
}

/// A copy of the characters `v[from..to]`.
pub fn slice_chars(v: &Vec<char>, from: usize, to: usize) -> (res: Vec<char>)
    requires
        from <= to <= v.len(),
    ensures
        res@ == v@.subrange(from as int, to as int),
{
    let mut res: Vec<char> = Vec::new();
    let mut i = from;
    while i < to
        invariant
            from <= i <= to <= v.len(),
            res@ == v@.subrange(from as int, i as int),
        decreases to - i,
    {
        res.push(v[i]);
        assert(v@.subrange(from as int, i + 1) =~= v@.subrange(from as int, i as int).push(
            v@[i as int],
        ));
        i = i + 1;
    }
    res
}

/// Whether `c` is a Unicode whitespace character.
pub fn is_whitespace(c: char) -> (res: bool)
    ensures
        res == is_ws(c),
{
    let v = c as u32;
    (0x9 <= v && v <= 0xD) || v == 0x20 || v == 0x85 || v == 0xA0 || v == 0x1680 || (0x2000 <= v
        && v <= 0x200A) || v == 0x2028 || v == 0x2029 || v == 0x202F || v == 0x205F || v == 0x3000
}

/// The position where leading whitespace ends.
fn trim_start_index(v: &Vec<char>) -> (i: usize)
    ensures
        i <= v.len(),
        trim_start(v@) == v@.skip(i as int),
{
    let mut i: usize = 0;
    assert(v@.skip(0) =~= v@);
    while i < v.len() && is_whitespace(v[i])
        invariant
            i <= v.len(),
            trim_start(v@) == trim_start(v@.skip(i as int)),
        decreases v.len() - i,
    {
        assert(v@.skip(i as int).drop_first() =~= v@.skip(i + 1));
        i = i + 1;
    }
    i
}

/// The position where trailing whitespace starts, within `v[..limit]`.
fn trim_end_index(v: &Vec<char>, limit: usize) -> (j: usize)
    requires
        limit <= v.len(),
    ensures
        j <= limit,
        trim_end(v@.take(limit as int)) == v@.take(j as int),
{
    let mut j = limit;
    while j > 0 && is_whitespace(v[j - 1])
        invariant
            j <= limit <= v.len(),
            trim_end(v@.take(limit as int)) == trim_end(v@.take(j as int)),
        decreases j,
    {
        assert(v@.take(j as int).drop_last() =~= v@.take(j - 1));
        j = j - 1;
    }
    j
}

/// `v` without leading and trailing whitespace.
pub fn trim_chars(v: &Vec<char>) -> (res: Vec<char>)
    ensures
        res@ == trim(v@),
{
    let i = trim_start_index(v);
    let tail = slice_chars(v, i, v.len());
    assert(tail@ =~= v@.skip(i as int));
    let j = trim_end_index(&tail, tail.len());
    assert(tail@.take(tail.len() as int) =~= tail@);
    slice_chars(&tail, 0, j)
}

/// `v` without trailing whitespace.
pub fn trim_end_chars(v: &Vec<char>) -> (res: Vec<char>)
    ensures
        res@ == trim_end(v@),
{
    let j = trim_end_index(v, v.len());
    assert(v@.take(v.len() as int) =~= v@);
    slice_chars(v, 0, j)
}

/// The pieces of `v` between occurrences of `c`.
pub fn split_chars(v: &Vec<char>, c: char) -> (res: Vec<Vec<char>>)
    ensures
        res@.map_values(|p: Vec<char>| p@) == split(v@, c),
{
    let mut done: Vec<Vec<char>> = Vec::new();
    let mut cur: Vec<char> = Vec::new();
    let mut i: usize = 0;
    assert(v@.take(0) =~= Seq::<char>::empty());
    while i < v.len()
        invariant
            i <= v.len(),
            done@.map_values(|p: Vec<char>| p@).push(cur@) == split(v@.take(i as int), c),
        decreases v.len() - i,
    {
        proof {
            lemma_split_step(v@, i as int, c);
        }
        if v[i] == c {
            let ghost before = done@.map_values(|p: Vec<char>| p@);
            let piece = cur;
            done.push(piece);
            cur = Vec::new();
            assert(done@.map_values(|p: Vec<char>| p@) =~= before.push(piece@));
            assert(done@.map_values(|p: Vec<char>| p@).push(cur@) =~= split(
                v@.take(i + 1),
                c,
            ));
        } else {
            cur.push(v[i]);
            assert(done@.map_values(|p: Vec<char>| p@).push(cur@) =~= split(
                v@.take(i + 1),
                c,
            ));
        }
        i = i + 1;
    }
    assert(v@.take(v.len() as int) =~= v@);
    let ghost before = done@.map_values(|p: Vec<char>| p@);
    done.push(cur);
    assert(done@.map_values(|p: Vec<char>| p@) =~= before.push(cur@));
    done
}

/// One trailing carriage return removed.
pub fn strip_cr_chars(l: Vec<char>) -> (res: Vec<char>)
    ensures
        res@ == strip_cr(l@),
{
    let mut l = l;
    if l.len() > 0 && l[l.len() - 1] == '\r' {
        l.pop();
    }
    l
}

/// The lines of `v` (as `str::lines` yields them).
pub fn lines_of(v: &Vec<char>) -> (res: Vec<Vec<char>>)
    ensures
        res@.map_values(|p: Vec<char>| p@) == lines(v@),
{
    let pieces = split_chars(v, '\n');
    proof {
        lemma_split_len(v@, '\n');
    }
    let ghost sp = split(v@, '\n');
    let n = pieces.len();
    let mut res: Vec<Vec<char>> = Vec::new();
    let mut i: usize = 0;
    while i + 1 < n
        invariant
            n == pieces.len(),
            n >= 1,
            i + 1 <= n,
            pieces@.map_values(|p: Vec<char>| p@) == sp,
            res@.map_values(|p: Vec<char>| p@) == sp.take(i as int).map_values(
                |p: Seq<char>| strip_cr(p),
            ),
        decreases n - i,
    {
        let ghost before = res@.map_values(|p: Vec<char>| p@);
        let line = strip_cr_chars(pieces[i].clone());
        res.push(line);
        assert(res@.map_values(|p: Vec<char>| p@) =~= before.push(line@));
        assert(sp.take(i + 1).map_values(|p: Seq<char>| strip_cr(p)) =~= sp.take(
            i as int,
        ).map_values(|p: Seq<char>| strip_cr(p)).push(strip_cr(sp[i as int])));
        i = i + 1;
    }
    assert(sp.take(i as int) =~= sp.drop_last());
    if pieces[n - 1].len() > 0 {
        let ghost before = res@.map_values(|p: Vec<char>| p@);
        let last = pieces[n - 1].clone();
        res.push(last);
        assert(res@.map_values(|p: Vec<char>| p@) =~= before.push(last@));
    }
    res
}

/// The pieces of `v`, each keeping its ending newline.
pub fn split_inclusive_nl_chars(v: &Vec<char>) -> (res: Vec<Vec<char>>)
    ensures
        res@.map_values(|p: Vec<char>| p@) == split_inclusive_nl(v@),
{
    let pieces = split_chars(v, '\n');
    proof {
        lemma_split_len(v@, '\n');
    }
    let ghost sp = split(v@, '\n');
    let n = pieces.len();
    let mut res: Vec<Vec<char>> = Vec::new();
    let mut i: usize = 0;
    while i + 1 < n
        invariant
            n == pieces.len(),
            n >= 1,
            i + 1 <= n,
            pieces@.map_values(|p: Vec<char>| p@) == sp,
            res@.map_values(|p: Vec<char>| p@) == sp.take(i as int).map_values(
                |p: Seq<char>| p.push('\n'),
            ),
        decreases n - i,
    {
        let ghost before = res@.map_values(|p: Vec<char>| p@);
        let mut line = pieces[i].clone();
        line.push('\n');
        res.push(line);
        assert(res@.map_values(|p: Vec<char>| p@) =~= before.push(line@));
        assert(sp.take(i + 1).map_values(|p: Seq<char>| p.push('\n')) =~= sp.take(
            i as int,
        ).map_values(|p: Seq<char>| p.push('\n')).push(sp[i as int].push('\n')));
        i = i + 1;
    }
    assert(sp.take(i as int) =~= sp.drop_last());
    if pieces[n - 1].len() > 0 {
        let ghost before = res@.map_values(|p: Vec<char>| p@);
        let last = pieces[n - 1].clone();
        res.push(last);
        assert(res@.map_values(|p: Vec<char>| p@) =~= before.push(last@));
    }
    res
}

/// The parts `parts[from..to]` joined with `sep`.
pub fn join_range(parts: &Vec<Vec<char>>, from: usize, to: usize, sep: &Vec<char>) -> (res: Vec<
    char,
>)
    requires
        from <= to <= parts.len(),
    ensures
        res@ == join(
            parts@.map_values(|p: Vec<char>| p@).subrange(from as int, to as int),
            sep@,
        ),
{
    let ghost all = parts@.map_values(|p: Vec<char>| p@);
    let mut res: Vec<char> = Vec::new();
    let mut i = from;
    while i < to
        invariant
            from <= i <= to <= parts.len(),
            all == parts@.map_values(|p: Vec<char>| p@),
            res@ == join(all.subrange(from as int, i as int), sep@),
        decreases to - i,
    {
        proof {
            lemma_join_push(all.subrange(from as int, i as int), sep@, all[i as int]);
            assert(all.subrange(from as int, i + 1) =~= all.subrange(from as int, i as int).push(
                all[i as int],
            ));
        }
        if i > from {
            res.extend_from_slice(sep.as_slice());
        }
        res.extend_from_slice(parts[i].as_slice());
        i = i + 1;
    }
    res
}

/// All strings joined with `sep`.
pub fn join_strings(parts: &Vec<String>, sep: &str) -> (res: String)
    ensures
        res@ == join(views(parts@), sep@),
{
    let mut res = String::new();
    let mut i: usize = 0;
    while i < parts.len()
        invariant
            i <= parts.len(),
            res@ == join(views(parts@).take(i as int), sep@),
        decreases parts.len() - i,
    {
        proof {
            lemma_join_push(views(parts@).take(i as int), sep@, parts@[i as int]@);
            assert(views(parts@).take(i + 1) =~= views(parts@).take(i as int).push(
                parts@[i as int]@,
            ));
        }
        if i > 0 {
            push_str(&mut res, sep);
        }
        push_str(&mut res, parts[i].as_str());
        i = i + 1;
    }
    assert(views(parts@).take(parts.len() as int) =~= views(parts@));
    res
}

/// Whether `p` is a prefix of `s`.
pub fn starts_with(s: &Vec<char>, p: &Vec<char>) -> (res: bool)
    ensures
        res == has_prefix(s@, p@),
{
    if p.len() > s.len() {
        return false;
    }
    let mut i: usize = 0;
    while i < p.len()
        invariant
            p.len() <= s.len(),
            i <= p.len(),
            forall|k: int| 0 <= k < i ==> s@[k] == p@[k],
        decreases p.len() - i,
    {
        if s[i] != p[i] {
            assert(s@.take(p.len() as int)[i as int] != p@[i as int]);
            return false;
        }
        i = i + 1;
    }
    assert(s@.take(p.len() as int) =~= p@);
    true
}

/// Whether `p` occurs in `s` at position `at`.
pub fn occurs_at_exec(s: &Vec<char>, p: &Vec<char>, at: usize) -> (res: bool)
    ensures
        res == occurs_at(s@, p@, at as int),
{
    if at > s.len() || p.len() > s.len() - at {
        return false;
    }
    let mut i: usize = 0;
    while i < p.len()
        invariant
            at + p.len() <= s.len(),
            i <= p.len(),
            forall|k: int| 0 <= k < i ==> s@[at + k] == p@[k],
        decreases p.len() - i,
    {
        if s[at + i] != p[i] {
            assert(s@.subrange(at as int, at + p.len())[i as int] != p@[i as int]);
            return false;
        }
        i = i + 1;
    }
    assert(s@.subrange(at as int, at + p.len()) =~= p@);
    true
}

/// Whether `p` is a suffix of `s`.
pub fn ends_with(s: &Vec<char>, p: &Vec<char>) -> (res: bool)
    ensures
        res == has_suffix(s@, p@),
{
    if p.len() > s.len() {
        return false;
    }
    let r = occurs_at_exec(s, p, s.len() - p.len());
    assert(s@.subrange(s.len() - p.len(), s.len() as int) =~= s@.skip(s.len() - p.len()));
    r
}

/// Whether `c` occurs in `s`.
pub fn contains_char(s: &Vec<char>, c: char) -> (res: bool)
    ensures
        res == s@.contains(c),
{
    let mut i: usize = 0;
    while i < s.len()
        invariant
            i <= s.len(),
            forall|k: int| 0 <= k < i ==> s@[k] != c,
        decreases s.len() - i,
    {
        if s[i] == c {
            return true;
        }
        i = i + 1;
    }
    false
}

/// The position of the first `c` in `s`.
pub fn find_char(s: &Vec<char>, c: char) -> (res: Option<usize>)
    ensures
        res matches Some(i) ==> first_index(s@, c) == Some(i as int),
        res is None ==> first_index(s@, c) is None,
        res matches Some(i) ==> i < s.len() && s@[i as int] == c && forall|k: int|
            0 <= k < i ==> s@[k] != c,
        res is None ==> forall|k: int| 0 <= k < s.len() ==> s@[k] != c,
{
    let mut i: usize = 0;
    while i < s.len()
        invariant
            i <= s.len(),
            forall|k: int| 0 <= k < i ==> s@[k] != c,
            first_index(s@.take(i as int), c) is None,
        decreases s.len() - i,
    {
        assert(s@.take(i + 1).drop_last() =~= s@.take(i as int));
        if s[i] == c {
            proof {
                lemma_first_index_prefix(s@, i as int + 1, c);
            }
            return Some(i);
        }
        i = i + 1;
    }
    assert(s@.take(i as int) =~= s@);
    None
}

/// `first_index` of a text agrees with that of any prefix that already
/// holds an occurrence.
pub proof fn lemma_first_index_prefix(s: Seq<char>, k: int, c: char)
    requires
        0 <= k <= s.len(),
        first_index(s.take(k), c) is Some,
    ensures
        first_index(s, c) == first_index(s.take(k), c),
    decreases s.len() - k,
{
    if k < s.len() {
        assert(s.take(k + 1).drop_last() =~= s.take(k));
        lemma_first_index_prefix(s, k + 1, c);
    } else {
        assert(s.take(k) =~= s);
    }
}

/// The position of the last occurrence of `p` in `s`.
pub fn rfind(s: &Vec<char>, p: &Vec<char>) -> (res: Option<usize>)
    ensures
        res matches Some(i) ==> last_occurrence(s@, p@) == Some(i as int),
        res matches Some(i) ==> occurs_at(s@, p@, i as int),
        res is None ==> last_occurrence(s@, p@) is None,
{
    if p.len() > s.len() {
        assert forall|j: int| !occurs_at(s@, p@, j) by {}
        return None;
    }
    let mut i: usize = s.len() - p.len();
    loop
        invariant
            p.len() <= s.len(),
            i <= s.len() - p.len(),
            forall|k: int| i < k ==> !occurs_at(s@, p@, k),
        decreases i,
    {
        if occurs_at_exec(s, p, i) {
            let ghost w = i as int;
            assert(occurs_at(s@, p@, w) && forall|j: int| occurs_at(s@, p@, j) ==> j <= w);
            return Some(i);
        }
        if i == 0 {
            return None;
        }
        i = i - 1;
    }
}

/// The character of a decimal digit.
pub fn digit(d: u8) -> (c: char)
    requires
        d < 10,
    ensures
        c == digit_char(d as int),
{
    (48u8 + d) as char
}

/// The decimal rendering of `n`.
pub fn decimal(n: u128) -> (res: String)
    ensures
        res@ == dec(n as nat),
    decreases n,
{
    if n < 10 {
        let mut s = String::new();
        push_char(&mut s, digit(n as u8));
        assert(s@ =~= seq![digit_char(n as int)]);
        s
    } else {
        let mut s = decimal(n / 10);
        push_char(&mut s, digit((n % 10) as u8));
        s
    }
}

/// The character of an upper-case hexadecimal digit.
pub fn hex_digit(d: u16) -> (c: char)
    requires
        d < 16,
    ensures
        c == hex_char(d as int),
{
    if d < 10 {
        ((48 + d) as u8) as char
    } else {
        ((55 + d) as u8) as char
    }
}

/// A 16-bit value in four upper-case hexadecimal digits.
pub fn hex4_string(v: u16) -> (res: String)
    ensures
        res@ == hex4(v),
{
    let mut s = String::new();
    push_char(&mut s, hex_digit(v / 4096));
    push_char(&mut s, hex_digit((v / 256) % 16));
    push_char(&mut s, hex_digit((v / 16) % 16));
    push_char(&mut s, hex_digit(v % 16));
    assert(s@ =~= hex4(v));
    s
}

/// The number of bytes of the UTF-8 encoding of `c`.
pub fn char_utf8_width(c: char) -> (res: usize)
    ensures
        res == utf8_width(c),
{
    let v = c as u32;
    if v < 0x80 {
        1
    } else if v < 0x800 {
        2
    } else if v < 0x10000 {
        3
    } else {
        4
    }
}

/// The number of bytes of the UTF-8 encoding of `s`.
///
/// Trusted: calls `str::len`, which returns the length of the string in
/// bytes, i.e. of its UTF-8 encoding; like every Rust value in memory, a
/// string holds at most `isize::MAX` bytes.
#[verifier::external_body]
pub(crate) fn byte_len(s: &str) -> (res: usize)
    ensures
        res == utf8_len(s@),
        res <= isize::MAX,
{
    s.len()
}

/// Whether two strings hold the same characters.
pub fn str_eq(a: &str, b: &str) -> (res: bool)
    ensures
        res == (a@ == b@),
{
    let ac = chars_of(a);
    let bc = chars_of(b);
    crate::paths::chars_eq(&ac, &bc)
}

/// Whether `s` begins with `p`.
pub fn str_starts_with(s: &str, p: &str) -> (res: bool)
    ensures
        res == has_prefix(s@, p@),
{
    let sc = chars_of(s);
    let pc = chars_of(p);
    starts_with(&sc, &pc)
}

/// Whether `s` ends with `p`.
pub fn str_ends_with(s: &str, p: &str) -> (res: bool)
    ensures
        res == has_suffix(s@, p@),
{
    let sc = chars_of(s);
    let pc = chars_of(p);
    ends_with(&sc, &pc)
}

} // verus!
