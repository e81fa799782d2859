//! Exact string replacement with the semantics of `str::matches`,
//! `str::replace` and `str::replacen(.., 1)`: occurrences are found left to
//! right without overlapping; an empty pattern matches before every
//! character and at the end.

use vstd::prelude::*;

use crate::text::{has_prefix, occurs_at, occurs_at_exec, push_char, push_str};

verus! {

/// The number of occurrences of `p` in `s`.
pub open spec fn count_matches(s: Seq<char>, p: Seq<char>) -> nat
    decreases s.len(),
{
    if p.len() == 0 {
        s.len() + 1
    } else if s.len() < p.len() {
        0
    } else if has_prefix(s, p) {
        1 + count_matches(s.skip(p.len() as int), p)
    } else {
        count_matches(s.drop_first(), p)
    }
}

/// `s` with every occurrence of `p` replaced by `r`.
pub open spec fn replace_all(s: Seq<char>, p: Seq<char>, r: Seq<char>) -> Seq<char>
    decreases s.len(),
{
    if p.len() == 0 {
        if s.len() == 0 {
            r
        } else {
            r + seq![s[0]] + replace_all(s.drop_first(), p, r)
        }
    } else if s.len() < p.len() {
        s
    } else if has_prefix(s, p) {
        r + replace_all(s.skip(p.len() as int), p, r)
    } else {
        seq![s[0]] + replace_all(s.drop_first(), p, r)
    }
}

/// `s` with the first occurrence of `p` replaced by `r`.
pub open spec fn replace_first(s: Seq<char>, p: Seq<char>, r: Seq<char>) -> Seq<char>
    decreases s.len(),
{
    if p.len() == 0 {
        r + s
    } else if s.len() < p.len() {
        s
    } else if has_prefix(s, p) {
        r + s.skip(p.len() as int)
    } else {
        seq![s[0]] + replace_first(s.drop_first(), p, r)
    }
}

proof fn lemma_prefix_at(s: Seq<char>, p: Seq<char>, i: int)
    requires
        0 <= i <= s.len(),
    ensures
        has_prefix(s.skip(i), p) == occurs_at(s, p, i),
{
    if i + p.len() <= s.len() {
        assert(s.skip(i).take(p.len() as int) =~= s.subrange(i, i + p.len()));
    }
}

/// The number of occurrences of `p` in `s`.
pub fn count_occurrences(s: &Vec<char>, p: &Vec<char>) -> (res: usize)
    requires
        s.len() < usize::MAX,
    ensures
        res == count_matches(s@, p@),
{
    if p.len() == 0 {
        return s.len() + 1;
    }
    let mut count: usize = 0;
    let mut i: usize = 0;
    assert(s@.skip(0) =~= s@);
    while i < s.len() && p.len() <= s.len() - i
        invariant
            p.len() > 0,
            i <= s.len() < usize::MAX,
            count <= i,
            count_matches(s@, p@) == count + count_matches(s@.skip(i as int), p@),
        decreases s.len() - i,
    {
        proof {
            lemma_prefix_at(s@, p@, i as int);
        }
        if occurs_at_exec(s, p, i) {
            assert(s@.skip(i as int).skip(p.len() as int) =~= s@.skip(i + p.len()));
            count = count + 1;
            i = i + p.len();
        } else {
            assert(s@.skip(i as int).drop_first() =~= s@.skip(i + 1));
            i = i + 1;
        }
    }
    count
}

/// `s` with every occurrence of `p` replaced by `r`.
pub fn replace_all_exec(s: &Vec<char>, p: &Vec<char>, r: &str) -> (res: String)
    ensures
        res@ == replace_all(s@, p@, r@),
{
    let mut out = String::new();
    let mut i: usize = 0;
    assert(s@.skip(0) =~= s@);
    if p.len() == 0 {
        while i < s.len()
            invariant
                p@.len() == 0,
                i <= s.len(),
                replace_all(s@, p@, r@) == out@ + replace_all(s@.skip(i as int), p@, r@),
            decreases s.len() - i,
        {
            assert(s@.skip(i as int).drop_first() =~= s@.skip(i + 1));
            let ghost before = out@;
            push_str(&mut out, r);
            push_char(&mut out, s[i]);
            assert(before + (r@ + seq![s@[i as int]] + replace_all(s@.skip(i + 1), p@, r@))
                =~= out@ + replace_all(s@.skip(i + 1), p@, r@));
            i = i + 1;
        }
        push_str(&mut out, r);
        return out;
    }
    while i < s.len() && p.len() <= s.len() - i
        invariant
            p.len() > 0,
            i <= s.len(),
            replace_all(s@, p@, r@) == out@ + replace_all(s@.skip(i as int), p@, r@),
        decreases s.len() - i,
    {
        proof {
            lemma_prefix_at(s@, p@, i as int);
        }
        let ghost before = out@;
        if occurs_at_exec(s, p, i) {
            assert(s@.skip(i as int).skip(p.len() as int) =~= s@.skip(i + p.len()));
            push_str(&mut out, r);
            assert(before + (r@ + replace_all(s@.skip(i + p.len()), p@, r@)) =~= out@
                + replace_all(s@.skip(i + p.len()), p@, r@));
            i = i + p.len();
        } else {
            assert(s@.skip(i as int).drop_first() =~= s@.skip(i + 1));
            push_char(&mut out, s[i]);
            assert(before + (seq![s@[i as int]] + replace_all(s@.skip(i + 1), p@, r@)) =~= out@
                + replace_all(s@.skip(i + 1), p@, r@));
            i = i + 1;
        }
    }
    // What is left is shorter than the pattern and stays as it is.
    let ghost before = out@;
    let ghost tail = s@.skip(i as int);
    while i < s.len()
        invariant
            i <= s.len(),
            before + tail == out@ + s@.skip(i as int),
        decreases s.len() - i,
    {
        let ghost o = out@;
        push_char(&mut out, s[i]);
        assert(s@.skip(i as int) =~= seq![s@[i as int]] + s@.skip(i + 1));
        assert(o + s@.skip(i as int) =~= out@ + s@.skip(i + 1));
        i = i + 1;
    }
    assert(out@ + s@.skip(i as int) =~= out@);
    out
}

/// `s` with the first occurrence of `p` replaced by `r`.
pub fn replace_first_exec(s: &Vec<char>, p: &Vec<char>, r: &str) -> (res: String)
    ensures
        res@ == replace_first(s@, p@, r@),
{
    let mut out = String::new();
    let mut i: usize = 0;
    assert(s@.skip(0) =~= s@);
    let mut found = false;
    if p.len() == 0 {
        push_str(&mut out, r);
        found = true;
    }
    while !found && i < s.len() && p.len() <= s.len() - i
        invariant
            i <= s.len(),
            !found ==> p.len() > 0,
            found ==> replace_first(s@, p@, r@) == out@ + s@.skip(i as int),
            !found ==> replace_first(s@, p@, r@) == out@ + replace_first(
                s@.skip(i as int),
                p@,
                r@,
            ),
        decreases s.len() - i,
    {
        proof {
            lemma_prefix_at(s@, p@, i as int);
        }
        let ghost before = out@;
        if occurs_at_exec(s, p, i) {
            push_str(&mut out, r);
            i = i + p.len();
            found = true;
            assert(replace_first(s@, p@, r@) == out@ + s@.skip(i as int));
        } else {
            assert(s@.skip(i as int).drop_first() =~= s@.skip(i + 1));
            push_char(&mut out, s[i]);
            assert(before + (seq![s@[i as int]] + replace_first(s@.skip(i + 1), p@, r@)) =~= out@
                + replace_first(s@.skip(i + 1), p@, r@));
            i = i + 1;
        }
    }
    // The rest is copied unchanged.
    proof {
        if !found {
            assert(replace_first(s@.skip(i as int), p@, r@) == s@.skip(i as int));
        }
    }
    let ghost target = replace_first(s@, p@, r@);
    while i < s.len()
        invariant
            i <= s.len(),
            target == out@ + s@.skip(i as int),
        decreases s.len() - i,
    {
        let ghost o = out@;
        push_char(&mut out, s[i]);
        assert(s@.skip(i as int) =~= seq![s@[i as int]] + s@.skip(i + 1));
        assert(o + s@.skip(i as int) =~= out@ + s@.skip(i + 1));
        i = i + 1;
    }
    assert(out@ + s@.skip(i as int) =~= out@);
    out
}

} // verus!
