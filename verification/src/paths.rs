//! Unix path handling as `std::path` does it: components, equality by
//! components, joining, file names and extensions.

use vstd::prelude::*;

use crate::text::{
    lemma_split_len, push_chars, push_str, rfind, slice_chars, split, split_chars, string_of,
};

verus! {

/// The pieces that name something: neither empty (from repeated or
/// trailing separators) nor `.`.
pub open spec fn keep_normal(pieces: Seq<Seq<char>>) -> Seq<Seq<char>>
    decreases pieces.len(),
{
    if pieces.len() == 0 {
        Seq::<Seq<char>>::empty()
    } else {
        let r = keep_normal(pieces.drop_last());
        let l = pieces.last();
        if l.len() > 0 && l != seq!['.'] {
            r.push(l)
        } else {
            r
        }
    }
}

/// Whether the path starts at the root.
pub open spec fn is_absolute(p: Seq<char>) -> bool {
    p.len() > 0 && p[0] == '/'
}

/// The components of a path after the root: a leading `.` of a relative
/// path is kept, other `.` and empty components are dropped.
pub open spec fn path_components(p: Seq<char>) -> Seq<Seq<char>> {
    let pieces = split(p, '/');
    if !is_absolute(p) && pieces[0] == seq!['.'] {
        seq![seq!['.']] + keep_normal(pieces.drop_first())
    } else {
        keep_normal(pieces)
    }
}

/// What two paths must share to be the same path.
pub open spec fn path_key(p: Seq<char>) -> (bool, Seq<Seq<char>>) {
    (is_absolute(p), path_components(p))
}

/// The final component, unless it is `.` or `..` or there is none.
pub open spec fn file_name(p: Seq<char>) -> Option<Seq<char>> {
    let c = path_components(p);
    if c.len() > 0 && c.last() != seq!['.'] && c.last() != seq!['.', '.'] {
        Some(c.last())
    } else {
        None
    }
}

/// The text after the last `.` of a file name, unless the only `.` starts it.
pub open spec fn extension_of(name: Seq<char>) -> Option<Seq<char>> {
    match crate::text::last_occurrence(name, seq!['.']) {
        Some(k) => if k > 0 {
            Some(name.skip(k + 1))
        } else {
            None
        },
        None => None,
    }
}

/// The extension of a path.
pub open spec fn path_extension(p: Seq<char>) -> Option<Seq<char>> {
    match file_name(p) {
        Some(n) => extension_of(n),
        None => None,
    }
}

/// `base` joined with `rel`: `rel` itself when absolute, otherwise `rel`
/// appended after a separator (added only when `base` does not end with one).
pub open spec fn join_path(base: Seq<char>, rel: Seq<char>) -> Seq<char> {
    if is_absolute(rel) {
        rel
    } else if base.len() > 0 && base.last() != '/' {
        base + seq!['/'] + rel
    } else {
        base + rel
    }
}

/// The normal components among `pieces`.
fn keep_normal_exec(pieces: &Vec<Vec<char>>, from: usize) -> (res: Vec<Vec<char>>)
    requires
        from <= pieces.len(),
    ensures
        res@.map_values(|p: Vec<char>| p@) == keep_normal(
            pieces@.map_values(|p: Vec<char>| p@).skip(from as int),
        ),
{
    let ghost all = pieces@.map_values(|p: Vec<char>| p@).skip(from as int);
    let mut res: Vec<Vec<char>> = Vec::new();
    let mut i = from;
    assert(all.take(0) =~= Seq::<Seq<char>>::empty());
    while i < pieces.len()
        invariant
            from <= i <= pieces.len(),
            all == pieces@.map_values(|p: Vec<char>| p@).skip(from as int),
            res@.map_values(|p: Vec<char>| p@) == keep_normal(all.take(i - from)),
        decreases pieces.len() - i,
    {
        assert(all.take(i - from + 1).drop_last() =~= all.take(i - from));
        assert(all.take(i - from + 1).last() == pieces@[i as int]@);
        let p = &pieces[i];
        let is_dot = p.len() == 1 && p[0] == '.';
        proof {
            if p@ == seq!['.'] {
                assert(p@.len() == 1 && p@[0] == '.');
            }
            if is_dot {
                assert(p@ =~= seq!['.']);
            }
        }
        if p.len() > 0 && !is_dot {
            let ghost before = res@.map_values(|q: Vec<char>| q@);
            res.push(p.clone());
            assert(res@.map_values(|q: Vec<char>| q@) =~= before.push(p@));
        }
        i = i + 1;
    }
    assert(all.take(i - from) =~= all);
    res
}

/// The components of a path.
pub fn path_components_exec(p: &Vec<char>) -> (res: Vec<Vec<char>>)
    ensures
        res@.map_values(|q: Vec<char>| q@) == path_components(p@),
{
    let pieces = split_chars(p, '/');
    proof {
        lemma_split_len(p@, '/');
    }
    let ghost sp = pieces@.map_values(|q: Vec<char>| q@);
    assert(sp.skip(0) =~= sp);
    let absolute = p.len() > 0 && p[0] == '/';
    let first_dot = pieces[0].len() == 1 && pieces[0][0] == '.';
    proof {
        if first_dot {
            assert(sp[0] =~= seq!['.']);
        }
        if sp[0] == seq!['.'] {
            assert(sp[0].len() == 1 && sp[0][0] == '.');
        }
    }
    if !absolute && first_dot {
        let rest = keep_normal_exec(&pieces, 1);
        let mut res: Vec<Vec<char>> = Vec::new();
        let dotv: Vec<char> = vec!['.'];
        assert(dotv@ =~= seq!['.']);
        res.push(dotv);
        let ghost r0 = res@.map_values(|q: Vec<char>| q@);
        assert(r0 =~= seq![seq!['.']]);
        let mut i: usize = 0;
        while i < rest.len()
            invariant
                i <= rest.len(),
                res@.map_values(|q: Vec<char>| q@) == r0 + rest@.map_values(|q: Vec<char>| q@).take(
                    i as int,
                ),
            decreases rest.len() - i,
        {
            let ghost before = res@.map_values(|q: Vec<char>| q@);
            res.push(rest[i].clone());
            assert(res@.map_values(|q: Vec<char>| q@) =~= before.push(rest@[i as int]@));
            assert(rest@.map_values(|q: Vec<char>| q@).take(i + 1) =~= rest@.map_values(
                |q: Vec<char>| q@,
            ).take(i as int).push(rest@[i as int]@));
            i = i + 1;
        }
        assert(rest@.map_values(|q: Vec<char>| q@).take(i as int) =~= rest@.map_values(
            |q: Vec<char>| q@,
        ));
        assert(sp.drop_first() =~= sp.skip(1));
        res
    } else {
        keep_normal_exec(&pieces, 0)
    }
}

/// Whether two character sequences are equal.
pub fn chars_eq(a: &Vec<char>, b: &Vec<char>) -> (res: bool)
    ensures
        res == (a@ == b@),
{
    if a.len() != b.len() {
        return false;
    }
    let mut i: usize = 0;
    while i < a.len()
        invariant
            a.len() == b.len(),
            i <= a.len(),
            forall|k: int| 0 <= k < i ==> a@[k] == b@[k],
        decreases a.len() - i,
    {
        if a[i] != b[i] {
            return false;
        }
        i = i + 1;
    }
    assert(a@ =~= b@);
    true
}

/// Whether two paths name the same path (equal component by component).
pub fn same_path(a: &str, b: &str) -> (res: bool)
    ensures
        res == (path_key(a@) == path_key(b@)),
{
    let ac = crate::text::chars_of(a);
    let bc = crate::text::chars_of(b);
    let a_abs = ac.len() > 0 && ac[0] == '/';
    let b_abs = bc.len() > 0 && bc[0] == '/';
    if a_abs != b_abs {
        return false;
    }
    let x = path_components_exec(&ac);
    let y = path_components_exec(&bc);
    let ghost xs = x@.map_values(|q: Vec<char>| q@);
    let ghost ys = y@.map_values(|q: Vec<char>| q@);
    if x.len() != y.len() {
        assert(xs.len() != ys.len());
        return false;
    }
    let mut i: usize = 0;
    while i < x.len()
        invariant
            x.len() == y.len(),
            i <= x.len(),
            xs == x@.map_values(|q: Vec<char>| q@),
            ys == y@.map_values(|q: Vec<char>| q@),
            xs == path_components(a@),
            ys == path_components(b@),
            forall|k: int| 0 <= k < i ==> xs[k] == ys[k],
        decreases x.len() - i,
    {
        if !chars_eq(&x[i], &y[i]) {
            assert(xs[i as int] != ys[i as int]);
            assert(xs != ys);
            assert(path_key(a@).1 != path_key(b@).1);
            return false;
        }
        i = i + 1;
    }
    assert(xs =~= ys);
    true
}

/// Whether a path starts at the root.
pub fn is_absolute_path(p: &str) -> (res: bool)
    ensures
        res == is_absolute(p@),
{
    let c = crate::text::chars_of(p);
    c.len() > 0 && c[0] == '/'
}

/// `base` joined with `rel`, as `Path::join` does.
pub fn join_path_exec(base: &str, rel: &str) -> (res: String)
    ensures
        res@ == join_path(base@, rel@),
{
    if is_absolute_path(rel) {
        return rel.to_owned();
    }
    let b = crate::text::chars_of(base);
    let mut out = string_of(&b);
    if b.len() > 0 && b[b.len() - 1] != '/' {
        crate::text::push_char(&mut out, '/');
    }
    push_str(&mut out, rel);
    out
}

/// The extension of a path, as `Path::extension` gives it.
pub fn path_extension_exec(p: &str) -> (res: Option<String>)
    ensures
        res matches Some(e) ==> path_extension(p@) == Some(e@),
        res is None ==> path_extension(p@) is None,
{
    let c = crate::text::chars_of(p);
    let comps = path_components_exec(&c);
    let ghost cs = comps@.map_values(|q: Vec<char>| q@);
    if comps.len() == 0 {
        return None;
    }
    let last = &comps[comps.len() - 1];
    let is_dot = last.len() == 1 && last[0] == '.';
    let is_dotdot = last.len() == 2 && last[0] == '.' && last[1] == '.';
    proof {
        assert(cs.last() == last@);
        if last@ == seq!['.'] {
            assert(last@.len() == 1 && last@[0] == '.');
        }
        if last@ == seq!['.', '.'] {
            assert(last@.len() == 2 && last@[0] == '.' && last@[1] == '.');
        }
        if is_dot {
            assert(last@ =~= seq!['.']);
        }
        if is_dotdot {
            assert(last@ =~= seq!['.', '.']);
        }
    }
    if is_dot || is_dotdot {
        return None;
    }
    let dot: Vec<char> = vec!['.'];
    assert(dot@ =~= seq!['.']);
    match rfind(last, &dot) {
        Some(k) => {
            if k > 0 {
                let e = slice_chars(last, k + 1, last.len());
                assert(e@ =~= last@.skip(k + 1));
                Some(string_of(&e))
            } else {
                None
            }
        },
        None => None,
    }
}

} // verus!
