//! What Glob makes of the files it found: newest first, then by name, at
//! most one hundred of them.

use vstd::prelude::*;
use vstd::relations::{sorted_by, total_ordering};

use crate::order::{
    lemma_text_le_antisymmetric, lemma_text_le_reflexive, lemma_text_le_total,
    lemma_text_le_transitive, text_le, text_le_exec,
};
use crate::schema::GlobOutput;
use crate::text::{chars_of, views};

verus! {

/// The most file names Glob returns.
pub const GLOB_LIMIT: usize = 100;

/// A file Glob found: its path, and when it was last modified (nanoseconds
/// from the Unix epoch) when that is known.
#[derive(Debug, Clone)]
pub struct GlobEntry {
    pub path: String,
    pub modified: Option<i128>,
}

/// A found file as values.
pub open spec fn entry_view(e: GlobEntry) -> (Seq<char>, Option<i128>) {
    (e.path@, e.modified)
}

/// Found files as values.
pub open spec fn entry_views(v: Seq<GlobEntry>) -> Seq<(Seq<char>, Option<i128>)> {
    v.map_values(|e: GlobEntry| entry_view(e))
}

/// Whether time `a` is later than time `b`, an unknown time being earliest.
pub open spec fn later(a: Option<i128>, b: Option<i128>) -> bool {
    match (a, b) {
        (Some(x), Some(y)) => x > y,
        (Some(_), None) => true,
        _ => false,
    }
}

/// The order of found files: later modification first, then by path.
pub open spec fn glob_le(a: (Seq<char>, Option<i128>), b: (Seq<char>, Option<i128>)) -> bool {
    later(a.1, b.1) || (a.1 == b.1 && text_le(a.0, b.0))
}

/// `glob_le` as a relation.
pub open spec fn glob_order() -> spec_fn((Seq<char>, Option<i128>), (Seq<char>, Option<i128>)) -> bool {
    |a: (Seq<char>, Option<i128>), b: (Seq<char>, Option<i128>)| glob_le(a, b)
}

/// The order of found files is a total order.
pub proof fn lemma_glob_order_total()
    ensures
        total_ordering(glob_order()),
{
    let le = glob_order();
    assert forall|a: (Seq<char>, Option<i128>)| #[trigger] le(a, a) by {
        lemma_text_le_reflexive(a.0);
    }
    assert forall|a: (Seq<char>, Option<i128>), b: (Seq<char>, Option<i128>)|
        #[trigger] le(a, b) && #[trigger] le(b, a) implies a == b by {
        lemma_text_le_antisymmetric(a.0, b.0);
    }
    assert forall|
        a: (Seq<char>, Option<i128>),
        b: (Seq<char>, Option<i128>),
        c: (Seq<char>, Option<i128>),
    | #[trigger] le(a, b) && #[trigger] le(b, c) implies le(a, c) by {
        if a.1 == b.1 && b.1 == c.1 {
            lemma_text_le_transitive(a.0, b.0, c.0);
        }
    }
    assert forall|a: (Seq<char>, Option<i128>), b: (Seq<char>, Option<i128>)| #[trigger]
        le(a, b) || le(b, a) by {
        lemma_text_le_total(a.0, b.0);
    }
    assert(vstd::relations::reflexive(le));
    assert(vstd::relations::antisymmetric(le));
    assert(vstd::relations::transitive(le));
    assert(vstd::relations::strongly_connected(le));
}

/// Whether found file `a` comes no later than `b`.
fn glob_le_exec(a: &GlobEntry, b: &GlobEntry) -> (res: bool)
    ensures
        res == glob_le(entry_view(*a), entry_view(*b)),
{
    let same_time = match (a.modified, b.modified) {
        (Some(x), Some(y)) => x == y,
        (None, None) => true,
        _ => false,
    };
    let a_later = match (a.modified, b.modified) {
        (Some(x), Some(y)) => x > y,
        (Some(_), None) => true,
        _ => false,
    };
    if a_later {
        true
    } else if same_time {
        let ac = chars_of(a.path.as_str());
        let bc = chars_of(b.path.as_str());
        text_le_exec(&ac, &bc)
    } else {
        false
    }
}

/// The found files in Glob's order.
pub open spec fn glob_sorted(entries: Seq<GlobEntry>) -> Seq<(Seq<char>, Option<i128>)> {
    entry_views(entries).sort_by(glob_order())
}

/// What Glob returns for the files found: how many there are, and the
/// paths of the first hundred in its order.
pub open spec fn glob_result(entries: Seq<GlobEntry>) -> (nat, Seq<Seq<char>>) {
    let sorted = glob_sorted(entries);
    let shown = if sorted.len() > GLOB_LIMIT {
        sorted.take(GLOB_LIMIT as int)
    } else {
        sorted
    };
    (entries.len(), shown.map_values(|e: (Seq<char>, Option<i128>)| e.0))
}

/// The found files sorted (see `glob_sorted`).
pub fn sort_glob_entries(entries: Vec<GlobEntry>) -> (res: Vec<GlobEntry>)
    ensures
        entry_views(res@) == glob_sorted(entries@),
{
    let ghost all = entry_views(entries@);
    let mut out: Vec<GlobEntry> = Vec::new();
    let mut i: usize = 0;
    proof {
        lemma_glob_order_total();
        assert(entry_views(out@) =~= all.take(0));
    }
    while i < entries.len()
        invariant
            i <= entries.len(),
            all == entry_views(entries@),
            total_ordering(glob_order()),
            sorted_by(entry_views(out@), glob_order()),
            entry_views(out@).to_multiset() == all.take(i as int).to_multiset(),
        decreases entries.len() - i,
    {
        let e = GlobEntry { path: entries[i].path.clone(), modified: entries[i].modified };
        let ghost ev = entry_view(entries@[i as int]);
        assert(entry_view(e) == ev);
        let mut p: usize = 0;
        while p < out.len() && glob_le_exec(&out[p], &e)
            invariant
                p <= out.len(),
                entry_view(e) == ev,
                forall|j: int| 0 <= j < p ==> glob_le(#[trigger] entry_views(out@)[j], ev),
            decreases out.len() - p,
        {
            p = p + 1;
        }
        let ghost before = entry_views(out@);
        proof {
            assert forall|j: int| p <= j < before.len() implies glob_le(ev, #[trigger] before[j]) by {
                let le = glob_order();
                if j == p {
                    assert(le(before[j], ev) || le(ev, before[j]));
                } else {
                    assert(le(before[p as int], before[j]));
                    assert(le(before[p as int], ev) || le(ev, before[p as int]));
                    assert(le(ev, before[p as int]));
                }
            }
        }
        out.insert(p, e);
        proof {
            let after = entry_views(out@);
            assert(after =~= before.insert(p as int, ev));
            let le = glob_order();
            assert forall|a: int, b: int| 0 <= a < b < after.len() implies #[trigger] le(
                after[a],
                after[b],
            ) by {
                if b < p {
                    assert(le(before[a], before[b]));
                } else if a < p && b == p {
                } else if a < p {
                    assert(le(before[a], before[b - 1]));
                } else if a == p {
                } else {
                    assert(le(before[a - 1], before[b - 1]));
                }
            }
            vstd::seq_lib::to_multiset_insert(before, p as int, ev);
            assert(all.take(i + 1) =~= all.take(i as int).push(all[i as int]));
            vstd::seq_lib::to_multiset_build(all.take(i as int), all[i as int]);
        }
        i = i + 1;
    }
    proof {
        assert(all.take(i as int) =~= all);
        all.lemma_sort_by_ensures(glob_order());
        vstd::seq_lib::lemma_sorted_unique(entry_views(out@), all.sort_by(glob_order()), glob_order());
    }
    out
}

/// What Glob returns for the files found (see `glob_result`).
pub fn glob_output(entries: Vec<GlobEntry>) -> (res: GlobOutput)
    ensures
        (res.num_files as nat, views(res.filenames@)) == glob_result(entries@),
{
    let total = entries.len();
    let ghost e0 = entries@;
    let sorted = sort_glob_entries(entries);
    let ghost sv = entry_views(sorted@);
    let shown = if sorted.len() > GLOB_LIMIT {
        GLOB_LIMIT
    } else {
        sorted.len()
    };
    let mut filenames: Vec<String> = Vec::new();
    let mut i: usize = 0;
    proof {
        lemma_glob_order_total();
        let ev = entry_views(e0);
        ev.lemma_sort_by_ensures(glob_order());
        vstd::seq_lib::to_multiset_len(ev);
        vstd::seq_lib::to_multiset_len(ev.sort_by(glob_order()));
        assert(sv.len() == e0.len());
    }
    while i < shown
        invariant
            i <= shown <= sorted.len(),
            sv == entry_views(sorted@),
            views(filenames@) == sv.take(i as int).map_values(|e: (Seq<char>, Option<i128>)| e.0),
        decreases shown - i,
    {
        let ghost before = views(filenames@);
        filenames.push(sorted[i].path.clone());
        proof {
            assert(views(filenames@) =~= before.push(sv[i as int].0));
            assert(sv.take(i + 1).map_values(|e: (Seq<char>, Option<i128>)| e.0) =~= sv.take(
                i as int,
            ).map_values(|e: (Seq<char>, Option<i128>)| e.0).push(sv[i as int].0));
        }
        i = i + 1;
    }
    proof {
        let r = glob_result(e0);
        if sv.len() > GLOB_LIMIT {
            assert(views(filenames@) =~= r.1);
        } else {
            assert(sv.take(i as int) =~= sv);
            assert(views(filenames@) =~= r.1);
        }
    }
    GlobOutput { num_files: total, filenames }
}

} // verus!
