//! What Grep makes of a search: the files with matches and their counts,
//! the rendered lines, and the windowed result for each output mode.

use vstd::prelude::*;

use crate::file_service::{decode_utf8_lossy, utf8_lossy};
use crate::order::{lemma_text_le_total, text_le_exec, text_lt};
use crate::schema::{GrepInput, GrepOutput, GrepOutputMode};
use crate::text::{chars_of, dec, decimal, first_index, join, push_str, split, split_chars, views};

verus! {

// ---------------------------------------------------------------------------
// Options
// ---------------------------------------------------------------------------

/// Lines of context on one side: the side's own setting, else `context`,
/// else its alias, else none; only in content mode.
pub open spec fn context_lines(
    mode: GrepOutputMode,
    side: Option<usize>,
    context: Option<usize>,
    alias: Option<usize>,
) -> nat {
    if mode != GrepOutputMode::Content {
        0
    } else {
        match side {
            Some(n) => n as nat,
            None => match context {
                Some(n) => n as nat,
                None => match alias {
                    Some(n) => n as nat,
                    None => 0,
                },
            },
        }
    }
}

/// How a search runs, as decided from the request.
#[derive(Debug, Clone, Copy)]
pub struct GrepPlan {
    /// Lines of context before each match.
    pub before: usize,
    /// Lines of context after each match.
    pub after: usize,
    /// Whether rendered lines carry line numbers.
    pub include_line_numbers: bool,
    /// Whether matching lines are collected.
    pub collect_content: bool,
    /// Whether the pattern ignores case.
    pub case_insensitive: bool,
    /// Entries skipped from the start of the result.
    pub offset: usize,
    /// Most entries kept (0 keeps all).
    pub limit: usize,
}

/// How a search runs: context only in content mode, line numbers in content
/// mode unless turned off, no skipping or limit unless asked.
pub fn grep_plan(input: &GrepInput) -> (res: GrepPlan)
    ensures
        res.before == context_lines(input.output_mode, input.before, input.context, input.context_alias),
        res.after == context_lines(input.output_mode, input.after, input.context, input.context_alias),
        res.collect_content == (input.output_mode == GrepOutputMode::Content),
        res.include_line_numbers == (input.output_mode == GrepOutputMode::Content && match input.line_numbers {
            Some(b) => b,
            None => true,
        }),
        res.case_insensitive == match input.case_insensitive {
            Some(b) => b,
            None => false,
        },
        res.offset == match input.offset {
            Some(n) => n,
            None => 0,
        },
        res.limit == match input.head_limit {
            Some(n) => n,
            None => 0,
        },
{
    let content = match input.output_mode {
        GrepOutputMode::Content => true,
        _ => false,
    };
    let pick = |side: Option<usize>| -> (r: usize)
        ensures
            content ==> r == match side {
                Some(n) => n,
                None => match input.context {
                    Some(n) => n,
                    None => match input.context_alias {
                        Some(n) => n,
                        None => 0,
                    },
                },
            },
            !content ==> r == 0,
        {
            if !content {
                0
            } else {
                match side {
                    Some(n) => n,
                    None => match input.context {
                        Some(n) => n,
                        None => match input.context_alias {
                            Some(n) => n,
                            None => 0,
                        },
                    },
                }
            }
        };
    let before = pick(input.before);
    let after = pick(input.after);
    GrepPlan {
        before,
        after,
        include_line_numbers: content && match input.line_numbers {
            Some(b) => b,
            None => true,
        },
        collect_content: content,
        case_insensitive: match input.case_insensitive {
            Some(b) => b,
            None => false,
        },
        offset: match input.offset {
            Some(n) => n,
            None => 0,
        },
        limit: match input.head_limit {
            Some(n) => n,
            None => 0,
        },
    }
}

// ---------------------------------------------------------------------------
// Collected results
// ---------------------------------------------------------------------------

/// One rendered line of content output and the file it comes from.
#[derive(Debug, Clone)]
pub struct GrepRenderedLine {
    pub path: String,
    pub text: String,
}

/// The sum of some counts.
pub open spec fn sum(s: Seq<usize>) -> nat
    decreases s.len(),
{
    if s.len() == 0 {
        0
    } else {
        sum(s.drop_last()) + (s.last() as nat)
    }
}

proof fn lemma_sum_bound(s: Seq<usize>, i: int)
    requires
        0 <= i < s.len(),
    ensures
        s[i] <= sum(s),
    decreases s.len(),
{
    if i < s.len() - 1 {
        lemma_sum_bound(s.drop_last(), i);
    }
}

proof fn lemma_sum_update(s: Seq<usize>, i: int, v: usize)
    requires
        0 <= i < s.len(),
    ensures
        sum(s.update(i, v)) == sum(s) - s[i] + v,
    decreases s.len(),
{
    if i < s.len() - 1 {
        assert(s.update(i, v).drop_last() =~= s.drop_last().update(i, v));
        lemma_sum_update(s.drop_last(), i, v);
    } else {
        assert(s.update(i, v).drop_last() =~= s.drop_last());
    }
}

/// What a search found: the files with matches in the order found, the
/// matches in each, the rendered lines, and the total number of matches.
#[derive(Debug)]
pub struct GrepSearchResult {
    matched_files: Vec<String>,
    match_counts: Vec<usize>,
    content_lines: Vec<GrepRenderedLine>,
    total_matches: usize,
}

/// A rendered line as values: its file and its text.
pub open spec fn line_view(l: GrepRenderedLine) -> (Seq<char>, Seq<char>) {
    (l.path@, l.text@)
}

/// Rendered lines as values.
pub open spec fn line_views(v: Seq<GrepRenderedLine>) -> Seq<(Seq<char>, Seq<char>)> {
    v.map_values(|l: GrepRenderedLine| line_view(l))
}

/// Where `path` stands among `files`.
pub open spec fn position_of(files: Seq<Seq<char>>, path: Seq<char>) -> Option<int> {
    if files.contains(path) {
        Some(files.index_of(path))
    } else {
        None
    }
}

/// `files` and `counts` after `count` matches in `path`: a new file is added
/// with that count, a known one has it added to its count.
pub open spec fn recorded(files: Seq<Seq<char>>, counts: Seq<usize>, path: Seq<char>, count: nat) -> (
    Seq<Seq<char>>,
    Seq<nat>,
) {
    let cs = counts.map_values(|c: usize| c as nat);
    match position_of(files, path) {
        Some(i) => (files, cs.update(i, cs[i] + count)),
        None => (files.push(path), cs.push(count)),
    }
}

/// Where `s` stands in `v`, if anywhere.
fn position_in(v: &Vec<String>, s: &str) -> (res: Option<usize>)
    ensures
        res matches Some(i) ==> i < v.len() && views(v@)[i as int] == s@,
        res is None ==> forall|j: int| 0 <= j < v.len() ==> #[trigger] views(v@)[j] != s@,
{
    let mut i: usize = 0;
    while i < v.len()
        invariant
            i <= v.len(),
            forall|j: int| 0 <= j < i ==> #[trigger] views(v@)[j] != s@,
        decreases v.len() - i,
    {
        if crate::text::str_eq(v[i].as_str(), s) {
            return Some(i);
        }
        i = i + 1;
    }
    None
}

impl GrepSearchResult {
    /// The files with matches, in the order found.
    pub closed spec fn files(&self) -> Seq<Seq<char>> {
        views(self.matched_files@)
    }

    /// The number of matches in each file of `files`.
    pub closed spec fn counts(&self) -> Seq<usize> {
        self.match_counts@
    }

    /// The rendered lines.
    pub closed spec fn lines(&self) -> Seq<(Seq<char>, Seq<char>)> {
        line_views(self.content_lines@)
    }

    /// The total number of matches.
    pub closed spec fn total(&self) -> nat {
        self.total_matches as nat
    }

    /// Each file once, one count per file, and the total their sum.
    pub closed spec fn wf(&self) -> bool {
        &&& self.matched_files.len() == self.match_counts.len()
        &&& self.files().no_duplicates()
        &&& self.total() == sum(self.match_counts@)
    }

    /// What well-formedness says: each file once, one count per file, and
    /// the total their sum.
    pub proof fn lemma_wf(&self)
        requires
            self.wf(),
        ensures
            self.files().len() == self.counts().len(),
            self.files().no_duplicates(),
            self.total() == sum(self.counts()),
    {
    }

    /// Nothing found yet.
    pub fn new() -> (res: Self)
        ensures
            res.wf(),
            res.files() == Seq::<Seq<char>>::empty(),
            res.counts() == Seq::<usize>::empty(),
            res.lines() == Seq::<(Seq<char>, Seq<char>)>::empty(),
            res.total() == 0,
    {
        let res = GrepSearchResult {
            matched_files: Vec::new(),
            match_counts: Vec::new(),
            content_lines: Vec::new(),
            total_matches: 0,
        };
        assert(res.files() =~= Seq::<Seq<char>>::empty());
        assert(res.lines() =~= Seq::<(Seq<char>, Seq<char>)>::empty());
        res
    }

    /// The total number of matches.
    pub fn total_matches(&self) -> (res: usize)
        ensures
            res == self.total(),
    {
        self.total_matches
    }

    /// Adds `count` matches in `path` (see `recorded`).
    pub fn record_match(&mut self, path: &str, count: usize)
        requires
            old(self).wf(),
            old(self).total() + count <= usize::MAX,
        ensures
            final(self).wf(),
            (final(self).files(), final(self).counts().map_values(|c: usize| c as nat)) == recorded(
                old(self).files(),
                old(self).counts(),
                path@,
                count as nat,
            ),
            final(self).lines() == old(self).lines(),
            final(self).total() == old(self).total() + count,
    {
        let ghost files0 = self.files();
        let ghost counts0 = self.match_counts@;
        let found = position_in(&self.matched_files, path);
        let i: usize = match found {
            Some(j) => j,
            None => self.matched_files.len(),
        };
        if i < self.matched_files.len() {
            proof {
                assert(files0[i as int] == path@);
                assert(files0.contains(path@));
                files0.index_of_first_ensures(path@);
                assert(files0.index_of(path@) == i) by {
                    let k = files0.index_of(path@);
                    assert(files0[k] == path@);
                    assert(files0.no_duplicates());
                }
                lemma_sum_bound(counts0, i as int);
            }
            let c = self.match_counts[i];
            self.match_counts.set(i, c + count);
            proof {
                lemma_sum_update(counts0, i as int, (c + count) as usize);
                assert(self.counts().map_values(|c: usize| c as nat) =~= recorded(
                    files0,
                    counts0,
                    path@,
                    count as nat,
                ).1);
            }
        } else {
            self.matched_files.push(path.to_owned());
            self.match_counts.push(count);
            proof {
                assert(!files0.contains(path@)) by {
                    if files0.contains(path@) {
                        let k = choose|k: int| 0 <= k < files0.len() && files0[k] == path@;
                        assert(files0[k] != path@);
                    }
                }
                assert(self.files() =~= files0.push(path@));
                assert(self.match_counts@.drop_last() =~= counts0);
                assert(self.counts().map_values(|c: usize| c as nat) =~= recorded(
                    files0,
                    counts0,
                    path@,
                    count as nat,
                ).1);
                assert forall|a: int, b: int|
                    0 <= a < self.files().len() && 0 <= b < self.files().len() && a != b implies self.files()[a]
                    != self.files()[b] by {
                    if a < files0.len() && b < files0.len() {
                        assert(files0.no_duplicates());
                    }
                }
            }
        }
        self.total_matches = self.total_matches + count;
    }
}

// ---------------------------------------------------------------------------
// Rendered lines
// ---------------------------------------------------------------------------

/// Whether a piece is not empty.
pub open spec fn nonempty() -> spec_fn(Seq<char>) -> bool {
    |p: Seq<char>| p.len() > 0
}

/// The non-empty pieces of `text` between newlines.
pub open spec fn segments(text: Seq<char>) -> Seq<Seq<char>> {
    split(text, '\n').filter(nonempty())
}

/// The lines rendered for the text of a match or of its context: each
/// non-empty line as `path:text`, or `path:number:text` with numbers
/// counting from the given line (1 when unknown).
pub open spec fn rendered_lines(
    path: Seq<char>,
    text: Seq<char>,
    line_number: Option<usize>,
    numbered: bool,
) -> Seq<(Seq<char>, Seq<char>)> {
    let base: nat = match line_number {
        Some(n) => n as nat,
        None => 1,
    };
    let segs = segments(text);
    Seq::new(
        segs.len(),
        |k: int|
            (
                path,
                if numbered {
                    path + ":"@ + dec((base + k) as nat) + ":"@ + segs[k]
                } else {
                    path + ":"@ + segs[k]
                },
            ),
    )
}

/// A line number that fits in a `usize`, or none.
pub fn to_usize_line_number(line_number: Option<u64>) -> (res: Option<usize>)
    ensures
        res == match line_number {
            Some(n) => if n <= usize::MAX {
                Some(n as usize)
            } else {
                None
            },
            None => None,
        },
{
    match line_number {
        Some(n) => if n as u128 <= usize::MAX as u128 {
            Some(n as usize)
        } else {
            None
        },
        None => None,
    }
}

/// Appends the rendered lines of `text` (see `rendered_lines`).
pub fn extend_rendered_lines(
    rendered: &mut Vec<GrepRenderedLine>,
    path: &str,
    text: &str,
    line_number: Option<usize>,
    include_line_numbers: bool,
)
    ensures
        line_views(final(rendered)@) == line_views(old(rendered)@) + rendered_lines(
            path@,
            text@,
            line_number,
            include_line_numbers,
        ),
{
    let ghost r0 = line_views(old(rendered)@);
    let base: u128 = match line_number {
        Some(n) => n as u128,
        None => 1,
    };
    let cs = chars_of(text);
    let pieces = split_chars(&cs, '\n');
    let ghost pv = pieces@.map_values(|p: Vec<char>| p@);
    let ghost segs = segments(text@);
    let ghost want = rendered_lines(path@, text@, line_number, include_line_numbers);
    let mut index: u128 = 0;
    let mut i: usize = 0;
    proof {
        assert(pv.take(0).filter(nonempty()) =~= Seq::<Seq<char>>::empty()) by {
            reveal(Seq::filter);
        }
    }
    while i < pieces.len()
        invariant
            i <= pieces.len(),
            pv == pieces@.map_values(|p: Vec<char>| p@),
            pv == split(text@, '\n'),
            segs == pv.filter(nonempty()),
            index == pv.take(i as int).filter(nonempty()).len(),
            index <= i,
            base == match line_number {
                Some(n) => n as nat,
                None => 1nat,
            },
            want == rendered_lines(path@, text@, line_number, include_line_numbers),
            line_views(rendered@) == r0 + want.take(index as int),
        decreases pieces.len() - i,
    {
        proof {
            reveal(Seq::filter);
            assert(pv.take(i + 1).drop_last() =~= pv.take(i as int));
            lemma_filter_prefix(pv, i as int);
        }
        if pieces[i].len() > 0 {
            let mut line = String::new();
            push_str(&mut line, path);
            push_str(&mut line, ":");
            if include_line_numbers {
                let n = decimal(base + index);
                push_str(&mut line, n.as_str());
                push_str(&mut line, ":");
            }
            let seg = crate::text::string_of(&pieces[i]);
            push_str(&mut line, seg.as_str());
            let ghost before = line_views(rendered@);
            rendered.push(GrepRenderedLine { path: path.to_owned(), text: line });
            proof {
                let k = index as int;
                assert(k < segs.len());
                assert(segs[k] == pv[i as int]);
                assert(want.len() == segs.len());
                assert(line@ =~= want[k].1);
                assert(want[k].0 == path@);
                assert(want.take(k + 1) =~= want.take(k).push(want[k]));
                assert(line_views(rendered@) =~= before.push(want[k]));
                assert(line_views(rendered@) =~= r0 + want.take(k + 1));
            }
            index = index + 1;
        }
        i = i + 1;
    }
    proof {
        assert(pv.take(i as int) =~= pv);
        assert(want.take(index as int) =~= want);
    }
}

/// The non-empty pieces of a prefix, and where the next piece lands.
proof fn lemma_filter_prefix(pv: Seq<Seq<char>>, i: int)
    requires
        0 <= i < pv.len(),
    ensures
        pv.take(i + 1).filter(nonempty()) == if pv[i].len() > 0 {
            pv.take(i).filter(nonempty()).push(pv[i])
        } else {
            pv.take(i).filter(nonempty())
        },
        pv.take(i).filter(nonempty()).len() <= i,
        pv[i].len() > 0 ==> pv.filter(nonempty())[pv.take(i).filter(nonempty()).len() as int] == pv[i]
            && pv.take(i).filter(nonempty()).len() < pv.filter(nonempty()).len(),
{
    reveal(Seq::filter);
    assert(pv.take(i + 1).drop_last() =~= pv.take(i));
    let pred = nonempty();
    pv.take(i).lemma_filter_len(pred);
    if pv[i].len() > 0 {
        assert(pv =~= pv.take(i + 1) + pv.skip(i + 1));
        Seq::filter_distributes_over_add(pv.take(i + 1), pv.skip(i + 1), pred);
    }
}

impl GrepSearchResult {
    /// What a search does with a matching stretch of `path`: counts its
    /// matches (at least one), and in content mode renders its lines.
    pub fn record_sink_match(
        &mut self,
        path: &str,
        match_count: usize,
        bytes: &[u8],
        line_number: Option<u64>,
        include_line_numbers: bool,
        collect_content: bool,
    )
        requires
            old(self).wf(),
            old(self).total() + if match_count > 0 {
                match_count as nat
            } else {
                1
            } <= usize::MAX,
        ensures
            final(self).wf(),
            (final(self).files(), final(self).counts().map_values(|c: usize| c as nat)) == recorded(
                old(self).files(),
                old(self).counts(),
                path@,
                if match_count > 0 {
                    match_count as nat
                } else {
                    1
                },
            ),
            final(self).total() == old(self).total() + if match_count > 0 {
                match_count as nat
            } else {
                1
            },
            final(self).lines() == if collect_content {
                old(self).lines() + rendered_lines(
                    path@,
                    utf8_lossy(bytes@),
                    to_line(line_number),
                    include_line_numbers,
                )
            } else {
                old(self).lines()
            },
    {
        let count = if match_count > 0 {
            match_count
        } else {
            1
        };
        self.record_match(path, count);
        if collect_content {
            self.record_context(path, bytes, line_number, include_line_numbers);
        }
    }

    /// What a search does with a stretch of context around a match: renders
    /// its lines.
    pub fn record_context(
        &mut self,
        path: &str,
        bytes: &[u8],
        line_number: Option<u64>,
        include_line_numbers: bool,
    )
        requires
            old(self).wf(),
        ensures
            final(self).wf(),
            final(self).files() == old(self).files(),
            final(self).counts() == old(self).counts(),
            final(self).total() == old(self).total(),
            final(self).lines() == old(self).lines() + rendered_lines(
                path@,
                utf8_lossy(bytes@),
                to_line(line_number),
                include_line_numbers,
            ),
    {
        let text = decode_utf8_lossy(bytes);
        let n = to_usize_line_number(line_number);
        extend_rendered_lines(
            &mut self.content_lines,
            path,
            text.as_str(),
            n,
            include_line_numbers,
        );
    }
}

/// A line number as a `usize`, when it fits.
pub open spec fn to_line(line_number: Option<u64>) -> Option<usize> {
    match line_number {
        Some(n) => if n <= usize::MAX {
            Some(n as usize)
        } else {
            None
        },
        None => None,
    }
}

// ---------------------------------------------------------------------------
// Windows and output
// ---------------------------------------------------------------------------

/// The entries after the first `offset`, at most `limit` of them (all when
/// `limit` is 0).
pub open spec fn window<T>(entries: Seq<T>, offset: nat, limit: nat) -> Seq<T> {
    let rest = if offset >= entries.len() {
        Seq::<T>::empty()
    } else {
        entries.skip(offset as int)
    };
    if limit == 0 || limit >= rest.len() {
        rest
    } else {
        rest.take(limit as int)
    }
}

/// The bounds of a window over `len` entries.
pub fn window_bounds(len: usize, offset: usize, limit: usize) -> (res: (usize, usize))
    ensures
        res.0 <= res.1 <= len,
        forall|s: Seq<int>|
            s.len() == len ==> #[trigger] window(s, offset as nat, limit as nat) == s.subrange(
                res.0 as int,
                res.1 as int,
            ),
{
    let start = if offset < len {
        offset
    } else {
        len
    };
    let end = if limit == 0 || limit >= len - start {
        len
    } else {
        start + limit
    };
    assert forall|s: Seq<int>| s.len() == len implies #[trigger] window(
        s,
        offset as nat,
        limit as nat,
    ) == s.subrange(start as int, end as int) by {
        assert(window(s, offset as nat, limit as nat) =~= s.subrange(start as int, end as int));
    }
    (start, end)
}

/// The strings `v[from..to]`.
fn copy_strings(v: &Vec<String>, from: usize, to: usize) -> (res: Vec<String>)
    requires
        from <= to <= v.len(),
    ensures
        views(res@) == views(v@).subrange(from as int, to as int),
{
    let mut res: Vec<String> = Vec::new();
    let mut i = from;
    while i < to
        invariant
            from <= i <= to <= v.len(),
            views(res@) == views(v@).subrange(from as int, i as int),
        decreases to - i,
    {
        let ghost before = views(res@);
        res.push(v[i].clone());
        assert(views(res@) =~= before.push(v@[i as int]@));
        assert(views(v@).subrange(from as int, i + 1) =~= views(v@).subrange(from as int, i as int).push(
            v@[i as int]@,
        ));
        i = i + 1;
    }
    res
}

/// The window over some strings.
fn window_strings(v: &Vec<String>, offset: usize, limit: usize) -> (res: Vec<String>)
    ensures
        views(res@) == window(views(v@), offset as nat, limit as nat),
{
    let (start, end) = if offset < v.len() {
        (offset, if limit == 0 || limit >= v.len() - offset {
            v.len()
        } else {
            offset + limit
        })
    } else {
        (v.len(), v.len())
    };
    let res = copy_strings(v, start, end);
    assert(views(res@) =~= window(views(v@), offset as nat, limit as nat));
    res
}

/// The count entry of a file: `path:count`.
pub open spec fn count_entry(path: Seq<char>, count: nat) -> Seq<char> {
    path + ":"@ + dec(count)
}

/// The text before the first `:`, when there is one.
pub open spec fn before_colon(s: Seq<char>) -> Option<Seq<char>> {
    match first_index(s, ':') {
        Some(i) => Some(s.take(i)),
        None => None,
    }
}

/// The names that count entries give back: the text before each entry's
/// first `:`.
pub open spec fn entry_names(entries: Seq<Seq<char>>) -> Seq<Seq<char>>
    decreases entries.len(),
{
    if entries.len() == 0 {
        Seq::<Seq<char>>::empty()
    } else {
        let r = entry_names(entries.drop_last());
        match before_colon(entries.last()) {
            Some(p) => r.push(p),
            None => r,
        }
    }
}

/// Whether `s` ascends strictly in the order of `str`.
pub open spec fn strictly_ascending(s: Seq<Seq<char>>) -> bool {
    forall|i: int, j: int| 0 <= i < j < s.len() ==> text_lt(#[trigger] s[i], #[trigger] s[j])
}

/// What Grep returns, as values: the file names, the number of files, the
/// content, and the number of matches.
pub open spec fn output_view(o: GrepOutput) -> (Seq<Seq<char>>, nat, Option<Seq<char>>, Option<nat>) {
    (
        views(o.filenames@),
        o.num_files as nat,
        match o.content {
            Some(c) => Some(c@),
            None => None,
        },
        match o.num_matches {
            Some(n) => Some(n as nat),
            None => None,
        },
    )
}

/// Where `x` goes in an ascending list, and whether it is there already.
fn ascending_slot(v: &Vec<String>, x: &String) -> (res: (usize, bool))
    ensures
        res.0 <= v.len(),
        forall|j: int| 0 <= j < res.0 ==> text_lt(#[trigger] views(v@)[j], x@),
        res.1 ==> res.0 < v.len() && views(v@)[res.0 as int] == x@,
        !res.1 ==> res.0 == v.len() || !crate::order::text_le(views(v@)[res.0 as int], x@),
{
    let xc = chars_of(x.as_str());
    let mut p: usize = 0;
    while p < v.len()
        invariant
            p <= v.len(),
            xc@ == x@,
            forall|j: int| 0 <= j < p ==> text_lt(#[trigger] views(v@)[j], x@),
        decreases v.len() - p,
    {
        let vc = chars_of(v[p].as_str());
        assert(vc@ == views(v@)[p as int]);
        if !text_le_exec(&vc, &xc) {
            return (p, false);
        }
        if crate::paths::chars_eq(&vc, &xc) {
            return (p, true);
        }
        p = p + 1;
    }
    (p, false)
}

/// Inserts `x` into an ascending list without repeats.
fn insert_sorted_unique(v: &mut Vec<String>, x: &String)
    requires
        strictly_ascending(views(old(v)@)),
    ensures
        strictly_ascending(views(final(v)@)),
        views(final(v)@).to_set() == views(old(v)@).to_set().insert(x@),
{
    let ghost v0 = views(v@);
    let (p, present) = ascending_slot(v, x);
    if present {
        proof {
            assert(v0.contains(x@)) by {
                assert(v0[p as int] == x@);
            }
            assert(v0.to_set().insert(x@) =~= v0.to_set());
        }
        return;
    }
    proof {
        assert forall|j: int| p <= j < v0.len() implies text_lt(x@, #[trigger] v0[j]) by {
            lemma_text_le_total(x@, v0[p as int]);
            if x@ == v0[p as int] {
                crate::order::lemma_text_le_reflexive(x@);
            }
            if j > p {
                assert(text_lt(v0[p as int], v0[j]));
                crate::order::lemma_text_le_transitive(x@, v0[p as int], v0[j]);
                if x@ == v0[j] {
                    crate::order::lemma_text_le_antisymmetric(x@, v0[p as int]);
                }
            }
        }
    }
    v.insert(p, x.clone());
    proof {
        let v1 = views(v@);
        assert(v1 =~= v0.insert(p as int, x@));
        assert forall|a: int, b: int| 0 <= a < b < v1.len() implies text_lt(
            #[trigger] v1[a],
            #[trigger] v1[b],
        ) by {
            if b < p {
            } else if a < p && b == p {
            } else if a < p {
                assert(text_lt(v0[a], v0[b - 1]));
            } else if a == p {
            } else {
                assert(text_lt(v0[a - 1], v0[b - 1]));
            }
        }
        assert(v1.to_set() =~= v0.to_set().insert(x@)) by {
            assert forall|y: Seq<char>| v1.to_set().contains(y) implies v0.to_set().insert(
                x@,
            ).contains(y) by {
                let k = choose|k: int| 0 <= k < v1.len() && v1[k] == y;
                if k < p {
                    assert(v0[k] == y);
                } else if k > p {
                    assert(v0[k - 1] == y);
                }
            }
            assert forall|y: Seq<char>| v0.to_set().insert(x@).contains(y) implies v1.to_set().contains(
                y,
            ) by {
                if y == x@ {
                    assert(v1[p as int] == y);
                } else {
                    let k = choose|k: int| 0 <= k < v0.len() && v0[k] == y;
                    if k < p {
                        assert(v1[k] == y);
                    } else {
                        assert(v1[k + 1] == y);
                    }
                }
            }
        }
    }
}

/// The file of each rendered line.
pub open spec fn line_files(lines: Seq<(Seq<char>, Seq<char>)>) -> Seq<Seq<char>> {
    lines.map_values(|l: (Seq<char>, Seq<char>)| l.0)
}

/// A list in strictly ascending order holds as many items as its set.
proof fn lemma_ascending_len(v: Seq<Seq<char>>)
    requires
        strictly_ascending(v),
    ensures
        v.to_set().len() == v.len(),
{
    assert forall|i: int, j: int| 0 <= i < v.len() && 0 <= j < v.len() && i != j implies v[i]
        != v[j] by {
        if i < j {
            assert(text_lt(v[i], v[j]));
        } else {
            assert(text_lt(v[j], v[i]));
        }
    }
    v.unique_seq_to_set();
}

impl GrepSearchResult {
    /// The number of distinct files among all rendered lines.
    fn distinct_line_files(&self) -> (res: usize)
        ensures
            res == line_files(self.lines()).to_set().len(),
    {
        let ghost lv = self.lines();
        let mut names: Vec<String> = Vec::new();
        let mut i: usize = 0;
        proof {
            assert(views(names@).to_set() =~= line_files(lv.take(0)).to_set());
        }
        while i < self.content_lines.len()
            invariant
                i <= self.content_lines.len(),
                lv == self.lines(),
                strictly_ascending(views(names@)),
                views(names@).to_set() == line_files(lv.take(i as int)).to_set(),
            decreases self.content_lines.len() - i,
        {
            let line = &self.content_lines[i];
            insert_sorted_unique(&mut names, &line.path);
            proof {
                assert(lv[i as int] == line_view(self.content_lines@[i as int]));
                assert(lv.take(i + 1) =~= lv.take(i as int).push(lv[i as int]));
                assert(line_files(lv.take(i + 1)) =~= line_files(lv.take(i as int)).push(
                    lv[i as int].0,
                ));
                line_files(lv.take(i as int)).lemma_push_to_set_commute(lv[i as int].0);
            }
            i = i + 1;
        }
        proof {
            assert(lv.take(i as int) =~= lv);
            lemma_ascending_len(views(names@));
        }
        names.len()
    }

    /// The output of a search in the given mode, windowed: the files with
    /// matches; or `path:count` entries and their files; or the rendered
    /// lines and their files, each once, in ascending order. The number of
    /// files is the number found, before the window: the files with matches,
    /// or, for content, the files of all rendered lines.
    pub fn grep_output(&self, mode: GrepOutputMode, offset: usize, limit: usize) -> (res: GrepOutput)
        requires
            self.wf(),
        ensures
            output_view(res).3 == Some(self.total()),
            mode != GrepOutputMode::Content ==> output_view(res).1 == self.files().len(),
            mode == GrepOutputMode::Content ==> output_view(res).1 == line_files(
                self.lines(),
            ).to_set().len(),
            mode == GrepOutputMode::FilesWithMatches ==> output_view(res).0 == window(
                self.files(),
                offset as nat,
                limit as nat,
            ) && output_view(res).2 is None,
            mode == GrepOutputMode::Count ==> {
                let entries = window(
                    Seq::new(
                        self.files().len(),
                        |i: int| count_entry(self.files()[i], self.counts()[i] as nat),
                    ),
                    offset as nat,
                    limit as nat,
                );
                &&& output_view(res).0 == entry_names(entries)
                &&& output_view(res).2 == Some(join(entries, "\n"@))
            },
            mode == GrepOutputMode::Content ==> {
                let lines = window(self.lines(), offset as nat, limit as nat);
                &&& strictly_ascending(output_view(res).0)
                &&& output_view(res).0.to_set() == lines.map_values(
                    |l: (Seq<char>, Seq<char>)| l.0,
                ).to_set()
                &&& output_view(res).2 == Some(
                    join(lines.map_values(|l: (Seq<char>, Seq<char>)| l.1), "\n"@),
                )
            },
    {
        match mode {
            GrepOutputMode::FilesWithMatches => {
                let filenames = window_strings(&self.matched_files, offset, limit);
                GrepOutput {
                    num_files: self.matched_files.len(),
                    filenames,
                    content: None,
                    num_matches: Some(self.total_matches),
                }
            },
            GrepOutputMode::Count => {
                let ghost all = Seq::new(
                    self.files().len(),
                    |i: int| count_entry(self.files()[i], self.counts()[i] as nat),
                );
                let mut entries: Vec<String> = Vec::new();
                let mut i: usize = 0;
                while i < self.matched_files.len()
                    invariant
                        i <= self.matched_files.len(),
                        self.wf(),
                        all == Seq::new(
                            self.files().len(),
                            |i: int| count_entry(self.files()[i], self.counts()[i] as nat),
                        ),
                        views(entries@) == all.take(i as int),
                    decreases self.matched_files.len() - i,
                {
                    let mut e = self.matched_files[i].clone();
                    push_str(&mut e, ":");
                    let n = decimal(self.match_counts[i] as u128);
                    push_str(&mut e, n.as_str());
                    let ghost before = views(entries@);
                    entries.push(e);
                    proof {
                        assert(self.files()[i as int] == self.matched_files@[i as int]@);
                        assert(all[i as int] == count_entry(
                            self.files()[i as int],
                            self.counts()[i as int] as nat,
                        ));
                        assert(e@ =~= all[i as int]);
                        assert(views(entries@) =~= before.push(e@));
                        assert(all.take(i + 1) =~= all.take(i as int).push(all[i as int]));
                    }
                    i = i + 1;
                }
                assert(all.take(i as int) =~= all);
                let windowed = window_strings(&entries, offset, limit);
                let ghost wv = views(windowed@);
                let mut filenames: Vec<String> = Vec::new();
                let mut k: usize = 0;
                while k < windowed.len()
                    invariant
                        k <= windowed.len(),
                        wv == views(windowed@),
                        views(filenames@) == entry_names(wv.take(k as int)),
                    decreases windowed.len() - k,
                {
                    let wc = chars_of(windowed[k].as_str());
                    assert(wv.take(k + 1).drop_last() =~= wv.take(k as int));
                    match crate::text::find_char(&wc, ':') {
                        Some(p) => {
                            let name = crate::text::slice_chars(&wc, 0, p);
                            filenames.push(crate::text::string_of(&name));
                            assert(views(filenames@) =~= entry_names(wv.take(k + 1)));
                        },
                        None => {},
                    }
                    k = k + 1;
                }
                assert(wv.take(k as int) =~= wv);
                let content = crate::text::join_strings(&windowed, "\n");
                GrepOutput {
                    num_files: self.matched_files.len(),
                    filenames,
                    content: Some(content),
                    num_matches: Some(self.total_matches),
                }
            },
            GrepOutputMode::Content => {
                let ghost lv = self.lines();
                let len = self.content_lines.len();
                let (start, end) = if offset < len {
                    (offset, if limit == 0 || limit >= len - offset {
                        len
                    } else {
                        offset + limit
                    })
                } else {
                    (len, len)
                };
                let ghost w = window(lv, offset as nat, limit as nat);
                assert(w =~= lv.subrange(start as int, end as int));
                let mut filenames: Vec<String> = Vec::new();
                let mut texts: Vec<String> = Vec::new();
                let mut i = start;
                proof {
                    assert(views(filenames@).to_set() =~= w.take(0).map_values(
                        |l: (Seq<char>, Seq<char>)| l.0,
                    ).to_set());
                    assert(views(texts@) =~= w.take(0).map_values(|l: (Seq<char>, Seq<char>)| l.1));
                }
                while i < end
                    invariant
                        start <= i <= end <= len,
                        len == self.content_lines.len(),
                        lv == self.lines(),
                        w == lv.subrange(start as int, end as int),
                        strictly_ascending(views(filenames@)),
                        views(filenames@).to_set() == w.take(i - start).map_values(
                            |l: (Seq<char>, Seq<char>)| l.0,
                        ).to_set(),
                        views(texts@) == w.take(i - start).map_values(
                            |l: (Seq<char>, Seq<char>)| l.1,
                        ),
                    decreases end - i,
                {
                    let line = &self.content_lines[i];
                    insert_sorted_unique(&mut filenames, &line.path);
                    let ghost texts_before = views(texts@);
                    texts.push(line.text.clone());
                    proof {
                        let k = i - start;
                        assert(w[k as int] == line_view(self.content_lines@[i as int]));
                        assert(w.take(k + 1) =~= w.take(k as int).push(w[k as int]));
                        assert(w.take(k + 1).map_values(|l: (Seq<char>, Seq<char>)| l.0)
                            =~= w.take(k as int).map_values(|l: (Seq<char>, Seq<char>)| l.0).push(
                            w[k as int].0,
                        ));
                        w.take(k as int).map_values(
                            |l: (Seq<char>, Seq<char>)| l.0,
                        ).lemma_push_to_set_commute(w[k as int].0);
                        assert(views(texts@) =~= texts_before.push(w[k as int].1));
                        assert(w.take(k + 1).map_values(|l: (Seq<char>, Seq<char>)| l.1)
                            =~= w.take(k as int).map_values(|l: (Seq<char>, Seq<char>)| l.1).push(
                            w[k as int].1,
                        ));
                    }
                    i = i + 1;
                }
                assert(w.take(end - start) =~= w);
                let content = crate::text::join_strings(&texts, "\n");
                let found = self.distinct_line_files();
                GrepOutput {
                    num_files: found,
                    filenames,
                    content: Some(content),
                    num_matches: Some(self.total_matches),
                }
            },
        }
    }
}

// ---------------------------------------------------------------------------
// Paths
// ---------------------------------------------------------------------------

/// What `Path::strip_prefix` gives for `path` and `base`, as text: what is
/// left of `path` after the components of `base`, or nothing when `base` is
/// not a prefix of `path`.
pub uninterp spec fn strip_prefix_of(path: Seq<char>, base: Seq<char>) -> Option<Seq<char>>;

/// The characters of an optional string.
pub open spec fn opt_chars(v: Option<String>) -> Option<Seq<char>> {
    match v {
        Some(s) => Some(s@),
        None => None,
    }
}

/// `Path::strip_prefix`, as text.
///
/// Trusted: calls `Path::strip_prefix` on the two paths and writes the rest
/// with `display()`, which gives back the text of a path made from a
/// string; the result depends on the two texts alone and is named
/// `strip_prefix_of`.
#[verifier::external_body]
fn strip_path_prefix(path: &str, base: &str) -> (res: Option<String>)
    ensures
        opt_chars(res) == strip_prefix_of(path@, base@),
{
    std::path::Path::new(path).strip_prefix(base).ok().map(|rest| rest.display().to_string())
}

/// How a searched file is named in the output: as found when the search
/// target is a file; otherwise relative to the target directory
/// (`Path::strip_prefix`), or as found when it does not lie under the
/// target.
pub open spec fn shown_path(target: Seq<char>, target_is_file: bool, path: Seq<char>) -> Seq<char> {
    if target_is_file {
        path
    } else {
        match strip_prefix_of(path, target) {
            Some(rest) => rest,
            None => path,
        }
    }
}

/// How a searched file is named in the output (see `shown_path`).
pub fn render_search_path(target: &str, target_is_file: bool, path: &str) -> (res: String)
    ensures
        res@ == shown_path(target@, target_is_file, path@),
{
    if target_is_file {
        return path.to_owned();
    }
    match strip_path_prefix(path, target) {
        Some(rest) => rest,
        None => path.to_owned(),
    }
}

} // verus!
