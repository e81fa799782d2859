//! PDF page selection (`pages` of the Read tool) and the text Read shows of
//! the selected pages.

use vstd::prelude::*;

use crate::error::{is_invalid_input, LiteCodeError};
use crate::text::{
    chars_of, dec, decimal, first_index, find_char, join, push_chars, push_str, slice_chars,
    split, split_chars, string_of, trim, trim_chars, trim_end, trim_end_chars,
};

verus! {

// ---------------------------------------------------------------------------
// Number parsing
// ---------------------------------------------------------------------------

/// Whether every character of `d` is an ASCII digit.
pub open spec fn all_digits(d: Seq<char>) -> bool {
    forall|i: int| 0 <= i < d.len() ==> '0' <= #[trigger] d[i] <= '9'
}

/// The number written by the decimal digits `d`.
pub open spec fn dec_number(d: Seq<char>) -> nat
    decreases d.len(),
{
    if d.len() == 0 {
        0
    } else {
        dec_number(d.drop_last()) * 10 + ((d.last() as u32) - 48) as nat
    }
}

/// `str::parse::<u32>`: an optional `+`, then at least one decimal digit,
/// with a value that fits in 32 bits.
pub open spec fn parse_u32_dec(t: Seq<char>) -> Option<u32> {
    let digits = if t.len() > 0 && t[0] == '+' {
        t.drop_first()
    } else {
        t
    };
    if digits.len() > 0 && all_digits(digits) && dec_number(digits) <= u32::MAX {
        Some(dec_number(digits) as u32)
    } else {
        None
    }
}

proof fn lemma_dec_number_grows(d: Seq<char>, i: int)
    requires
        0 <= i <= d.len(),
        all_digits(d),
    ensures
        dec_number(d.take(i)) <= dec_number(d),
    decreases d.len() - i,
{
    if i < d.len() {
        lemma_dec_number_grows(d, i + 1);
        assert(d.take(i + 1).drop_last() =~= d.take(i));
    } else {
        assert(d.take(i) =~= d);
    }
}

/// `str::parse::<u32>`.
pub fn parse_u32(t: &Vec<char>) -> (res: Option<u32>)
    ensures
        res == parse_u32_dec(t@),
{
    let start: usize = if t.len() > 0 && t[0] == '+' {
        1
    } else {
        0
    };
    let ghost digits = t@.skip(start as int);
    assert(digits =~= if t@.len() > 0 && t@[0] == '+' {
        t@.drop_first()
    } else {
        t@
    });
    if start == t.len() {
        return None;
    }
    // `value` is the number so far, capped just above `u32::MAX`.
    let mut value: u64 = 0;
    let mut i = start;
    while i < t.len()
        invariant
            start <= i <= t.len(),
            digits == t@.skip(start as int),
            digits == (if t@.len() > 0 && t@[0] == '+' {
                t@.drop_first()
            } else {
                t@
            }),
            all_digits(t@.subrange(start as int, i as int)),
            dec_number(t@.subrange(start as int, i as int)) <= u32::MAX ==> value == dec_number(
                t@.subrange(start as int, i as int),
            ),
            dec_number(t@.subrange(start as int, i as int)) > u32::MAX ==> value == u32::MAX + 1,
        decreases t.len() - i,
    {
        let ghost pre = t@.subrange(start as int, i as int);
        let ghost next = t@.subrange(start as int, i + 1);
        assert(next.drop_last() =~= pre);
        let c = t[i];
        if !('0' <= c && c <= '9') {
            assert(digits[i - start] == c);
            assert(!all_digits(digits));
            return None;
        }
        let d = (c as u32 - 48) as u64;
        if value > u32::MAX as u64 {
            value = u32::MAX as u64 + 1;
        } else {
            value = value * 10 + d;
            if value > u32::MAX as u64 {
                value = u32::MAX as u64 + 1;
            }
        }
        assert(all_digits(next)) by {
            assert forall|k: int| 0 <= k < next.len() implies '0' <= #[trigger] next[k] <= '9' by {
                if k < pre.len() {
                    assert(next[k] == pre[k]);
                }
            }
        }
        i = i + 1;
    }
    assert(t@.subrange(start as int, t.len() as int) =~= digits);
    if value > u32::MAX as u64 {
        None
    } else {
        Some(value as u32)
    }
}

// ---------------------------------------------------------------------------
// Page ranges
// ---------------------------------------------------------------------------

/// The text of `Debug` formatting of a string: quoted, with escapes.
pub uninterp spec fn debug_quoted(s: Seq<char>) -> Seq<char>;

/// `format!("{:?}", s)`.
///
/// Trusted: formats the string with its `Debug` implementation; the result
/// is named `debug_quoted`.
#[verifier::external_body]
fn debug_string(s: &str) -> (res: String)
    ensures
        res@ == debug_quoted(s@),
{
    format!("{s:?}")
}

pub open spec fn invalid_range_message(spec: Seq<char>) -> Seq<char> {
    "Invalid PDF page range "@ + debug_quoted(spec) + "."@
}

pub open spec fn zero_page_message(spec: Seq<char>) -> Seq<char> {
    "Invalid PDF page range "@ + debug_quoted(spec) + ": page numbers start at 1."@
}

pub open spec fn reversed_range_message(part: Seq<char>) -> Seq<char> {
    "Invalid PDF page range "@ + debug_quoted(part) + ": start must be less than or equal to end."@
}

pub open spec fn range_too_far_message(part: Seq<char>, total: nat) -> Seq<char> {
    "PDF page range "@ + debug_quoted(part) + " exceeds the document page count of "@ + dec(total)
        + "."@
}

/// One page number of a range.
pub open spec fn page_number(value: Seq<char>, spec: Seq<char>) -> Result<u32, Seq<char>> {
    match parse_u32_dec(trim(value)) {
        None => Err(invalid_range_message(spec)),
        Some(p) => if p == 0 {
            Err(zero_page_message(spec))
        } else {
            Ok(p)
        },
    }
}

/// One comma-separated part: a page, or `start-end`.
pub open spec fn part_range(part: Seq<char>, spec: Seq<char>, total: nat) -> Result<
    (u32, u32),
    Seq<char>,
> {
    let t = trim(part);
    if t.len() == 0 {
        Err(invalid_range_message(spec))
    } else {
        let (sa, sb) = match first_index(t, '-') {
            Some(k) => (t.take(k), t.skip(k + 1)),
            None => (t, t),
        };
        match page_number(sa, spec) {
            Err(m) => Err(m),
            Ok(a) => match page_number(sb, spec) {
                Err(m) => Err(m),
                Ok(b) => if a > b {
                    Err(reversed_range_message(t))
                } else if b > total {
                    Err(range_too_far_message(t, total))
                } else {
                    Ok((a, b))
                },
            },
        }
    }
}

/// The pages `a..=b`.
pub open spec fn page_span(a: u32, b: u32) -> Set<u32> {
    Set::new(|p: u32| a <= p <= b)
}

/// The pages chosen by the parts, or the first error met from the left.
pub open spec fn parts_pages(parts: Seq<Seq<char>>, spec: Seq<char>, total: nat) -> Result<
    Set<u32>,
    Seq<char>,
>
    decreases parts.len(),
{
    if parts.len() == 0 {
        Ok(Set::<u32>::empty())
    } else {
        match parts_pages(parts.drop_last(), spec, total) {
            Err(m) => Err(m),
            Ok(set) => match part_range(parts.last(), spec, total) {
                Err(m) => Err(m),
                Ok((a, b)) => Ok(set.union(page_span(a, b))),
            },
        }
    }
}

/// The pages a `pages` parameter chooses, or the message of its error.
pub open spec fn page_ranges(spec: Seq<char>, total: nat) -> Result<Set<u32>, Seq<char>> {
    match parts_pages(split(spec, ','), spec, total) {
        Err(m) => Err(m),
        Ok(set) => if set.is_empty() {
            Err(invalid_range_message(spec))
        } else {
            Ok(set)
        },
    }
}

/// Whether `v` lists exactly the pages of `set`, in increasing order.
pub open spec fn lists_in_order(v: Seq<u32>, set: Set<u32>) -> bool {
    &&& forall|i: int, j: int| 0 <= i < j < v.len() ==> v[i] < v[j]
    &&& forall|p: u32| set.contains(p) <==> v.contains(p)
}

fn invalid_range_error(spec: &str) -> (res: LiteCodeError)
    ensures
        is_invalid_input(res, invalid_range_message(spec@)),
{
    let mut msg = String::new();
    push_str(&mut msg, "Invalid PDF page range ");
    let q = debug_string(spec);
    push_str(&mut msg, q.as_str());
    push_str(&mut msg, ".");
    LiteCodeError::invalid_input(msg)
}

/// One page number of a range.
pub fn parse_pdf_page_number(value: &Vec<char>, spec: &str) -> (res: Result<u32, LiteCodeError>)
    ensures
        match page_number(value@, spec@) {
            Ok(p) => res matches Ok(q) && q == p,
            Err(m) => res matches Err(e) && is_invalid_input(e, m),
        },
{
    let t = trim_chars(value);
    match parse_u32(&t) {
        None => Err(invalid_range_error(spec)),
        Some(p) => {
            if p == 0 {
                let mut msg = String::new();
                push_str(&mut msg, "Invalid PDF page range ");
                let q = debug_string(spec);
                push_str(&mut msg, q.as_str());
                push_str(&mut msg, ": page numbers start at 1.");
                Err(LiteCodeError::invalid_input(msg))
            } else {
                Ok(p)
            }
        },
    }
}

fn part_range_exec(part: &Vec<char>, spec: &str, total: u32) -> (res: Result<
    (u32, u32),
    LiteCodeError,
>)
    ensures
        match part_range(part@, spec@, total as nat) {
            Ok((a, b)) => res matches Ok((x, y)) && x == a && y == b,
            Err(m) => res matches Err(e) && is_invalid_input(e, m),
        },
{
    let t = trim_chars(part);
    if t.len() == 0 {
        return Err(invalid_range_error(spec));
    }
    let (a, b) = match find_char(&t, '-') {
        Some(k) => {
            let sa = slice_chars(&t, 0, k);
            let sb = slice_chars(&t, k + 1, t.len());
            assert(sa@ =~= t@.take(k as int));
            assert(sb@ =~= t@.skip(k + 1));
            let a = parse_pdf_page_number(&sa, spec)?;
            let b = parse_pdf_page_number(&sb, spec)?;
            (a, b)
        },
        None => {
            let a = parse_pdf_page_number(&t, spec)?;
            (a, a)
        },
    };
    if a > b {
        let mut msg = String::new();
        push_str(&mut msg, "Invalid PDF page range ");
        let ts = string_of(&t);
        let q = debug_string(ts.as_str());
        push_str(&mut msg, q.as_str());
        push_str(&mut msg, ": start must be less than or equal to end.");
        return Err(LiteCodeError::invalid_input(msg));
    }
    if b > total {
        let mut msg = String::new();
        push_str(&mut msg, "PDF page range ");
        let ts = string_of(&t);
        let q = debug_string(ts.as_str());
        push_str(&mut msg, q.as_str());
        push_str(&mut msg, " exceeds the document page count of ");
        let d = decimal(total as u128);
        push_str(&mut msg, d.as_str());
        push_str(&mut msg, ".");
        return Err(LiteCodeError::invalid_input(msg));
    }
    Ok((a, b))
}

/// The pages a `pages` parameter chooses, in increasing order without
/// repeats (`"1-3,2,5"` gives 1, 2, 3, 5).
pub fn parse_pdf_page_ranges(spec: &str, total_pages: usize) -> (res: Result<
    Vec<u32>,
    LiteCodeError,
>)
    requires
        total_pages <= u32::MAX,
    ensures
        match page_ranges(spec@, total_pages as nat) {
            Ok(set) => res matches Ok(v) && lists_in_order(v@, set),
            Err(m) => res matches Err(e) && is_invalid_input(e, m),
        },
{
    let total = total_pages as u32;
    let sc = chars_of(spec);
    let parts = split_chars(&sc, ',');
    let ghost pv = parts@.map_values(|p: Vec<char>| p@);
    // `marked[p]` records whether page `p` is chosen.
    let mut marked: Vec<bool> = Vec::new();
    marked.push(false);
    let mut k: usize = 0;
    while k < total_pages
        invariant
            k <= total_pages,
            total_pages <= u32::MAX,
            marked.len() == k + 1,
            forall|q: int| 0 <= q <= k ==> !marked@[q],
        decreases total_pages - k,
    {
        marked.push(false);
        k = k + 1;
    }
    let mut i: usize = 0;
    assert(pv.take(0) =~= Seq::<Seq<char>>::empty());
    while i < parts.len()
        invariant
            i <= parts.len(),
            pv == parts@.map_values(|p: Vec<char>| p@),
            pv == split(spec@, ','),
            total as nat == total_pages,
            marked.len() == total_pages + 1,
            parts_pages(pv.take(i as int), spec@, total as nat) is Ok,
            forall|q: u32|
                #![trigger marked@[q as int]]
                q <= total ==> (marked@[q as int] <==> parts_pages(
                    pv.take(i as int),
                    spec@,
                    total as nat,
                )->Ok_0.contains(q)),
            forall|q: u32| #[trigger]
                parts_pages(pv.take(i as int), spec@, total as nat)->Ok_0.contains(q) ==> 1 <= q
                    <= total,
        decreases parts.len() - i,
    {
        assert(pv.take(i + 1).drop_last() =~= pv.take(i as int));
        assert(pv.take(i + 1).last() == parts@[i as int]@);
        let ghost before = parts_pages(pv.take(i as int), spec@, total as nat)->Ok_0;
        let (a, b) = match part_range_exec(&parts[i], spec, total) {
            Ok(r) => r,
            Err(e) => {
                assert(parts_pages(pv.take(i + 1), spec@, total as nat) is Err);
                proof {
                    lemma_parts_pages_err_stays(pv, spec@, total as nat, i as int + 1);
                    assert(pv.take(pv.len() as int) =~= pv);
                }
                return Err(e);
            },
        };
        let ghost after = before.union(page_span(a, b));
        let mut p: u64 = a as u64;
        while p <= b as u64
            invariant
                1 <= a <= p,
                a <= b <= total,
                p <= b + 1,
                marked.len() == total_pages + 1,
                total as nat == total_pages,
                forall|q: u32|
                    #![trigger marked@[q as int]]
                    q <= total ==> (marked@[q as int] <==> (before.contains(q) || (a <= q < p))),
            decreases b + 1 - p,
        {
            marked.set(p as usize, true);
            p = p + 1;
        }
        assert forall|q: u32| #![trigger marked@[q as int]] q <= total implies (marked@[q as int]
            <==> after.contains(q)) by {}
        i = i + 1;
    }
    assert(pv.take(i as int) =~= pv);
    let ghost set = parts_pages(pv, spec@, total as nat)->Ok_0;
    let mut out: Vec<u32> = Vec::new();
    let mut j: usize = 0;
    while j < total_pages
        invariant
            j <= total_pages,
            total_pages <= u32::MAX,
            marked.len() == total_pages + 1,
            forall|r: u32| #![trigger marked@[r as int]] r <= total_pages ==> (marked@[r as int]
                <==> set.contains(r)),
            forall|r: u32| #[trigger] set.contains(r) ==> 1 <= r <= total_pages,
            forall|x: int, y: int| 0 <= x < y < out.len() ==> out@[x] < out@[y],
            forall|x: int| 0 <= x < out.len() ==> out@[x] <= j,
            forall|r: u32| r <= j ==> (set.contains(r) <==> out@.contains(r)),
        decreases total_pages - j,
    {
        let q = j + 1;
        let ghost old_out = out@;
        if marked[q] {
            out.push(q as u32);
        }
        assert forall|r: u32| r <= q implies (set.contains(r) <==> out@.contains(r)) by {
            if r < q {
                if out@.contains(r) {
                    let x = choose|x: int| 0 <= x < out.len() && out@[x] == r;
                    if x < old_out.len() {
                        assert(old_out[x] == r);
                        assert(old_out.contains(r));
                    }
                }
                if old_out.contains(r) {
                    let x = choose|x: int| 0 <= x < old_out.len() && old_out[x] == r;
                    assert(out@[x] == r);
                }
            } else {
                assert(r == q);
                assert(marked@[r as int] <==> set.contains(r));
                if marked@[r as int] {
                    assert(out@[out.len() - 1] == r);
                } else {
                    if out@.contains(r) {
                        let x = choose|x: int| 0 <= x < out.len() && out@[x] == r;
                        assert(out@[x] <= j);
                    }
                }
            }
        }
        j = j + 1;
    }
    assert(!set.contains(0u32));
    assert forall|r: u32| set.contains(r) <==> out@.contains(r) by {
        if out@.contains(r) {
            let x = choose|x: int| 0 <= x < out.len() && out@[x] == r;
        }
    }
    if out.len() == 0 {
        assert(set =~= Set::<u32>::empty()) by {
            assert forall|r: u32| !set.contains(r) by {}
        }
        return Err(invalid_range_error(spec));
    }
    assert(!set.is_empty()) by {
        assert(set.contains(out@[0]));
    }
    Ok(out)
}

proof fn lemma_parts_pages_err_stays(parts: Seq<Seq<char>>, spec: Seq<char>, total: nat, i: int)
    requires
        0 <= i <= parts.len(),
        parts_pages(parts.take(i), spec, total) is Err,
    ensures
        parts_pages(parts.take(parts.len() as int), spec, total) == parts_pages(
            parts.take(i),
            spec,
            total,
        ),
    decreases parts.len() - i,
{
    if i < parts.len() {
        assert(parts.take(i + 1).drop_last() =~= parts.take(i));
        lemma_parts_pages_err_stays(parts, spec, total, i + 1);
    }
}

// ---------------------------------------------------------------------------
// Page selection
// ---------------------------------------------------------------------------

pub open spec fn pages_required_message(total: nat) -> Seq<char> {
    "PDF has "@ + dec(total)
        + " pages. You must provide the pages parameter when reading PDFs with more than 10 pages."@
}

pub open spec fn too_many_pages_message(count: nat) -> Seq<char> {
    "PDF page selection contains "@ + dec(count) + " pages, exceeding the 20-page maximum."@
}

/// The pages Read extracts from a PDF of `total` pages: all of them when no
/// range is given (allowed up to 10 pages), the chosen ones otherwise; at
/// most 20.
pub fn select_pdf_pages(total_pages: usize, pages: Option<&str>) -> (res: Result<
    Vec<u32>,
    LiteCodeError,
>)
    requires
        total_pages <= u32::MAX || pages is None,
    ensures
        (total_pages > 10 && pages is None) ==> (res matches Err(e) && is_invalid_input(
            e,
            pages_required_message(total_pages as nat),
        )),
        (total_pages <= 10 && pages is None) ==> (res matches Ok(v) && lists_in_order(
            v@,
            page_span(1, total_pages as u32),
        )),
        pages matches Some(spec) ==> match page_ranges(spec@, total_pages as nat) {
            Ok(set) => if set.len() > 20 {
                res matches Err(e) && is_invalid_input(e, too_many_pages_message(set.len()))
            } else {
                res matches Ok(v) && lists_in_order(v@, set)
            },
            Err(m) => res matches Err(e) && is_invalid_input(e, m),
        },
{
    if total_pages > 10 && pages.is_none() {
        let mut msg = String::new();
        push_str(&mut msg, "PDF has ");
        let d = decimal(total_pages as u128);
        push_str(&mut msg, d.as_str());
        push_str(
            &mut msg,
            " pages. You must provide the pages parameter when reading PDFs with more than 10 pages.",
        );
        return Err(LiteCodeError::invalid_input(msg));
    }
    let selected = match pages {
        Some(spec) => parse_pdf_page_ranges(spec, total_pages)?,
        None => {
            let mut v: Vec<u32> = Vec::new();
            let mut p: usize = 1;
            while p <= total_pages
                invariant
                    1 <= p <= total_pages + 1,
                    total_pages <= 10,
                    v@.len() == p - 1,
                    forall|x: int| 0 <= x < v.len() ==> v@[x] == x + 1,
                decreases total_pages + 1 - p,
            {
                v.push(p as u32);
                p = p + 1;
            }
            assert forall|r: u32| page_span(1, total_pages as u32).contains(r) <==> v@.contains(r) by {
                if 1 <= r <= total_pages {
                    assert(v@[r - 1] == r);
                }
            }
            v
        },
    };
    proof {
        match pages {
            Some(spec) => {
                let set = page_ranges(spec@, total_pages as nat)->Ok_0;
                lemma_ordered_list_len(selected@, set);
            },
            None => {
                lemma_ordered_list_len(selected@, page_span(1, total_pages as u32));
            },
        }
    }
    if selected.len() > 20 {
        let mut msg = String::new();
        push_str(&mut msg, "PDF page selection contains ");
        let d = decimal(selected.len() as u128);
        push_str(&mut msg, d.as_str());
        push_str(&mut msg, " pages, exceeding the 20-page maximum.");
        return Err(LiteCodeError::invalid_input(msg));
    }
    Ok(selected)
}

/// A list of distinct items listing a set has the set's size.
proof fn lemma_ordered_list_len(v: Seq<u32>, set: Set<u32>)
    requires
        lists_in_order(v, set),
    ensures
        set.finite(),
        set.len() == v.len(),
{
    v.unique_seq_to_set();
    assert(v.to_set() =~= set);
}

// ---------------------------------------------------------------------------
// Page text
// ---------------------------------------------------------------------------

/// How one extracted page is shown.
pub open spec fn render_page(page: u32, text: Seq<char>) -> Seq<char> {
    let body = trim_end(text);
    "Page "@ + dec(page as nat) + seq!['\n'] + (if body.len() == 0 {
        "[no extractable text]"@
    } else {
        body
    })
}

/// How the extracted pages are shown: each page rendered, separated by a
/// blank line.
pub open spec fn render_pages(pages: Seq<(u32, Seq<char>)>) -> Seq<char> {
    join(pages.map_values(|e: (u32, Seq<char>)| render_page(e.0, e.1)), "\n\n"@)
}

/// The text Read shows of the extracted pages.
pub fn render_pdf_pages(pages: &Vec<(u32, String)>) -> (res: String)
    ensures
        res@ == render_pages(pages@.map_values(|e: (u32, String)| (e.0, e.1@))),
{
    let ghost pv = pages@.map_values(|e: (u32, String)| (e.0, e.1@));
    let ghost rendered = pv.map_values(|e: (u32, Seq<char>)| render_page(e.0, e.1));
    let mut out = String::new();
    let mut i: usize = 0;
    while i < pages.len()
        invariant
            i <= pages.len(),
            pv == pages@.map_values(|e: (u32, String)| (e.0, e.1@)),
            rendered == pv.map_values(|e: (u32, Seq<char>)| render_page(e.0, e.1)),
            out@ == join(rendered.take(i as int), "\n\n"@),
        decreases pages.len() - i,
    {
        proof {
            crate::text::lemma_join_push(rendered.take(i as int), "\n\n"@, rendered[i as int]);
            assert(rendered.take(i + 1) =~= rendered.take(i as int).push(rendered[i as int]));
        }
        if i > 0 {
            push_str(&mut out, "\n\n");
        }
        let (page, text) = (pages[i].0, &pages[i].1);
        let tc = chars_of(text.as_str());
        let body = trim_end_chars(&tc);
        push_str(&mut out, "Page ");
        let d = decimal(page as u128);
        push_str(&mut out, d.as_str());
        push_str(&mut out, "\n");
        if body.len() == 0 {
            push_str(&mut out, "[no extractable text]");
        } else {
            push_chars(&mut out, &body);
        }
        proof {
            reveal_strlit("\n");
            assert("\n"@ =~= seq!['\n']);
        }
        i = i + 1;
    }
    assert(rendered.take(i as int) =~= rendered);
    out
}

/// The error for a PDF without pages.
pub open spec fn no_pages_message(path: Seq<char>) -> Seq<char> {
    "PDF "@ + path + " does not contain any pages."@
}

/// The pages Read takes from a PDF of `total` pages, as a set, or the error
/// it gives: none for a PDF without pages; without a range, all pages of a
/// PDF of at most ten; with one, the pages it chooses, at most twenty.
pub open spec fn selection_outcome(path: Seq<char>, total: nat, pages: Option<Seq<char>>) -> Result<
    Set<u32>,
    Seq<char>,
> {
    if total == 0 {
        Err(no_pages_message(path))
    } else {
        match pages {
            None => if total > 10 {
                Err(pages_required_message(total))
            } else {
                Ok(page_span(1, total as u32))
            },
            Some(spec) => match page_ranges(spec, total) {
                Ok(set) => if set.len() > 20 {
                    Err(too_many_pages_message(set.len()))
                } else {
                    Ok(set)
                },
                Err(m) => Err(m),
            },
        }
    }
}

/// A page range's characters, if given.
pub open spec fn opt_spec(pages: Option<&str>) -> Option<Seq<char>> {
    match pages {
        Some(p) => Some(p@),
        None => None,
    }
}

/// The pages Read takes from a PDF of `total` pages, in ascending order
/// (see `selection_outcome`).
pub fn pdf_page_selection(path: &str, total: usize, pages: Option<&str>) -> (res: Result<
    Vec<u32>,
    LiteCodeError,
>)
    requires
        total <= u32::MAX || pages is None,
    ensures
        match selection_outcome(path@, total as nat, opt_spec(pages)) {
            Ok(set) => res matches Ok(v) && lists_in_order(v@, set),
            Err(m) => res matches Err(e) && is_invalid_input(e, m),
        },
{
    if total == 0 {
        let mut msg = String::new();
        push_str(&mut msg, "PDF ");
        push_str(&mut msg, path);
        push_str(&mut msg, " does not contain any pages.");
        return Err(LiteCodeError::invalid_input(msg));
    }
    select_pdf_pages(total, pages)
}

/// The error for a page whose text could not be extracted.
pub open spec fn extraction_message(page: u32, path: Seq<char>, error: Seq<char>) -> Seq<char> {
    "Failed to extract page "@ + dec(page as nat) + " from PDF "@ + path + ": "@ + error
}

/// The error for a page whose text could not be extracted.
pub fn extraction_error(page: u32, path: &str, error: &str) -> (res: LiteCodeError)
    ensures
        is_invalid_input(res, extraction_message(page, path@, error@)),
{
    let mut msg = String::new();
    push_str(&mut msg, "Failed to extract page ");
    let d = decimal(page as u128);
    push_str(&mut msg, d.as_str());
    push_str(&mut msg, " from PDF ");
    push_str(&mut msg, path);
    push_str(&mut msg, ": ");
    push_str(&mut msg, error);
    LiteCodeError::invalid_input(msg)
}

#[verifier::external_type_specification]
#[verifier::external_body]
pub struct ExDocument(lopdf::Document);

/// What a loaded PDF document gives, as values: its page count, and for
/// each page the text `lopdf` extracts from it or the text of the error.
pub type PdfModel = (nat, spec_fn(u32) -> Result<Seq<char>, Seq<char>>);

/// Whether loading `bytes` with `lopdf` can give `outcome`: a document
/// with the given page count and page texts, or the text of an error.
/// (Loading may parse objects in parallel, so the same bytes may admit more
/// than one outcome.)
pub uninterp spec fn pdf_load_admits(bytes: Seq<u8>, outcome: Result<PdfModel, Seq<char>>) -> bool;

/// A loaded PDF document; its view is what it gives (see `PdfModel`).
struct PdfDocument {
    document: lopdf::Document,
    model: Ghost<PdfModel>,
}

impl View for PdfDocument {
    type V = PdfModel;

    closed spec fn view(&self) -> PdfModel {
        self.model@
    }
}

/// The outcome a load stands for.
pub open spec fn load_outcome(res: Result<PdfDocument, String>) -> Result<PdfModel, Seq<char>> {
    match res {
        Ok(d) => Ok(d@),
        Err(e) => Err(e@),
    }
}

/// Reads a PDF document from its bytes, or gives the text of the error.
///
/// Trusted: calls `lopdf::Document::load_mem` on the bytes and turns an
/// error into its `Display` text; what comes back is one of the outcomes
/// loading these bytes admits (`pdf_load_admits`). The document's view
/// stands for what the loaded document gives, which `pdf_page_count` and
/// `pdf_page_text` read back.
#[verifier::external_body]
fn load_pdf(bytes: &[u8]) -> (res: Result<PdfDocument, String>)
    ensures
        pdf_load_admits(bytes@, load_outcome(res)),
{
    match lopdf::Document::load_mem(bytes) {
        Ok(document) => Ok(PdfDocument { document, model: Ghost(arbitrary()) }),
        Err(error) => Err(error.to_string()),
    }
}

/// The number of pages of a PDF document.
///
/// Trusted: calls `lopdf::Document::get_pages` on the loaded document and
/// takes the size of the map, which is the count the document's view
/// records.
#[verifier::external_body]
fn pdf_page_count(document: &PdfDocument) -> (res: usize)
    ensures
        res == document@.0,
{
    document.document.get_pages().len()
}

/// The characters of a text result.
pub open spec fn text_result(r: Result<String, String>) -> Result<Seq<char>, Seq<char>> {
    match r {
        Ok(t) => Ok(t@),
        Err(e) => Err(e@),
    }
}

/// The text of one page of a PDF document, or the text of the error.
///
/// Trusted: calls `lopdf::Document::extract_text` on the loaded document
/// for the one page and turns an error into its `Display` text; the result
/// is the one the document's view records for the page.
#[verifier::external_body]
fn pdf_page_text(document: &PdfDocument, page: u32) -> (res: Result<String, String>)
    ensures
        text_result(res) == (document@.1)(page),
{
    document.document.extract_text(&[page]).map_err(|error| error.to_string())
}

/// The list of the pages of `set` in increasing order.
pub open spec fn ordered_pages(set: Set<u32>) -> Seq<u32> {
    choose|v: Seq<u32>| lists_in_order(v, set)
}

/// There is one list of the pages of a set in increasing order.
proof fn lemma_lists_in_order_unique(a: Seq<u32>, b: Seq<u32>, set: Set<u32>)
    requires
        lists_in_order(a, set),
        lists_in_order(b, set),
    ensures
        a == b,
{
    lemma_ordered_list_len(a, set);
    lemma_ordered_list_len(b, set);
    if a.len() > 0 {
        lemma_lists_in_order_prefix(a, b, set, a.len() - 1);
    }
    assert(a =~= b);
}

proof fn lemma_lists_in_order_prefix(a: Seq<u32>, b: Seq<u32>, set: Set<u32>, i: int)
    requires
        lists_in_order(a, set),
        lists_in_order(b, set),
        a.len() == b.len(),
        0 <= i < a.len(),
    ensures
        forall|k: int| 0 <= k <= i ==> a[k] == b[k],
    decreases i,
{
    if i > 0 {
        lemma_lists_in_order_prefix(a, b, set, i - 1);
    }
    assert(set.contains(a[i]));
    let j = choose|j: int| 0 <= j < b.len() && b[j] == a[i];
    assert(set.contains(b[i]));
    let j2 = choose|j2: int| 0 <= j2 < a.len() && a[j2] == b[i];
    if j < i {
        assert(a[j] == b[j]);
    }
    if j2 < i {
        assert(a[j2] == b[j2]);
    }
    if j > i && j2 > i {
        assert(b[i] < b[j]);
        assert(a[i] < a[j2]);
    }
}

/// The pages of `list`, each with the text extracted from it, or the first
/// page whose extraction fails, with the error.
pub open spec fn extract_pages(text_of: spec_fn(u32) -> Result<Seq<char>, Seq<char>>, list: Seq<u32>) -> Result<
    Seq<(u32, Seq<char>)>,
    (u32, Seq<char>),
>
    decreases list.len(),
{
    if list.len() == 0 {
        Ok(Seq::empty())
    } else {
        match extract_pages(text_of, list.drop_last()) {
            Err(failed) => Err(failed),
            Ok(done) => match text_of(list.last()) {
                Ok(t) => Ok(done.push((list.last(), t))),
                Err(e) => Err((list.last(), e)),
            },
        }
    }
}

proof fn lemma_extract_err_stays(
    text_of: spec_fn(u32) -> Result<Seq<char>, Seq<char>>,
    list: Seq<u32>,
    i: int,
)
    requires
        0 <= i <= list.len(),
        extract_pages(text_of, list.take(i)) is Err,
    ensures
        extract_pages(text_of, list) == extract_pages(text_of, list.take(i)),
    decreases list.len() - i,
{
    if i < list.len() {
        assert(list.take(i + 1).drop_last() =~= list.take(i));
        lemma_extract_err_stays(text_of, list, i + 1);
    } else {
        assert(list.take(i) =~= list);
    }
}

/// The error for bytes that cannot be read as a PDF document.
pub open spec fn load_message(path: Seq<char>, error: Seq<char>) -> Seq<char> {
    "Failed to read PDF "@ + path + ": "@ + error
}

/// What Read gives for a PDF document, given what loading it gave (a
/// document with its page count and the text extracted from each page, or
/// the error):
/// the error of loading; `None` for a page range given for a document of
/// more pages than fit in a `u32`, where no page range can be read; the
/// error of the page selection; the error of the first selected page whose
/// text cannot be extracted; or the selected pages in increasing order,
/// each with its text.
pub open spec fn pdf_read_outcome(
    path: Seq<char>,
    pages: Option<Seq<char>>,
    loaded: Result<PdfModel, Seq<char>>,
) -> Option<Result<Seq<char>, Seq<char>>> {
    match loaded {
        Err(e) => Some(Err(load_message(path, e))),
        Ok((total, text_of)) => {
            if total > u32::MAX && pages is Some {
                None
            } else {
                match selection_outcome(path, total, pages) {
                    Err(m) => Some(Err(m)),
                    Ok(set) => match extract_pages(text_of, ordered_pages(set)) {
                        Ok(done) => Some(Ok(render_pages(done))),
                        Err(failed) => Some(Err(extraction_message(failed.0, path, failed.1))),
                    },
                }
            }
        },
    }
}

/// Whether `res` is the outcome `out`, an error as invalid input.
pub open spec fn pdf_result_is(res: Option<Result<String, LiteCodeError>>, out: Option<
    Result<Seq<char>, Seq<char>>,
>) -> bool {
    match out {
        None => res is None,
        Some(Ok(t)) => res matches Some(Ok(text)) && text@ == t,
        Some(Err(m)) => res matches Some(Err(e)) && is_invalid_input(e, m),
    }
}

/// The error for bytes that cannot be read as a PDF document.
fn load_error(path: &str, error: &str) -> (res: LiteCodeError)
    ensures
        is_invalid_input(res, load_message(path@, error@)),
{
    let mut msg = String::new();
    push_str(&mut msg, "Failed to read PDF ");
    push_str(&mut msg, path);
    push_str(&mut msg, ": ");
    push_str(&mut msg, error);
    LiteCodeError::invalid_input(msg)
}

/// The text Read shows of the PDF document held by `bytes`: the outcome
/// (see `pdf_read_outcome`) of one of the loads these bytes admit.
pub fn read_pdf_text(bytes: &[u8], path: &str, pages: Option<&str>) -> (res: Option<
    Result<String, LiteCodeError>,
>)
    ensures
        exists|loaded: Result<PdfModel, Seq<char>>|
            #[trigger] pdf_load_admits(bytes@, loaded) && pdf_result_is(
                res,
                pdf_read_outcome(path@, opt_spec(pages), loaded),
            ),
{
    let loaded = load_pdf(bytes);
    let ghost outcome = load_outcome(loaded);
    let document = match loaded {
        Ok(d) => d,
        Err(error) => {
            let res = Some(Err(load_error(path, error.as_str())));
            assert(pdf_result_is(res, pdf_read_outcome(path@, opt_spec(pages), outcome)));
            return res;
        },
    };
    let total = pdf_page_count(&document);
    if total > u32::MAX as usize && pages.is_some() {
        assert(pdf_result_is(None, pdf_read_outcome(path@, opt_spec(pages), outcome)));
        return None;
    }
    let selected = match pdf_page_selection(path, total, pages) {
        Ok(v) => v,
        Err(e) => {
            let res = Some(Err(e));
            assert(pdf_result_is(res, pdf_read_outcome(path@, opt_spec(pages), outcome)));
            return res;
        },
    };
    let ghost set = selection_outcome(path@, total as nat, opt_spec(pages))->Ok_0;
    let ghost list = selected@;
    let ghost text_of = document@.1;
    proof {
        lemma_lists_in_order_unique(ordered_pages(set), list, set);
    }
    let mut extracted: Vec<(u32, String)> = Vec::new();
    let mut i: usize = 0;
    assert(list.take(0) =~= Seq::<u32>::empty());
    assert(extracted@.map_values(|e: (u32, String)| (e.0, e.1@)) =~= Seq::<
        (u32, Seq<char>),
    >::empty());
    while i < selected.len()
        invariant
            i <= selected.len(),
            list == selected@,
            outcome == Ok::<PdfModel, Seq<char>>(document@),
            text_of == document@.1,
            total == document@.0,
            pdf_load_admits(bytes@, outcome),
            !(total > u32::MAX && pages is Some),
            selection_outcome(path@, total as nat, opt_spec(pages)) == Ok::<Set<u32>, Seq<char>>(
                set,
            ),
            ordered_pages(set) == list,
            extract_pages(text_of, list.take(i as int)) == Ok::<
                Seq<(u32, Seq<char>)>,
                (u32, Seq<char>),
            >(extracted@.map_values(|e: (u32, String)| (e.0, e.1@))),
        decreases selected.len() - i,
    {
        let page = selected[i];
        let result = pdf_page_text(&document, page);
        proof {
            assert(list.take(i + 1).drop_last() =~= list.take(i as int));
            assert(list.take(i + 1).last() == page);
        }
        match result {
            Ok(text) => {
                let ghost pv = extracted@.map_values(|e: (u32, String)| (e.0, e.1@));
                let ghost tv = text@;
                extracted.push((page, text));
                assert(extracted@.map_values(|e: (u32, String)| (e.0, e.1@)) =~= pv.push(
                    (page, tv),
                ));
            },
            Err(error) => {
                proof {
                    assert(extract_pages(text_of, list.take(i + 1)) == Err::<
                        Seq<(u32, Seq<char>)>,
                        (u32, Seq<char>),
                    >((page, error@)));
                    lemma_extract_err_stays(text_of, list, i + 1);
                }
                let res = Some(Err(extraction_error(page, path, error.as_str())));
                assert(pdf_result_is(res, pdf_read_outcome(path@, opt_spec(pages), outcome)));
                return res;
            },
        }
        i = i + 1;
    }
    assert(list.take(i as int) =~= list);
    let text = render_pdf_pages(&extracted);
    let res = Some(Ok(text));
    assert(pdf_result_is(res, pdf_read_outcome(path@, opt_spec(pages), outcome)));
    res
}

} // verus!
