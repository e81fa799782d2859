//! Properties of the library that span its functions.

use vstd::prelude::*;

use crate::escapes::{
    all_hex, combine_surrogates, hex_number, parse_u16_hex, hex_value, byte_at, decode_escapes, decode_from, escape_code_point, escape_starts, msg_split, Step,
};
use crate::file_service::{
    ascii_lower, eq_ignore_ascii_case, image_mime, edit_needs_read_message, edit_request_outcome, empty_file_warning, not_absolute_message,
    text_read, FileService, PathKey,
};
use crate::glob::{
    entry_views, glob_order, glob_result, glob_sorted, lemma_glob_order_total, GlobEntry, GLOB_LIMIT,
};
use crate::grep::window;
use crate::pdf::{all_digits, dec_number, page_ranges, part_range, parts_pages};
use crate::json::{
    field_index, get_field, jfield_index, jfields, jget, jitems, jremove, jset, jset_if_absent, jslot_from, jv,
    lemma_field_index_found, lemma_field_index_j, lemma_jfields, lemma_jitems, Json, JsonValue,
};
use crate::notebook::{
    cell_id_of, cell_not_found_message, cells_edit, notebook_edit, with_cells, chosen_type, kind_text, resolve_cell,
    source_json, first_with_id, insert_index,
    insert_needs_type_message, insert_range_message, missing_target_message,
    number_range_message, opt_nat, opt_text, shaped, truncate_output, EditOutcome,
};
use crate::paths::{extension_of, is_absolute, join_path, path_key};
use crate::replace::{count_matches, replace_all, replace_first};
use crate::schema::{EditInput, NotebookCellType, NotebookEditInput, NotebookEditMode};
use crate::task_manager::{lemma_task_index, task_id, task_index};
use crate::process::{pwd_marker, split_working_dir, trim_newlines_end};
use crate::text::{
    concat, contains_seq, dec, digit_char, hex4, hex_char, has_prefix, is_ws, join, last_occurrence,
    lemma_dec_nonempty, lemma_split_len, lines, occurs_at, split, split_inclusive_nl, strip_cr, trim,
    trim_end, trim_start,
};

verus! {

// ---------------------------------------------------------------------------
// Unicode escapes
// ---------------------------------------------------------------------------

proof fn lemma_decode_plain_from(s: Seq<char>, i: int)
    requires
        0 <= i <= s.len(),
        forall|j: int| !escape_starts(s, j),
    ensures
        decode_from(s, i) == Step::Value(s.skip(i)),
    decreases s.len() - i,
{
    if i < s.len() {
        lemma_decode_plain_from(s, i + 1);
        assert(seq![s[i]] + s.skip(i + 1) =~= s.skip(i));
    } else {
        assert(s.skip(i) =~= Seq::<char>::empty());
    }
}

/// Decoding escapes leaves a text without `\u` as it is.
pub proof fn law_decode_without_escapes(s: Seq<char>)
    requires
        forall|j: int| !escape_starts(s, j),
    ensures
        decode_escapes(s) == Step::Value(s),
{
    lemma_decode_plain_from(s, 0);
    assert(s.skip(0) =~= s);
}

/// Whether the escape starting at character `j` of `s` is malformed, with
/// error text `m`.
pub open spec fn malformed_escape_at(s: Seq<char>, j: int, m: Seq<char>) -> bool {
    &&& escape_starts(s, j)
    &&& match escape_code_point(s, j) {
        Step::Failure(e) => e == m,
        Step::Value((_, k)) => !(j < k <= s.len()) && m == msg_split(byte_at(s, j)),
    }
}

proof fn lemma_failure_from_escape(s: Seq<char>, i: int)
    ensures
        decode_from(s, i) is Failure ==> exists|j: int|
            i <= j && #[trigger] malformed_escape_at(s, j, decode_from(s, i)->Failure_0),
    decreases s.len() - i,
{
    if 0 <= i < s.len() {
        if escape_starts(s, i) {
            match escape_code_point(s, i) {
                Step::Value((cp, j)) => {
                    if !(i < j <= s.len()) {
                        assert(malformed_escape_at(s, i, decode_from(s, i)->Failure_0));
                    }
                    if i < j <= s.len() {
                        lemma_failure_from_escape(s, j);
                        if decode_from(s, j) is Failure {
                            let m = decode_from(s, j)->Failure_0;
                            assert(decode_from(s, i) == Step::<Seq<char>>::Failure(m));
                            let k = choose|k: int| j <= k && #[trigger] malformed_escape_at(s, k, m);
                            assert(i <= k && malformed_escape_at(s, k, decode_from(s, i)->Failure_0));
                        }
                    }
                },
                Step::Failure(m) => {
                    assert(decode_from(s, i) == Step::<Seq<char>>::Failure(m));
                    assert(malformed_escape_at(s, i, decode_from(s, i)->Failure_0));
                },
            }
        } else {
            lemma_failure_from_escape(s, i + 1);
            if decode_from(s, i + 1) is Failure {
                let m = decode_from(s, i + 1)->Failure_0;
                assert(decode_from(s, i) == Step::<Seq<char>>::Failure(m));
                let k = choose|k: int| i + 1 <= k && #[trigger] malformed_escape_at(s, k, m);
                assert(i <= k && malformed_escape_at(s, k, decode_from(s, i)->Failure_0));
            }
        }
    }
}

/// Decoding escapes fails only on a malformed `\u` escape, with that
/// escape's error; a text without `\u` decodes to itself.
pub proof fn law_decode_failure_is_malformed_escape(s: Seq<char>)
    ensures
        decode_escapes(s) matches Step::Failure(m) ==> exists|j: int|
            0 <= j && #[trigger] malformed_escape_at(s, j, m),
        (forall|j: int| !escape_starts(s, j)) ==> decode_escapes(s) == Step::Value(s),
{
    lemma_failure_from_escape(s, 0);
    if forall|j: int| !escape_starts(s, j) {
        law_decode_without_escapes(s);
    }
}

/// The digits of base 16, in either case, have their standard values: the
/// `i`-th character of `0123456789abcdef`, and of `0123456789ABCDEF`, is
/// worth `i`; so a digit is worth the same in lower and upper case.
pub proof fn law_hex_digit_values(i: int)
    requires
        0 <= i < 16,
    ensures
        hex_value("0123456789abcdef"@[i]) == Some(i as nat),
        hex_value("0123456789ABCDEF"@[i]) == Some(i as nat),
        hex_value("0123456789abcdef"@[i]) == hex_value("0123456789ABCDEF"@[i]),
{
    reveal_strlit("0123456789abcdef");
    reveal_strlit("0123456789ABCDEF");
    let lo = "0123456789abcdef"@;
    let up = "0123456789ABCDEF"@;
    if i < 10 {
        assert(lo[i] as u32 == 48 + i);
        assert(up[i] as u32 == 48 + i);
    } else {
        assert(lo[i] as u32 == 87 + i);
        assert(up[i] as u32 == 55 + i);
    }
}

// ---------------------------------------------------------------------------
// Replacement
// ---------------------------------------------------------------------------

/// Replacing a pattern that does not occur changes nothing.
pub proof fn law_replace_absent(s: Seq<char>, p: Seq<char>, r: Seq<char>)
    requires
        p.len() > 0,
        count_matches(s, p) == 0,
    ensures
        replace_all(s, p, r) == s,
        replace_first(s, p, r) == s,
    decreases s.len(),
{
    if s.len() >= p.len() && !has_prefix(s, p) {
        law_replace_absent(s.drop_first(), p, r);
        assert(seq![s[0]] + s.drop_first() =~= s);
    }
}

/// Replacing the first occurrence of a pattern keeps every character
/// before and after it as it was.
pub proof fn law_replace_first_keeps_rest(s: Seq<char>, p: Seq<char>, r: Seq<char>, k: int)
    requires
        p.len() > 0,
        occurs_at(s, p, k),
        forall|j: int| 0 <= j < k ==> !occurs_at(s, p, j),
    ensures
        replace_first(s, p, r) == s.take(k) + r + s.skip(k + p.len()),
    decreases k,
{
    if k == 0 {
        assert(s.take(p.len() as int) =~= s.subrange(0, p.len() as int));
        assert(s.take(0) + r + s.skip(p.len() as int) =~= r + s.skip(p.len() as int));
    } else {
        let t = s.drop_first();
        assert(!occurs_at(s, p, 0));
        assert(!has_prefix(s, p)) by {
            if has_prefix(s, p) {
                assert(s.subrange(0, p.len() as int) =~= s.take(p.len() as int));
            }
        }
        assert(t.subrange(k - 1, k - 1 + p.len()) =~= s.subrange(k, k + p.len()));
        assert forall|j: int| 0 <= j < k - 1 implies !occurs_at(t, p, j) by {
            if occurs_at(t, p, j) {
                assert(t.subrange(j, j + p.len()) =~= s.subrange(j + 1, j + 1 + p.len()));
                assert(occurs_at(s, p, j + 1));
            }
        }
        law_replace_first_keeps_rest(t, p, r, k - 1);
        assert(seq![s[0]] + (t.take(k - 1) + r + t.skip(k - 1 + p.len())) =~= s.take(k) + r
            + s.skip(k + p.len()));
    }
}

/// Without escape decoding, an Edit is refused when the new text equals
/// the old, when its path is not absolute, and when its file was not read
/// (or written or edited) before; otherwise it goes on with its path and
/// texts as given.
pub proof fn law_edit_checks(read: Set<PathKey>, input: EditInput)
    requires
        !input.decode_unicode_escapes,
    ensures
        input.old_string@ == input.new_string@ ==> edit_request_outcome(read, input) == Err::<
            (Seq<char>, Seq<char>, Seq<char>),
            Seq<char>,
        >("new_string must differ from old_string."@),
        input.old_string@ != input.new_string@ && !is_absolute(input.file_path@)
            ==> edit_request_outcome(read, input) == Err::<
            (Seq<char>, Seq<char>, Seq<char>),
            Seq<char>,
        >(not_absolute_message(input.file_path@)),
        input.old_string@ != input.new_string@ && is_absolute(input.file_path@) && !read.contains(
            path_key(input.file_path@),
        ) ==> edit_request_outcome(read, input) == Err::<
            (Seq<char>, Seq<char>, Seq<char>),
            Seq<char>,
        >(edit_needs_read_message(input.file_path@)),
        input.old_string@ != input.new_string@ && is_absolute(input.file_path@) && read.contains(
            path_key(input.file_path@),
        ) ==> edit_request_outcome(read, input) == Ok::<
            (Seq<char>, Seq<char>, Seq<char>),
            Seq<char>,
        >((input.file_path@, input.old_string@, input.new_string@)),
{
}

/// Replacing every occurrence of a pattern: the text up to the first
/// occurrence is kept, that occurrence becomes the replacement, and every
/// occurrence in the rest is replaced the same way.
pub proof fn law_replace_all_at_first(s: Seq<char>, p: Seq<char>, r: Seq<char>, k: int)
    requires
        p.len() > 0,
        occurs_at(s, p, k),
        forall|j: int| 0 <= j < k ==> !occurs_at(s, p, j),
    ensures
        replace_all(s, p, r) == s.take(k) + r + replace_all(s.skip(k + p.len()), p, r),
    decreases k,
{
    if k == 0 {
        assert(s.take(p.len() as int) =~= s.subrange(0, p.len() as int));
        assert(s.take(0) + r + replace_all(s.skip(p.len() as int), p, r) =~= r + replace_all(
            s.skip(p.len() as int),
            p,
            r,
        ));
    } else {
        let t = s.drop_first();
        assert(!occurs_at(s, p, 0));
        assert(!has_prefix(s, p)) by {
            if has_prefix(s, p) {
                assert(s.subrange(0, p.len() as int) =~= s.take(p.len() as int));
            }
        }
        assert(t.subrange(k - 1, k - 1 + p.len()) =~= s.subrange(k, k + p.len()));
        assert forall|j: int| 0 <= j < k - 1 implies !occurs_at(t, p, j) by {
            if occurs_at(t, p, j) {
                assert(t.subrange(j, j + p.len()) =~= s.subrange(j + 1, j + 1 + p.len()));
                assert(occurs_at(s, p, j + 1));
            }
        }
        law_replace_all_at_first(t, p, r, k - 1);
        assert(t.skip(k - 1 + p.len()) =~= s.skip(k + p.len()));
        assert(seq![s[0]] + (t.take(k - 1) + r + replace_all(s.skip(k + p.len()), p, r))
            =~= s.take(k) + r + replace_all(s.skip(k + p.len()), p, r));
    }
}

/// Replacing every occurrence of a non-empty pattern changes the length by
/// the change of each replaced occurrence, once per occurrence.
pub proof fn law_replace_all_length(s: Seq<char>, p: Seq<char>, r: Seq<char>)
    requires
        p.len() > 0,
    ensures
        replace_all(s, p, r).len() + count_matches(s, p) * p.len() == s.len() + count_matches(s, p)
            * r.len(),
    decreases s.len(),
{
    if s.len() >= p.len() {
        if has_prefix(s, p) {
            let rest = s.skip(p.len() as int);
            law_replace_all_length(rest, p, r);
            let c = count_matches(rest, p);
            assert((1 + c) * p.len() == p.len() + c * p.len()) by (nonlinear_arith);
            assert((1 + c) * r.len() == r.len() + c * r.len()) by (nonlinear_arith);
            assert(count_matches(s, p) == 1 + c);
            assert(replace_all(s, p, r) == r + replace_all(rest, p, r));
            assert(rest.len() == s.len() - p.len());
        } else {
            law_replace_all_length(s.drop_first(), p, r);
            assert(count_matches(s, p) == count_matches(s.drop_first(), p));
            assert(replace_all(s, p, r) == seq![s[0]] + replace_all(s.drop_first(), p, r));
        }
    } else {
        assert(count_matches(s, p) == 0);
        assert(replace_all(s, p, r) == s);
        assert(0 * p.len() == 0 && 0 * r.len() == 0) by (nonlinear_arith);
    }
}

/// Where a pattern occurs once, replacing the first occurrence and
/// replacing all of them give the same text.
pub proof fn law_single_match_replace(s: Seq<char>, p: Seq<char>, r: Seq<char>)
    requires
        p.len() > 0,
        count_matches(s, p) == 1,
    ensures
        replace_first(s, p, r) == replace_all(s, p, r),
    decreases s.len(),
{
    if s.len() >= p.len() {
        if has_prefix(s, p) {
            law_replace_absent(s.skip(p.len() as int), p, r);
        } else {
            law_single_match_replace(s.drop_first(), p, r);
        }
    }
}

// ---------------------------------------------------------------------------
// Read before write
// ---------------------------------------------------------------------------

/// Once a path has been read, it and every path naming the same file
/// (`path_key`) count as read, so Write and Edit accept them.
pub proof fn law_read_then_write(before: FileService, after: FileService, read: Seq<char>, written: Seq<char>)
    requires
        after.read_set() == before.read_set().insert(path_key(read)),
        path_key(written) == path_key(read),
    ensures
        after.read_set().contains(path_key(written)),
{
}

/// Reading a path never forgets the paths read before.
pub proof fn law_read_keeps_earlier(before: FileService, after: FileService, read: Seq<char>, earlier: Seq<char>)
    requires
        after.read_set() == before.read_set().insert(path_key(read)),
        before.read_set().contains(path_key(earlier)),
    ensures
        after.read_set().contains(path_key(earlier)),
{
}

// ---------------------------------------------------------------------------
// Task ids
// ---------------------------------------------------------------------------

proof fn lemma_digit_char_injective(a: int, b: int)
    requires
        0 <= a < 10,
        0 <= b < 10,
        digit_char(a) == digit_char(b),
    ensures
        a == b,
{
    assert(digit_char(a) as u32 == 48 + a);
    assert(digit_char(b) as u32 == 48 + b);
}

/// Different numbers are written differently.
pub proof fn lemma_dec_injective(a: nat, b: nat)
    requires
        dec(a) == dec(b),
    ensures
        a == b,
    decreases a + b,
{
    if a < 10 && b < 10 {
        assert(dec(a) == seq![digit_char(a as int)]);
        assert(dec(b) == seq![digit_char(b as int)]);
        assert(dec(a)[0] == dec(b)[0]);
        assert(digit_char(a as int) == dec(a)[0]);
        assert(digit_char(b as int) == dec(b)[0]);
        lemma_digit_char_injective(a as int, b as int);
    } else if a < 10 {
        lemma_dec_nonempty(b / 10);
        assert(dec(b).len() >= 2);
    } else if b < 10 {
        lemma_dec_nonempty(a / 10);
        assert(dec(a).len() >= 2);
    } else {
        assert(dec(a) == dec(a / 10).push(digit_char((a % 10) as int)));
        assert(dec(b) == dec(b / 10).push(digit_char((b % 10) as int)));
        assert(dec(a).last() == dec(b).last());
        assert(digit_char((a % 10) as int) == dec(a).last());
        assert(digit_char((b % 10) as int) == dec(b).last());
        lemma_digit_char_injective((a % 10) as int, (b % 10) as int);
        assert(dec(a).drop_last() =~= dec(a / 10));
        assert(dec(b).drop_last() =~= dec(b / 10));
        lemma_dec_injective(a / 10, b / 10);
    }
}

/// Tasks registered at different times get different ids.
pub proof fn law_task_ids_distinct(a: nat, b: nat)
    requires
        a != b,
    ensures
        task_id(a) != task_id(b),
{
    if task_id(a) == task_id(b) {
        reveal_strlit("task-");
        assert(task_id(a).skip(5) =~= dec(a));
        assert(task_id(b).skip(5) =~= dec(b));
        lemma_dec_injective(a, b);
    }
}

/// With `count` tasks registered, `task-k` names the `k`-th task
/// registered, for every `k` from 1 to `count`: the id a registration gives
/// is the id under which TaskOutput, TaskStop and the end of the task find
/// it again.
pub proof fn law_registered_id_names_its_task(count: nat, k: nat)
    requires
        1 <= k <= count,
    ensures
        task_index(count, task_id(k)) == Some(k - 1),
{
    assert forall|j: int| 0 <= j < k - 1 implies #[trigger] task_id((j + 1) as nat) != task_id(k) by {
        law_task_ids_distinct((j + 1) as nat, k);
    }
    lemma_task_index(count, task_id(k), k - 1);
}

/// The `m`-th registration of a run: the count grows by one and the id is
/// `task_id` of the new count, as `register_shell_task` states.
pub open spec fn registration_step(counts: Seq<nat>, ids: Seq<Seq<char>>, m: int) -> bool {
    counts[m + 1] == counts[m] + 1 && ids[m] == task_id(counts[m + 1])
}

/// Registrations one after another, starting with no task: then the `j`-th
/// registration (from 0) gives `task-(j + 1)`, and no two give the same id.
pub proof fn law_registration_sequence(counts: Seq<nat>, ids: Seq<Seq<char>>)
    requires
        counts.len() == ids.len() + 1,
        counts[0] == 0,
        forall|m: int| 0 <= m < ids.len() ==> #[trigger] registration_step(counts, ids, m),
    ensures
        forall|j: int| 0 <= j < ids.len() ==> #[trigger] ids[j] == task_id((j + 1) as nat),
        forall|a: int, b: int| 0 <= a < b < ids.len() ==> #[trigger] ids[a] != #[trigger] ids[b],
{
    assert forall|j: int| 0 <= j < ids.len() implies #[trigger] ids[j] == task_id((j + 1) as nat) by {
        lemma_counts_step(counts, ids, j + 1);
        assert(registration_step(counts, ids, j));
    }
    assert forall|a: int, b: int| 0 <= a < b < ids.len() implies #[trigger] ids[a]
        != #[trigger] ids[b] by {
        lemma_counts_step(counts, ids, a + 1);
        lemma_counts_step(counts, ids, b + 1);
        assert(registration_step(counts, ids, a));
        assert(registration_step(counts, ids, b));
        law_task_ids_distinct((a + 1) as nat, (b + 1) as nat);
    }
}

proof fn lemma_counts_step(counts: Seq<nat>, ids: Seq<Seq<char>>, j: int)
    requires
        counts.len() == ids.len() + 1,
        counts[0] == 0,
        forall|m: int| 0 <= m < ids.len() ==> #[trigger] registration_step(counts, ids, m),
        0 <= j < counts.len(),
    ensures
        counts[j] == j,
    decreases j,
{
    if j > 0 {
        lemma_counts_step(counts, ids, j - 1);
        assert(registration_step(counts, ids, j - 1));
    }
}

// ---------------------------------------------------------------------------
// Notebook edits
// ---------------------------------------------------------------------------

/// Deleting, by number, the cell an insert put in gives back the cells as
/// they were before the insert.
pub proof fn law_delete_undoes_insert(
    cells: Seq<JsonValue>,
    inserted: Seq<JsonValue>,
    insert: NotebookEditInput,
    delete: NotebookEditInput,
    new_id: Seq<char>,
    other_id: Seq<char>,
)
    requires
        insert.edit_mode == NotebookEditMode::Insert,
        cells_edit(cells, insert, new_id) matches EditOutcome::Done(c, _) && jitems(inserted) == c,
        delete.edit_mode == NotebookEditMode::Delete,
        delete.cell_id is None,
        delete.cell_number matches Some(n) && insert_index(
            cells,
            opt_text(insert.cell_id),
            opt_nat(insert.cell_number),
        ) == Ok::<nat, Seq<char>>(n as nat),
    ensures
        cells_edit(inserted, delete, other_id) matches EditOutcome::Done(c2, id) && c2 == jitems(
            cells,
        ) && id is None,
{
    lemma_jitems(cells);
    lemma_jitems(inserted);
    crate::notebook::lemma_insert_index_bound(
        cells,
        opt_text(insert.cell_id),
        opt_nat(insert.cell_number),
    );
    let n = delete.cell_number->0;
    let c = match cells_edit(cells, insert, new_id) {
        EditOutcome::Done(c, _) => c,
        _ => jitems(cells),
    };
    assert(inserted.len() == cells.len() + 1);
    assert(n < inserted.len());
    match cells_edit(inserted, delete, other_id) {
        EditOutcome::Done(c2, _) => {
            assert(c2 =~= c.remove(n as int));
            assert(c.remove(n as int) =~= jitems(cells));
        },
        _ => {},
    }
}

/// The id of a cell, as a value.
pub open spec fn jcell_id(c: Json) -> Option<Seq<char>> {
    match jget(c, "id"@) {
        Some(Json::Str(s)) => Some(s),
        _ => None,
    }
}

/// A cell's id depends on its value alone.
proof fn lemma_cell_id_of_value(cell: JsonValue)
    ensures
        cell_id_of(cell) == jcell_id(jv(cell)),
{
    match cell {
        JsonValue::Object(fields) => {
            lemma_field_index_j(fields@, "id"@);
            lemma_field_index_found(fields@, "id"@);
            lemma_jfields(fields@);
        },
        _ => {},
    }
}

/// Where the first cell with an id stands: no cell before it has the id.
proof fn lemma_first_with_id_char(cells: Seq<JsonValue>, id: Seq<char>)
    ensures
        first_with_id(cells, id) matches Some(i) ==> 0 <= i < cells.len() && cell_id_of(cells[i])
            == Some(id) && forall|j: int| 0 <= j < i ==> #[trigger] cell_id_of(cells[j]) != Some(id),
        first_with_id(cells, id) is None ==> forall|j: int|
            0 <= j < cells.len() ==> #[trigger] cell_id_of(cells[j]) != Some(id),
    decreases cells.len(),
{
    if cells.len() > 0 {
        lemma_first_with_id_char(cells.drop_last(), id);
        assert forall|j: int| 0 <= j < cells.len() - 1 implies #[trigger] cells[j]
            == cells.drop_last()[j] by {}
    }
}

proof fn lemma_first_with_id_is(cells: Seq<JsonValue>, id: Seq<char>, i: int)
    requires
        0 <= i < cells.len(),
        cell_id_of(cells[i]) == Some(id),
        forall|j: int| 0 <= j < i ==> #[trigger] cell_id_of(cells[j]) != Some(id),
    ensures
        first_with_id(cells, id) == Some(i),
{
    lemma_first_with_id_char(cells, id);
    match first_with_id(cells, id) {
        Some(k) => {
            if k < i {
                assert(cell_id_of(cells[k]) != Some(id));
            }
            if k > i {
                assert(cell_id_of(cells[i]) != Some(id));
            }
        },
        None => {
            assert(cell_id_of(cells[i]) != Some(id));
        },
    }
}

/// Deleting, by its id, the cell an insert put in gives back the cells as
/// they were before the insert, where no cell had that id before.
pub proof fn law_delete_by_id_undoes_insert(
    cells: Seq<JsonValue>,
    inserted: Seq<JsonValue>,
    insert: NotebookEditInput,
    delete: NotebookEditInput,
    new_id: Seq<char>,
    other_id: Seq<char>,
)
    requires
        insert.edit_mode == NotebookEditMode::Insert,
        cells_edit(cells, insert, new_id) matches EditOutcome::Done(c, _) && jitems(inserted) == c,
        first_with_id(cells, new_id) is None,
        delete.edit_mode == NotebookEditMode::Delete,
        opt_text(delete.cell_id) == Some(new_id),
        delete.cell_number is None,
    ensures
        cells_edit(inserted, delete, other_id) matches EditOutcome::Done(c2, id) && c2 == jitems(
            cells,
        ) && id is None,
{
    law_inserted_cell_has_reported_id(cells, insert, new_id);
    lemma_jitems(cells);
    lemma_jitems(inserted);
    crate::notebook::lemma_insert_index_bound(
        cells,
        opt_text(insert.cell_id),
        opt_nat(insert.cell_number),
    );
    lemma_first_with_id_char(cells, new_id);
    let i = insert_index(cells, opt_text(insert.cell_id), opt_nat(insert.cell_number))->Ok_0;
    let c = jitems(inserted);
    assert(c.len() == cells.len() + 1);
    assert forall|j: int| 0 <= j < i implies #[trigger] cell_id_of(inserted[j]) != Some(new_id) by {
        lemma_cell_id_of_value(inserted[j]);
        lemma_cell_id_of_value(cells[j]);
        assert(jv(inserted[j]) == c[j]);
        assert(c[j] == jitems(cells)[j]);
    }
    lemma_cell_id_of_value(inserted[i as int]);
    assert(jv(inserted[i as int]) == c[i as int]);
    lemma_first_with_id_is(inserted, new_id, i as int);
    assert(c.remove(i as int) =~= jitems(cells));
}

/// Where an insert puts the new cell: first when it names nothing; right
/// after the cell with the id it names; at the number it names, up to the
/// number of cells.
pub proof fn law_insert_index_cases(cells: Seq<JsonValue>, id: Seq<char>, n: nat)
    ensures
        insert_index(cells, None, None) == Ok::<nat, Seq<char>>(0),
        first_with_id(cells, id) matches Some(i) ==> insert_index(cells, Some(id), None) == Ok::<
            nat,
            Seq<char>,
        >((i + 1) as nat),
        n <= cells.len() ==> insert_index(cells, None, Some(n)) == Ok::<nat, Seq<char>>(n),
        n > cells.len() ==> insert_index(cells, None, Some(n)) == Err::<nat, Seq<char>>(
            insert_range_message(cells.len()),
        ),
{
}

/// The name an edit mode has in the error messages of replace and delete.
pub open spec fn mode_word(mode: NotebookEditMode) -> Seq<char> {
    match mode {
        NotebookEditMode::Replace => "replace"@,
        NotebookEditMode::Insert => "insert"@,
        NotebookEditMode::Delete => "delete"@,
    }
}

/// The last cell number a replace or delete may name.
pub open spec fn last_number(cells: Seq<JsonValue>) -> nat {
    if cells.len() > 0 {
        (cells.len() - 1) as nat
    } else {
        0
    }
}

/// An edit is refused, with its message, when an insert gives no cell
/// type; when a replace or delete names no cell; when it names an id that
/// no cell has; when a replace or delete names a number past the last cell;
/// and when an insert names a number past the end.
pub proof fn law_notebook_edit_refusals(cells: Seq<JsonValue>, input: NotebookEditInput, new_id: Seq<char>)
    ensures
        (input.edit_mode == NotebookEditMode::Insert && input.cell_type is None) ==> cells_edit(
            cells,
            input,
            new_id,
        ) == EditOutcome::Invalid(insert_needs_type_message()),
        (input.edit_mode != NotebookEditMode::Insert && input.cell_id is None
            && input.cell_number is None) ==> cells_edit(cells, input, new_id)
            == EditOutcome::Invalid(missing_target_message(mode_word(input.edit_mode))),
        (opt_text(input.cell_id) matches Some(x) && first_with_id(cells, x) is None && !(
        input.edit_mode == NotebookEditMode::Insert && input.cell_type is None)) ==> cells_edit(
            cells,
            input,
            new_id,
        ) == EditOutcome::Invalid(cell_not_found_message(opt_text(input.cell_id)->0)),
        (input.edit_mode != NotebookEditMode::Insert && input.cell_id is None
            && input.cell_number is Some && input.cell_number->0 >= cells.len()) ==> cells_edit(
            cells,
            input,
            new_id,
        ) == EditOutcome::Invalid(
            number_range_message(mode_word(input.edit_mode), last_number(cells)),
        ),
        (input.edit_mode == NotebookEditMode::Insert && input.cell_type is Some
            && input.cell_id is None && input.cell_number is Some && input.cell_number->0
            > cells.len())
            ==> cells_edit(cells, input, new_id) == EditOutcome::Invalid(
            insert_range_message(cells.len()),
        ),
{
}

/// A field of a value, taken as a value.
proof fn lemma_get_field_value(v: JsonValue, key: Seq<char>)
    ensures
        jget(jv(v), key) == match get_field(v, key) {
            Some(x) => Some(jv(x)),
            None => None::<Json>,
        },
{
    match v {
        JsonValue::Object(fields) => {
            lemma_field_index_j(fields@, key);
            lemma_field_index_found(fields@, key);
            lemma_jfields(fields@);
        },
        _ => {},
    }
}

/// Setting a field that already holds the value changes nothing, and a
/// field set twice holds the second value only.
proof fn lemma_set_twice(fields: Seq<(Seq<char>, Json)>, key: Seq<char>, v1: Json, v2: Json)
    requires
        jget(Json::Object(fields), key) == Some(v2),
    ensures
        jset(jset(fields, key, v1), key, v2) == fields,
{
    lemma_jfield_index_char(fields, key);
    let i = jfield_index(fields, key)->0;
    let f1 = jset(fields, key, v1);
    assert forall|j: int| 0 <= j < i implies #[trigger] f1[j].0 != key by {
        assert(f1[j] == fields[j]);
    }
    lemma_jfield_index_is(f1, key, i);
    assert(jset(f1, key, v2) =~= fields);
}

/// Deleting, by its id, the cell an insert put in gives back the whole
/// notebook as it was before the insert, where no cell had that id before.
pub proof fn law_delete_by_id_restores_notebook(
    nb: JsonValue,
    nb2: JsonValue,
    insert: NotebookEditInput,
    delete: NotebookEditInput,
    new_id: Seq<char>,
    other_id: Seq<char>,
)
    requires
        insert.edit_mode == NotebookEditMode::Insert,
        notebook_edit(nb, insert, new_id) matches EditOutcome::Done(c, _) && jv(nb2) == with_cells(
            jv(nb),
            c,
        ),
        get_field(nb, "cells"@) matches Some(JsonValue::Array(cells)) && first_with_id(
            cells@,
            new_id,
        ) is None,
        delete.edit_mode == NotebookEditMode::Delete,
        opt_text(delete.cell_id) == Some(new_id),
        delete.cell_number is None,
    ensures
        notebook_edit(nb2, delete, other_id) matches EditOutcome::Done(c2, id) && id is None
            && with_cells(jv(nb2), c2) == jv(nb),
{
    let cells = get_field(nb, "cells"@)->0->Array_0;
    let c = match notebook_edit(nb, insert, new_id) {
        EditOutcome::Done(c, _) => c,
        _ => Seq::empty(),
    };
    let f = nb->Object_0;
    let jf = jfields(f@);
    lemma_get_field_value(nb, "cells"@);
    assert(jget(jv(nb), "cells"@) == Some(Json::Array(jitems(cells@))));
    assert(jv(nb) == Json::Object(jf));
    law_get_after_set(jf, "cells"@, Json::Array(c));
    lemma_get_field_value(nb2, "cells"@);
    let cells2 = get_field(nb2, "cells"@)->0->Array_0;
    assert(jitems(cells2@) == c);
    law_delete_by_id_undoes_insert(cells@, cells2@, insert, delete, new_id, other_id);
    lemma_set_twice(jf, "cells"@, Json::Array(c), Json::Array(jitems(cells@)));
}

// ---------------------------------------------------------------------------
// JSON objects
// ---------------------------------------------------------------------------

proof fn lemma_jfield_index_char(fields: Seq<(Seq<char>, Json)>, key: Seq<char>)
    ensures
        jfield_index(fields, key) matches Some(i) ==> 0 <= i < fields.len() && fields[i].0 == key
            && forall|j: int| 0 <= j < i ==> #[trigger] fields[j].0 != key,
        jfield_index(fields, key) is None ==> forall|j: int|
            0 <= j < fields.len() ==> #[trigger] fields[j].0 != key,
    decreases fields.len(),
{
    if fields.len() > 0 {
        lemma_jfield_index_char(fields.drop_last(), key);
        assert forall|j: int| 0 <= j < fields.len() - 1 implies #[trigger] fields[j]
            == fields.drop_last()[j] by {}
    }
}

proof fn lemma_jfield_index_is(fields: Seq<(Seq<char>, Json)>, key: Seq<char>, i: int)
    requires
        0 <= i < fields.len(),
        fields[i].0 == key,
        forall|j: int| 0 <= j < i ==> #[trigger] fields[j].0 != key,
    ensures
        jfield_index(fields, key) == Some(i),
{
    lemma_jfield_index_char(fields, key);
    match jfield_index(fields, key) {
        Some(k) => {
            if k < i {
                assert(fields[k].0 != key);
            }
            if k > i {
                assert(fields[i].0 != key);
            }
        },
        None => {
            assert(fields[i].0 != key);
        },
    }
}

proof fn lemma_jfield_index_none(fields: Seq<(Seq<char>, Json)>, key: Seq<char>)
    requires
        forall|j: int| 0 <= j < fields.len() ==> #[trigger] fields[j].0 != key,
    ensures
        jfield_index(fields, key) is None,
{
    lemma_jfield_index_char(fields, key);
}

proof fn lemma_jslot_bounds(fields: Seq<(Seq<char>, Json)>, key: Seq<char>, i: int)
    requires
        0 <= i <= fields.len(),
    ensures
        i <= jslot_from(fields, key, i) <= fields.len(),
    decreases fields.len() - i,
{
    if i < fields.len() {
        lemma_jslot_bounds(fields, key, i + 1);
    }
}

/// Reading a field just set gives the value it was set to.
pub proof fn law_get_after_set(fields: Seq<(Seq<char>, Json)>, key: Seq<char>, value: Json)
    ensures
        jget(Json::Object(jset(fields, key, value)), key) == Some(value),
{
    lemma_jfield_index_char(fields, key);
    let after = jset(fields, key, value);
    match jfield_index(fields, key) {
        Some(i) => {
            assert forall|j: int| 0 <= j < i implies #[trigger] after[j].0 != key by {
                assert(after[j] == fields[j]);
            }
            lemma_jfield_index_is(after, key, i);
        },
        None => {
            let s = jslot_from(fields, key, 0);
            lemma_jslot_bounds(fields, key, 0);
            assert forall|j: int| 0 <= j < s implies #[trigger] after[j].0 != key by {
                assert(after[j] == fields[j]);
            }
            lemma_jfield_index_is(after, key, s);
        },
    }
}

/// Setting a field leaves every other field as it was.
pub proof fn law_set_keeps_other_fields(
    fields: Seq<(Seq<char>, Json)>,
    key: Seq<char>,
    value: Json,
    other: Seq<char>,
)
    requires
        other != key,
    ensures
        jget(Json::Object(jset(fields, key, value)), other) == jget(Json::Object(fields), other),
{
    lemma_jfield_index_char(fields, key);
    lemma_jfield_index_char(fields, other);
    let after = jset(fields, key, value);
    match jfield_index(fields, key) {
        Some(i) => {
            match jfield_index(fields, other) {
                Some(k) => {
                    assert forall|j: int| 0 <= j < k implies #[trigger] after[j].0 != other by {
                        if j != i {
                            assert(after[j] == fields[j]);
                        }
                    }
                    assert(after[k] == fields[k]);
                    lemma_jfield_index_is(after, other, k);
                },
                None => {
                    assert forall|j: int| 0 <= j < after.len() implies #[trigger] after[j].0
                        != other by {
                        if j != i {
                            assert(after[j] == fields[j]);
                        }
                    }
                    lemma_jfield_index_none(after, other);
                },
            }
        },
        None => {
            let s = jslot_from(fields, key, 0);
            lemma_jslot_bounds(fields, key, 0);
            match jfield_index(fields, other) {
                Some(k) => {
                    let k2 = if k < s {
                        k
                    } else {
                        k + 1
                    };
                    assert forall|j: int| 0 <= j < k2 implies #[trigger] after[j].0 != other by {
                        if j < s {
                            assert(after[j] == fields[j]);
                        } else if j > s {
                            assert(after[j] == fields[j - 1]);
                        }
                    }
                    assert(after[k2] == fields[k]);
                    lemma_jfield_index_is(after, other, k2);
                },
                None => {
                    assert forall|j: int| 0 <= j < after.len() implies #[trigger] after[j].0
                        != other by {
                        if j < s {
                            assert(after[j] == fields[j]);
                        } else if j > s {
                            assert(after[j] == fields[j - 1]);
                        }
                    }
                    lemma_jfield_index_none(after, other);
                },
            }
        },
    }
}

/// Removing a field leaves every other field as it was.
pub proof fn law_remove_keeps_other_fields(fields: Seq<(Seq<char>, Json)>, key: Seq<char>, other: Seq<char>)
    requires
        other != key,
    ensures
        jget(Json::Object(jremove(fields, key)), other) == jget(Json::Object(fields), other),
{
    lemma_jfield_index_char(fields, key);
    lemma_jfield_index_char(fields, other);
    match jfield_index(fields, key) {
        Some(i) => {
            let after = fields.remove(i);
            match jfield_index(fields, other) {
                Some(k) => {
                    let k2 = if k < i {
                        k
                    } else {
                        k - 1
                    };
                    assert(k != i);
                    assert forall|j: int| 0 <= j < k2 implies #[trigger] after[j].0 != other by {
                        if j < i {
                            assert(after[j] == fields[j]);
                        } else {
                            assert(after[j] == fields[j + 1]);
                        }
                    }
                    assert(after[k2] == fields[k]);
                    lemma_jfield_index_is(after, other, k2);
                },
                None => {
                    assert forall|j: int| 0 <= j < after.len() implies #[trigger] after[j].0
                        != other by {
                        if j < i {
                            assert(after[j] == fields[j]);
                        } else {
                            assert(after[j] == fields[j + 1]);
                        }
                    }
                    lemma_jfield_index_none(after, other);
                },
            }
        },
        None => {},
    }
}

/// Shaping a cell for its type leaves its `id` as it was.
proof fn lemma_shape_keeps_id(fields: Seq<(Seq<char>, Json)>, t: NotebookCellType)
    ensures
        jget(Json::Object(shaped(fields, t)), "id"@) == jget(Json::Object(fields), "id"@),
{
    reveal_strlit("id");
    reveal_strlit("execution_count");
    reveal_strlit("outputs");
    assert("id"@ != "execution_count"@);
    assert("id"@ != "outputs"@);
    match t {
        NotebookCellType::Code => {
            let a = jset_if_absent(fields, "execution_count"@, Json::Null);
            if jfield_index(fields, "execution_count"@) is None {
                law_set_keeps_other_fields(fields, "execution_count"@, Json::Null, "id"@);
            }
            if jfield_index(a, "outputs"@) is None {
                law_set_keeps_other_fields(a, "outputs"@, Json::Array(Seq::<Json>::empty()), "id"@);
            }
        },
        NotebookCellType::Markdown => {
            law_remove_keeps_other_fields(fields, "execution_count"@, "id"@);
            law_remove_keeps_other_fields(
                jremove(fields, "execution_count"@),
                "outputs"@,
                "id"@,
            );
        },
    }
}

/// A cell an insert adds carries the id the insert reports, at the place
/// the insert resolved.
pub proof fn law_inserted_cell_has_reported_id(
    cells: Seq<JsonValue>,
    insert: NotebookEditInput,
    new_id: Seq<char>,
)
    requires
        cells_edit(cells, insert, new_id) is Done,
    ensures
        insert.edit_mode == NotebookEditMode::Insert ==> ({
            &&& cells_edit(cells, insert, new_id) matches EditOutcome::Done(c, id)
            &&& id == Some(new_id)
            &&& insert_index(cells, opt_text(insert.cell_id), opt_nat(insert.cell_number)) matches Ok(i)
            &&& jget(c[i as int], "id"@) == Some(Json::Str(new_id))
        }),
{
    if insert.edit_mode == NotebookEditMode::Insert {
        let t = insert.cell_type->0;
        let src = insert.new_source@;
        let f0 = jset(Seq::<(Seq<char>, Json)>::empty(), "id"@, Json::Str(new_id));
        let f1 = jset(f0, "cell_type"@, Json::Str(crate::notebook::kind_text(t)));
        let f2 = jset(f1, "metadata"@, Json::Object(Seq::<(Seq<char>, Json)>::empty()));
        let f3 = jset(f2, "source"@, crate::notebook::source_json(src));
        reveal_strlit("id");
        reveal_strlit("cell_type");
        reveal_strlit("metadata");
        reveal_strlit("source");
        assert("id"@ != "cell_type"@);
        assert("id"@ != "metadata"@);
        assert("id"@ != "source"@);
        law_get_after_set(Seq::<(Seq<char>, Json)>::empty(), "id"@, Json::Str(new_id));
        law_set_keeps_other_fields(f0, "cell_type"@, Json::Str(crate::notebook::kind_text(t)), "id"@);
        law_set_keeps_other_fields(f1, "metadata"@, Json::Object(Seq::<(Seq<char>, Json)>::empty()), "id"@);
        law_set_keeps_other_fields(f2, "source"@, crate::notebook::source_json(src), "id"@);
        lemma_shape_keeps_id(f3, t);
        crate::notebook::lemma_insert_index_bound(
            cells,
            opt_text(insert.cell_id),
            opt_nat(insert.cell_number),
        );
        lemma_jitems(cells);
    }
}

/// Whether no two fields have the same name, as in every object `serde_json`
/// reads.
pub open spec fn unique_keys(fields: Seq<(Seq<char>, Json)>) -> bool {
    forall|a: int, b: int| 0 <= a < b < fields.len() ==> #[trigger] fields[a].0 != #[trigger] fields[b].0
}

proof fn lemma_set_unique(fields: Seq<(Seq<char>, Json)>, key: Seq<char>, value: Json)
    requires
        unique_keys(fields),
    ensures
        unique_keys(jset(fields, key, value)),
{
    lemma_jfield_index_char(fields, key);
    let after = jset(fields, key, value);
    match jfield_index(fields, key) {
        Some(i) => {
            assert forall|a: int, b: int| 0 <= a < b < after.len() implies #[trigger] after[a].0
                != #[trigger] after[b].0 by {
                assert(after[a].0 == fields[a].0);
                assert(after[b].0 == fields[b].0);
            }
        },
        None => {
            let s = jslot_from(fields, key, 0);
            lemma_jslot_bounds(fields, key, 0);
            assert forall|a: int, b: int| 0 <= a < b < after.len() implies #[trigger] after[a].0
                != #[trigger] after[b].0 by {
                if a < s && b < s {
                    assert(after[a] == fields[a] && after[b] == fields[b]);
                } else if a < s && b == s {
                    assert(after[a] == fields[a]);
                } else if a < s {
                    assert(after[a] == fields[a] && after[b] == fields[b - 1]);
                } else if a == s {
                    assert(after[b] == fields[b - 1]);
                } else {
                    assert(after[a] == fields[a - 1] && after[b] == fields[b - 1]);
                }
            }
        },
    }
}

proof fn lemma_remove_gone(fields: Seq<(Seq<char>, Json)>, key: Seq<char>)
    requires
        unique_keys(fields),
    ensures
        jget(Json::Object(jremove(fields, key)), key) is None,
        unique_keys(jremove(fields, key)),
{
    lemma_jfield_index_char(fields, key);
    let after = jremove(fields, key);
    match jfield_index(fields, key) {
        Some(i) => {
            assert forall|j: int| 0 <= j < after.len() implies #[trigger] after[j].0 != key by {
                if j < i {
                    assert(after[j] == fields[j]);
                } else {
                    assert(after[j] == fields[j + 1]);
                }
            }
            lemma_jfield_index_none(after, key);
            assert forall|a: int, b: int| 0 <= a < b < after.len() implies #[trigger] after[a].0
                != #[trigger] after[b].0 by {
                let a2 = if a < i { a } else { a + 1 };
                let b2 = if b < i { b } else { b + 1 };
                assert(after[a] == fields[a2] && after[b] == fields[b2]);
            }
        },
        None => {
            lemma_jfield_index_none(after, key);
        },
    }
}

proof fn lemma_set_if_absent(fields: Seq<(Seq<char>, Json)>, key: Seq<char>, value: Json, other: Seq<char>)
    ensures
        jget(Json::Object(jset_if_absent(fields, key, value)), key) is Some,
        jget(Json::Object(fields), key) is Some ==> jget(
            Json::Object(jset_if_absent(fields, key, value)),
            key,
        ) == jget(Json::Object(fields), key),
        other != key ==> jget(Json::Object(jset_if_absent(fields, key, value)), other) == jget(
            Json::Object(fields),
            other,
        ),
{
    if jfield_index(fields, key) is None {
        law_get_after_set(fields, key, value);
        if other != key {
            law_set_keeps_other_fields(fields, key, value, other);
        }
    }
}

/// A replace changes only the cell it names: the cell gets the type asked
/// for (else the one it had, else code) and the new source, split into
/// lines; a code cell keeps or gains `execution_count` and `outputs`, a
/// markdown cell loses them (where each name occurs once in the cell, as in
/// every object `serde_json` reads); every other field of the cell, and
/// every other cell, stays as it was.
pub proof fn law_replaced_cell(cells: Seq<JsonValue>, input: NotebookEditInput, new_id: Seq<char>, i: nat)
    requires
        input.edit_mode == NotebookEditMode::Replace,
        resolve_cell(cells, opt_text(input.cell_id), opt_nat(input.cell_number), "replace"@) matches Ok(
            (k, _),
        ) && k == i,
        cells[i as int] is Object,
    ensures
        ({
            let raw = cells[i as int]->Object_0@;
            let f = jfields(raw);
            let t = chosen_type(input.cell_type, raw);
            &&& cells_edit(cells, input, new_id) matches EditOutcome::Done(c, id)
            &&& id is None
            &&& c.len() == cells.len()
            &&& forall|j: int| 0 <= j < c.len() && j != i ==> #[trigger] c[j] == jv(cells[j])
            &&& jget(c[i as int], "cell_type"@) == Some(Json::Str(kind_text(t)))
            &&& jget(c[i as int], "source"@) == Some(source_json(input.new_source@))
            &&& t == NotebookCellType::Code ==> {
                &&& jget(c[i as int], "execution_count"@) is Some
                &&& jget(c[i as int], "outputs"@) is Some
                &&& jget(Json::Object(f), "execution_count"@) is Some ==> jget(
                    c[i as int],
                    "execution_count"@,
                ) == jget(Json::Object(f), "execution_count"@)
                &&& jget(Json::Object(f), "outputs"@) is Some ==> jget(c[i as int], "outputs"@)
                    == jget(Json::Object(f), "outputs"@)
            }
            &&& (t == NotebookCellType::Markdown && unique_keys(f)) ==> {
                &&& jget(c[i as int], "execution_count"@) is None
                &&& jget(c[i as int], "outputs"@) is None
            }
            &&& forall|key: Seq<char>|
                key != "cell_type"@ && key != "source"@ && key != "outputs"@ && key
                    != "execution_count"@ ==> #[trigger] jget(c[i as int], key) == jget(
                    Json::Object(f),
                    key,
                )
        }),
{
    let raw = cells[i as int]->Object_0@;
    let f = jfields(raw);
    let t = chosen_type(input.cell_type, raw);
    let src = source_json(input.new_source@);
    let ct = Json::Str(kind_text(t));
    let g1 = jset(f, "cell_type"@, ct);
    let g2 = jset(g1, "source"@, src);
    lemma_jitems(cells);
    if opt_text(input.cell_id) is Some {
        lemma_first_with_id_char(cells, opt_text(input.cell_id)->0);
    }
    assert(i < cells.len());
    reveal_strlit("cell_type");
    reveal_strlit("source");
    reveal_strlit("outputs");
    reveal_strlit("execution_count");
    assert("cell_type"@ != "source"@);
    assert("cell_type"@ != "outputs"@);
    assert("cell_type"@ != "execution_count"@);
    assert("source"@ != "outputs"@);
    assert("source"@ != "execution_count"@);
    assert("outputs"@ != "execution_count"@);
    law_get_after_set(f, "cell_type"@, ct);
    law_set_keeps_other_fields(g1, "source"@, src, "cell_type"@);
    law_get_after_set(g1, "source"@, src);
    assert forall|key: Seq<char>| key != "cell_type"@ && key != "source"@ implies jget(
        Json::Object(g2),
        key,
    ) == jget(Json::Object(f), key) by {
        law_set_keeps_other_fields(f, "cell_type"@, ct, key);
        law_set_keeps_other_fields(g1, "source"@, src, key);
    }
    let sh = shaped(g2, t);
    match t {
        NotebookCellType::Code => {
            let h1 = jset_if_absent(g2, "execution_count"@, Json::Null);
            lemma_set_if_absent(g2, "execution_count"@, Json::Null, "outputs"@);
            lemma_set_if_absent(h1, "outputs"@, Json::Array(Seq::<Json>::empty()), "execution_count"@);
            assert forall|key: Seq<char>| key != "outputs"@ && key != "execution_count"@ implies jget(
                Json::Object(sh),
                key,
            ) == jget(Json::Object(g2), key) by {
                lemma_set_if_absent(g2, "execution_count"@, Json::Null, key);
                lemma_set_if_absent(h1, "outputs"@, Json::Array(Seq::<Json>::empty()), key);
            }
        },
        NotebookCellType::Markdown => {
            let m1 = jremove(g2, "execution_count"@);
            if unique_keys(f) {
                lemma_set_unique(f, "cell_type"@, ct);
                lemma_set_unique(g1, "source"@, src);
                lemma_remove_gone(g2, "execution_count"@);
                lemma_remove_gone(m1, "outputs"@);
                law_remove_keeps_other_fields(m1, "outputs"@, "execution_count"@);
            }
            assert forall|key: Seq<char>| key != "outputs"@ && key != "execution_count"@ implies jget(
                Json::Object(sh),
                key,
            ) == jget(Json::Object(g2), key) by {
                law_remove_keeps_other_fields(g2, "execution_count"@, key);
                law_remove_keeps_other_fields(m1, "outputs"@, key);
            }
        },
    }
}

// ---------------------------------------------------------------------------
// Windows and truncation
// ---------------------------------------------------------------------------

/// Grep's window keeps entries in order from the offset on: its `i`-th
/// entry is entry `offset + i`, and it holds `limit` of them (all that
/// remain when the limit is 0 or more than remain).
pub proof fn law_grep_window_slice<T>(entries: Seq<T>, offset: nat, limit: nat)
    ensures
        forall|i: int|
            0 <= i < window(entries, offset, limit).len() ==> #[trigger] window(entries, offset, limit)[i]
                == entries[offset + i],
        window(entries, offset, limit).len() == if offset >= entries.len() {
            0
        } else if limit == 0 || limit >= entries.len() - offset {
            (entries.len() - offset) as nat
        } else {
            limit
        },
{
}

/// Read shows an empty file as the warning, and of any other text file,
/// without an offset or a limit, its first 2000 lines (all of them when
/// there are fewer), joined by newlines.
pub proof fn law_read_default_window(text: Seq<char>)
    ensures
        text.len() == 0 ==> text_read(text, 0, 2000) == empty_file_warning(),
        text.len() > 0 ==> text_read(text, 0, 2000) == join(
            lines(text).take(
                if lines(text).len() < 2000 {
                    lines(text).len() as int
                } else {
                    2000
                },
            ),
            seq!['\n'],
        ),
{
    let n: int = if lines(text).len() < 2000 {
        lines(text).len() as int
    } else {
        2000
    };
    assert(lines(text).subrange(0, n) =~= lines(text).take(n));
}

/// Without an offset or a limit, a window keeps every entry.
pub proof fn law_full_window<T>(entries: Seq<T>)
    ensures
        window(entries, 0, 0) == entries,
{
    assert(entries.skip(0) =~= entries);
}

/// An output text is cut only past the limit, and a cut text keeps the
/// text's beginning up to the limit.
pub proof fn law_truncation_keeps_beginning(s: Seq<char>)
    ensures
        s.len() <= crate::notebook::OUTPUT_CHAR_LIMIT ==> truncate_output(s) == s,
        truncate_output(s).take(
            if s.len() <= crate::notebook::OUTPUT_CHAR_LIMIT {
                s.len() as int
            } else {
                crate::notebook::OUTPUT_CHAR_LIMIT as int
            },
        ) == s.take(
            if s.len() <= crate::notebook::OUTPUT_CHAR_LIMIT {
                s.len() as int
            } else {
                crate::notebook::OUTPUT_CHAR_LIMIT as int
            },
        ),
{
    if s.len() > crate::notebook::OUTPUT_CHAR_LIMIT {
        assert(truncate_output(s).take(crate::notebook::OUTPUT_CHAR_LIMIT as int) =~= s.take(
            crate::notebook::OUTPUT_CHAR_LIMIT as int,
        ));
    } else {
        assert(s.take(s.len() as int) =~= s);
    }
}

// ---------------------------------------------------------------------------
// The working directory reported by a wrapped command
// ---------------------------------------------------------------------------

/// No occurrence of the marker starts inside the marker itself.
proof fn lemma_marker_no_self_overlap(s: Seq<char>, k: int, j: int)
    requires
        0 <= k,
        k + pwd_marker().len() <= s.len(),
        s.subrange(k, k + pwd_marker().len()) == pwd_marker(),
        k < j < k + pwd_marker().len(),
    ensures
        !occurs_at(s, pwd_marker(), j),
{
    let m = pwd_marker();
    reveal_strlit("__LITECODE_PWD__:");
    assert(m.len() == 17);
    if occurs_at(s, m, j) {
        let r = j - k;
        assert(s.subrange(j, j + 17) == m);
        assert forall|t: int| 0 <= t < 17 && r + t < 17 implies #[trigger] m[t] == m[r + t] by {
            assert(s.subrange(j, j + 17)[t] == s[j + t]);
            assert(s.subrange(k, k + 17)[r + t] == s[j + t]);
        }
        assert(s.subrange(j, j + 17)[0] == s[j]);
        assert(s.subrange(j, j + 17)[1] == s[j + 1]);
        assert(s.subrange(j, j + 17)[2] == s[j + 2]);
        if r <= 14 {
            assert(m[0] == m[r]);
            assert(m[1] == m[r + 1]);
            assert(m[2] == m[r + 2]);
        } else {
            assert(m[0] == m[r]);
            assert(m[1] == m[r + 1]);
        }
    }
}

/// The marker after the output is the last one in what a wrapped command
/// prints.
#[verifier::spinoff_prover]
#[verifier::rlimit(40)]
proof fn lemma_marker_is_last(output: Seq<char>, dir: Seq<char>)
    requires
        !contains_seq(dir, pwd_marker()),
    ensures
        last_occurrence(output + seq!['\n'] + pwd_marker() + dir, pwd_marker()) == Some(
            output.len() as int + 1,
        ),
{
    let m = pwd_marker();
    let s = output + seq!['\n'] + m + dir;
    let k: int = output.len() as int + 1;
    assert(s.subrange(k, k + m.len() as int) =~= m);
    assert(occurs_at(s, m, k));
    assert forall|j: int| occurs_at(s, m, j) implies j <= k by {
        if j > k {
            if j < k + m.len() {
                lemma_marker_no_self_overlap(s, k, j);
            } else {
                let i = j - k - m.len();
                assert(s.subrange(j, j + m.len()) =~= dir.subrange(i, i + m.len()));
                assert(occurs_at(dir, m, i));
            }
        }
    }
    let found = choose|i: int| occurs_at(s, m, i) && forall|j: int| occurs_at(s, m, j) ==> j <= i;
    assert(occurs_at(s, m, found) && forall|j: int| occurs_at(s, m, j) ==> j <= found);
}

/// What a wrapped command prints gives its directory back: after the
/// command's own output come a newline, the marker and the directory; the
/// output is recovered without its final newlines, and the directory whole,
/// for any directory that is non-empty, has no surrounding whitespace and
/// does not itself hold the marker.
pub proof fn law_working_dir_round_trip(output: Seq<char>, dir: Seq<char>)
    requires
        dir.len() > 0,
        trim(dir) == dir,
        !contains_seq(dir, pwd_marker()),
    ensures
        split_working_dir(output + seq!['\n'] + pwd_marker() + dir) == (
            trim_newlines_end(output),
            Some(dir),
        ),
{
    let m = pwd_marker();
    let s = output + seq!['\n'] + m + dir;
    let k: int = output.len() as int + 1;
    lemma_marker_is_last(output, dir);
    assert(s.skip(k + m.len() as int) =~= dir);
    assert(s.take(k) =~= output.push('\n'));
    assert(output.push('\n').drop_last() =~= output);
}

// ---------------------------------------------------------------------------
// Glob
// ---------------------------------------------------------------------------

/// Glob counts every file found and shows the first hundred of them in its
/// order: the files found, each once, most recently modified first, ties
/// by path.
pub proof fn law_glob_count_order_cut(entries: Seq<GlobEntry>)
    ensures
        glob_result(entries).0 == entries.len(),
        glob_sorted(entries).to_multiset() == entry_views(entries).to_multiset(),
        vstd::relations::sorted_by(glob_sorted(entries), glob_order()),
        glob_result(entries).1.len() == if entries.len() > GLOB_LIMIT {
            GLOB_LIMIT as nat
        } else {
            entries.len()
        },
        forall|i: int|
            0 <= i < glob_result(entries).1.len() ==> #[trigger] glob_result(entries).1[i]
                == glob_sorted(entries)[i].0,
{
    lemma_glob_order_total();
    let ev = entry_views(entries);
    ev.lemma_sort_by_ensures(glob_order());
    vstd::seq_lib::to_multiset_len(ev);
    vstd::seq_lib::to_multiset_len(ev.sort_by(glob_order()));
}

/// Whether `name` is the path of one of the files found.
pub open spec fn found_path(entries: Seq<GlobEntry>, name: Seq<char>) -> bool {
    exists|j: int| 0 <= j < entries.len() && #[trigger] entries[j].path@ == name
}

/// Every name Glob shows is the path of a file found; where the files
/// found have distinct paths, no name is shown twice.
pub proof fn law_glob_shows_found_paths(entries: Seq<GlobEntry>)
    ensures
        forall|i: int|
            0 <= i < glob_result(entries).1.len() ==> #[trigger] found_path(
                entries,
                glob_result(entries).1[i],
            ),
        (forall|a: int, b: int|
            0 <= a < b < entries.len() ==> #[trigger] entries[a].path@ != #[trigger] entries[b].path@)
            ==> glob_result(entries).1.no_duplicates(),
{
    broadcast use vstd::multiset::group_multiset_axioms;
    law_glob_count_order_cut(entries);
    let ev = entry_views(entries);
    let sorted = glob_sorted(entries);
    let shown = glob_result(entries).1;
    assert forall|i: int| 0 <= i < glob_result(entries).1.len() implies #[trigger] found_path(
        entries,
        glob_result(entries).1[i],
    ) by {
        vstd::seq_lib::to_multiset_contains(sorted, sorted[i]);
        vstd::seq_lib::to_multiset_contains(ev, sorted[i]);
        let j = choose|j: int| 0 <= j < ev.len() && ev[j] == sorted[i];
        assert(ev[j] == (entries[j].path@, entries[j].modified));
        assert(glob_result(entries).1[i] == entries[j].path@);
    }
    if forall|a: int, b: int|
        0 <= a < b < entries.len() ==> #[trigger] entries[a].path@ != #[trigger] entries[b].path@ {
        assert forall|a: int, b: int| 0 <= a < b < shown.len() implies shown[a] != shown[b] by {
            if shown[a] == shown[b] {
                let x = sorted[a];
                vstd::seq_lib::to_multiset_contains(sorted, sorted[a]);
                vstd::seq_lib::to_multiset_contains(ev, sorted[a]);
                vstd::seq_lib::to_multiset_contains(sorted, sorted[b]);
                vstd::seq_lib::to_multiset_contains(ev, sorted[b]);
                let p = choose|p: int| 0 <= p < ev.len() && ev[p] == sorted[a];
                let q = choose|q: int| 0 <= q < ev.len() && ev[q] == sorted[b];
                assert(ev[p] == (entries[p].path@, entries[p].modified));
                assert(ev[q] == (entries[q].path@, entries[q].modified));
                if p < q {
                    assert(entries[p].path@ != entries[q].path@);
                } else if q < p {
                    assert(entries[q].path@ != entries[p].path@);
                }
                assert(sorted[b] == x);
                vstd::seq_lib::to_multiset_remove(sorted, a);
                assert(sorted.remove(a)[b - 1] == x);
                vstd::seq_lib::to_multiset_contains(sorted.remove(a), x);
                vstd::seq_lib::to_multiset_remove(ev, p);
                assert forall|k: int| 0 <= k < ev.remove(p).len() implies ev.remove(p)[k] != x by {
                    let k2 = if k < p { k } else { k + 1 };
                    assert(ev.remove(p)[k] == ev[k2]);
                    assert(ev[k2] == (entries[k2].path@, entries[k2].modified));
                    if k2 < p {
                        assert(entries[k2].path@ != entries[p].path@);
                    } else {
                        assert(entries[p].path@ != entries[k2].path@);
                    }
                }
                vstd::seq_lib::to_multiset_contains(ev.remove(p), x);
                assert(false);
            }
        }
    }
}

// ---------------------------------------------------------------------------
// PDF page ranges
// ---------------------------------------------------------------------------

proof fn lemma_parts_pages_within(parts: Seq<Seq<char>>, spec: Seq<char>, total: nat)
    ensures
        parts_pages(parts, spec, total) matches Ok(set) ==> forall|p: u32|
            #[trigger] set.contains(p) ==> 1 <= p <= total,
    decreases parts.len(),
{
    if parts.len() > 0 {
        lemma_parts_pages_within(parts.drop_last(), spec, total);
    }
}

/// Every page a page range chooses lies in the document: from 1 to its
/// page count; and the range chooses at least one page.
pub proof fn law_page_ranges_within(spec: Seq<char>, total: nat)
    ensures
        page_ranges(spec, total) matches Ok(set) ==> !set.is_empty() && forall|p: u32|
            #[trigger] set.contains(p) ==> 1 <= p <= total,
{
    lemma_parts_pages_within(split(spec, ','), spec, total);
}

/// Whether a part of a page range is well formed and chooses page `p`.
pub open spec fn part_covers(part: Seq<char>, spec: Seq<char>, total: nat, p: u32) -> bool {
    part_range(part, spec, total) matches Ok((a, b)) && a <= p <= b
}

proof fn lemma_parts_pages_char(parts: Seq<Seq<char>>, spec: Seq<char>, total: nat)
    ensures
        parts_pages(parts, spec, total) is Ok <==> forall|i: int|
            0 <= i < parts.len() ==> #[trigger] part_range(parts[i], spec, total) is Ok,
        parts_pages(parts, spec, total) matches Ok(set) ==> forall|p: u32|
            #[trigger] set.contains(p) <==> exists|i: int|
                0 <= i < parts.len() && #[trigger] part_covers(parts[i], spec, total, p),
        (parts.len() > 0 && parts_pages(parts, spec, total) is Ok) ==> !parts_pages(
            parts,
            spec,
            total,
        )->Ok_0.is_empty(),
    decreases parts.len(),
{
    if parts.len() > 0 {
        let init = parts.drop_last();
        lemma_parts_pages_char(init, spec, total);
        assert forall|i: int| 0 <= i < init.len() implies #[trigger] init[i] == parts[i] by {}
        let n = parts.len() - 1;
        if parts_pages(parts, spec, total) is Ok {
            assert forall|i: int| 0 <= i < parts.len() implies #[trigger] part_range(
                parts[i],
                spec,
                total,
            ) is Ok by {
                if i < n {
                    assert(part_range(init[i], spec, total) is Ok);
                }
            }
            let set = parts_pages(parts, spec, total)->Ok_0;
            let (a, b) = part_range(parts[n], spec, total)->Ok_0;
            assert forall|p: u32| #[trigger] set.contains(p) <==> exists|i: int|
                0 <= i < parts.len() && #[trigger] part_covers(parts[i], spec, total, p) by {
                if set.contains(p) {
                    if a <= p <= b {
                        assert(part_covers(parts[n], spec, total, p));
                    } else {
                        let i = choose|i: int| 0 <= i < init.len() && part_covers(init[i], spec, total, p);
                        assert(part_covers(parts[i], spec, total, p));
                    }
                }
                if exists|i: int| 0 <= i < parts.len() && #[trigger] part_covers(parts[i], spec, total, p) {
                    let i = choose|i: int| 0 <= i < parts.len() && #[trigger] part_covers(parts[i], spec, total, p);
                    if i < n {
                        assert(part_covers(init[i], spec, total, p));
                    }
                }
            }
            assert(set.contains(a));
        } else {
            if forall|i: int| 0 <= i < parts.len() ==> #[trigger] part_range(parts[i], spec, total) is Ok {
                assert forall|i: int| 0 <= i < init.len() implies #[trigger] part_range(
                    init[i],
                    spec,
                    total,
                ) is Ok by {
                    assert(part_range(parts[i], spec, total) is Ok);
                }
                assert(part_range(parts[n], spec, total) is Ok);
            }
        }
    }
}

/// A page range is refused exactly when one of its comma-separated parts is
/// (empty, not a number, page 0, reversed, or past the last page); otherwise
/// it chooses the union of the pages of its parts.
pub proof fn law_page_ranges_union(spec: Seq<char>, total: nat)
    ensures
        page_ranges(spec, total) is Ok <==> forall|i: int|
            0 <= i < split(spec, ',').len() ==> #[trigger] part_range(split(spec, ',')[i], spec, total)
                is Ok,
        page_ranges(spec, total) matches Ok(set) ==> forall|p: u32|
            #[trigger] set.contains(p) <==> exists|i: int|
                0 <= i < split(spec, ',').len() && #[trigger] part_covers(
                    split(spec, ',')[i],
                    spec,
                    total,
                    p,
                ),
{
    lemma_split_len(spec, ',');
    lemma_parts_pages_char(split(spec, ','), spec, total);
}

// ---------------------------------------------------------------------------
// Paths
// ---------------------------------------------------------------------------

/// Joining onto a directory leaves an absolute path as it is; a relative
/// path ends up after the directory: the result starts with the directory
/// and ends with the relative path.
pub proof fn law_join_keeps_absolute(base: Seq<char>, rel: Seq<char>)
    ensures
        is_absolute(rel) ==> join_path(base, rel) == rel,
        !is_absolute(rel) ==> join_path(base, rel).len() >= base.len() + rel.len() && join_path(
            base,
            rel,
        ).take(base.len() as int) == base && join_path(base, rel).skip(
            join_path(base, rel).len() - rel.len(),
        ) == rel,
{
    if !is_absolute(rel) {
        let j = join_path(base, rel);
        assert(j.take(base.len() as int) =~= base);
        assert(j.skip(j.len() - rel.len()) =~= rel);
    }
}

// ---------------------------------------------------------------------------
// Image types
// ---------------------------------------------------------------------------

/// Two names of the same length that differ, ignoring ASCII case, at some
/// position are not both equal to one text ignoring case.
proof fn lemma_not_both(ext: Seq<char>, a: Seq<char>, b: Seq<char>, i: int)
    requires
        eq_ignore_ascii_case(ext, a),
        0 <= i < a.len(),
        i < b.len(),
        ascii_lower(a[i]) != ascii_lower(b[i]),
    ensures
        !eq_ignore_ascii_case(ext, b),
{
    if eq_ignore_ascii_case(ext, b) {
        assert(ascii_lower(ext[i]) == ascii_lower(a[i]));
        assert(ascii_lower(ext[i]) == ascii_lower(b[i]));
    }
}

/// Read shows these files as images, whatever the case of the extension:
/// `png` as `image/png`, `jpg` and `jpeg` as `image/jpeg`, `gif` as
/// `image/gif`, `webp` as `image/webp`, `bmp` as `image/bmp`; and no other
/// extension.
pub proof fn law_image_types(ext: Seq<char>)
    ensures
        eq_ignore_ascii_case(ext, "png"@) ==> image_mime(ext) == Some("image/png"@),
        eq_ignore_ascii_case(ext, "jpg"@) ==> image_mime(ext) == Some("image/jpeg"@),
        eq_ignore_ascii_case(ext, "jpeg"@) ==> image_mime(ext) == Some("image/jpeg"@),
        eq_ignore_ascii_case(ext, "gif"@) ==> image_mime(ext) == Some("image/gif"@),
        eq_ignore_ascii_case(ext, "webp"@) ==> image_mime(ext) == Some("image/webp"@),
        eq_ignore_ascii_case(ext, "bmp"@) ==> image_mime(ext) == Some("image/bmp"@),
        image_mime(ext) is Some ==> eq_ignore_ascii_case(ext, "png"@) || eq_ignore_ascii_case(
            ext,
            "jpg"@,
        ) || eq_ignore_ascii_case(ext, "jpeg"@) || eq_ignore_ascii_case(ext, "gif"@)
            || eq_ignore_ascii_case(ext, "webp"@) || eq_ignore_ascii_case(ext, "bmp"@),
{
    reveal_strlit("png");
    reveal_strlit("jpg");
    reveal_strlit("jpeg");
    reveal_strlit("gif");
    reveal_strlit("webp");
    reveal_strlit("bmp");
    let png = "png"@;
    let jpg = "jpg"@;
    let jpeg = "jpeg"@;
    let gif = "gif"@;
    let webp = "webp"@;
    let bmp = "bmp"@;
    if eq_ignore_ascii_case(ext, jpg) {
        lemma_not_both(ext, jpg, png, 0);
    }
    if eq_ignore_ascii_case(ext, jpeg) {
        lemma_not_both(ext, jpeg, png, 0);
    }
    if eq_ignore_ascii_case(ext, gif) {
        lemma_not_both(ext, gif, png, 0);
        lemma_not_both(ext, gif, jpg, 0);
    }
    if eq_ignore_ascii_case(ext, webp) {
        lemma_not_both(ext, webp, png, 0);
        lemma_not_both(ext, webp, jpg, 0);
        lemma_not_both(ext, webp, jpeg, 0);
        lemma_not_both(ext, webp, gif, 0);
    }
    if eq_ignore_ascii_case(ext, bmp) {
        lemma_not_both(ext, bmp, png, 0);
        lemma_not_both(ext, bmp, jpg, 0);
        lemma_not_both(ext, bmp, gif, 0);
    }
}

// ---------------------------------------------------------------------------
// Cell types kept by a replace
// ---------------------------------------------------------------------------

/// The text of a cell's `cell_type` field, where it is a string.
pub open spec fn written_cell_type(fields: Seq<(String, JsonValue)>) -> Option<Seq<char>> {
    match field_index(fields, "cell_type"@) {
        Some(i) => match fields[i].1 {
            JsonValue::String(t) => Some(t@),
            _ => None,
        },
        None => None,
    }
}

/// A replace that names no cell type keeps the type the cell has: a cell
/// written as `markdown` is `markdown` afterwards, one written as `code` is
/// `code`; and a replace that names a type gives the cell that type.
pub proof fn law_replace_keeps_cell_type(cells: Seq<JsonValue>, input: NotebookEditInput, new_id: Seq<char>, i: nat)
    requires
        input.edit_mode == NotebookEditMode::Replace,
        resolve_cell(cells, opt_text(input.cell_id), opt_nat(input.cell_number), "replace"@) matches Ok(
            (k, _),
        ) && k == i,
        cells[i as int] is Object,
    ensures
        ({
            let raw = cells[i as int]->Object_0@;
            &&& cells_edit(cells, input, new_id) matches EditOutcome::Done(c, _)
            &&& (input.cell_type is None && written_cell_type(raw) == Some("markdown"@)) ==> jget(
                c[i as int],
                "cell_type"@,
            ) == Some(Json::Str("markdown"@))
            &&& (input.cell_type is None && written_cell_type(raw) == Some("code"@)) ==> jget(
                c[i as int],
                "cell_type"@,
            ) == Some(Json::Str("code"@))
            &&& input.cell_type == Some(NotebookCellType::Markdown) ==> jget(
                c[i as int],
                "cell_type"@,
            ) == Some(Json::Str("markdown"@))
            &&& input.cell_type == Some(NotebookCellType::Code) ==> jget(c[i as int], "cell_type"@)
                == Some(Json::Str("code"@))
        }),
{
    law_replaced_cell(cells, input, new_id, i);
    reveal_strlit("markdown");
    reveal_strlit("code");
    assert("markdown"@.len() != "code"@.len());
}

// ---------------------------------------------------------------------------
// Splitting and joining text
// ---------------------------------------------------------------------------

/// Splitting at a character and joining the pieces with it gives the text
/// back, and no piece holds the character.
pub proof fn law_split_join(s: Seq<char>, c: char)
    ensures
        join(split(s, c), seq![c]) == s,
        forall|i: int, j: int|
            0 <= i < split(s, c).len() && 0 <= j < split(s, c)[i].len() ==> #[trigger] split(
                s,
                c,
            )[i][j] != c,
    decreases s.len(),
{
    if s.len() == 0 {
        assert(split(s, c) =~= seq![Seq::<char>::empty()]);
        assert(s =~= Seq::<char>::empty());
    } else {
        let t = s.drop_last();
        let x = s.last();
        let r = split(t, c);
        law_split_join(t, c);
        lemma_split_len(t, c);
        if x == c {
            let r2 = r.push(Seq::<char>::empty());
            assert(r2.drop_last() =~= r);
            assert(join(r2, seq![c]) == join(r, seq![c]) + seq![c] + Seq::<char>::empty());
            assert(t + seq![c] + Seq::<char>::empty() =~= s);
            assert forall|i: int, j: int|
                0 <= i < r2.len() && 0 <= j < r2[i].len() implies #[trigger] r2[i][j] != c by {
                assert(i < r.len());
                assert(r2[i] == r[i]);
            }
        } else {
            let n = r.len() - 1;
            let r2 = r.update(n, r.last().push(x));
            if r.len() == 1 {
                assert(join(r, seq![c]) == r[0]);
                assert(join(r2, seq![c]) == r2[0]);
                assert(r2[0] =~= t.push(x));
            } else {
                assert(r2.drop_last() =~= r.drop_last());
                assert(join(r, seq![c]) == join(r.drop_last(), seq![c]) + seq![c] + r.last());
                assert(join(r2, seq![c]) == join(r2.drop_last(), seq![c]) + seq![c] + r2.last());
                assert(join(r2, seq![c]) =~= join(r, seq![c]).push(x));
            }
            assert(t.push(x) =~= s);
            assert forall|i: int, j: int|
                0 <= i < r2.len() && 0 <= j < r2[i].len() implies #[trigger] r2[i][j] != c by {
                if i < n {
                    assert(r2[i] == r[i]);
                } else {
                    if j < r.last().len() {
                        assert(r2[i][j] == r[n][j]);
                    }
                }
            }
        }
    }
}

proof fn lemma_concat_ended(pieces: Seq<Seq<char>>)
    requires
        pieces.len() >= 1,
    ensures
        concat(pieces.drop_last().map_values(|p: Seq<char>| p.push('\n'))) + pieces.last() == join(
            pieces,
            seq!['\n'],
        ),
    decreases pieces.len(),
{
    let f = |p: Seq<char>| p.push('\n');
    if pieces.len() == 1 {
        assert(pieces.drop_last().map_values(f) =~= Seq::<Seq<char>>::empty());
        assert(Seq::<char>::empty() + pieces.last() =~= pieces.last());
    } else {
        let init = pieces.drop_last();
        lemma_concat_ended(init);
        assert(init.drop_last().map_values(f).push(f(init.last())) =~= pieces.drop_last().map_values(f));
        crate::text::lemma_concat_push(init.drop_last().map_values(f), f(init.last()));
        assert(concat(pieces.drop_last().map_values(f)) == concat(init.drop_last().map_values(f))
            + init.last().push('\n'));
        assert(concat(init.drop_last().map_values(f)) + init.last().push('\n') + pieces.last()
            =~= (concat(init.drop_last().map_values(f)) + init.last()) + seq!['\n'] + pieces.last());
    }
}

/// A cell's source split into lines, each keeping its newline, gives the
/// source back when the lines are put together; only the last line may
/// lack a newline.
pub proof fn law_source_lines_rejoin(s: Seq<char>)
    ensures
        concat(split_inclusive_nl(s)) == s,
        forall|i: int|
            0 <= i < split_inclusive_nl(s).len() - 1 ==> #[trigger] split_inclusive_nl(s)[i].last()
                == '\n',
{
    law_split_join(s, '\n');
    lemma_split_len(s, '\n');
    let pieces = split(s, '\n');
    let f = |p: Seq<char>| p.push('\n');
    let ended = pieces.drop_last().map_values(f);
    lemma_concat_ended(pieces);
    if pieces.last().len() == 0 {
        assert(concat(ended) + pieces.last() =~= concat(ended));
    } else {
        crate::text::lemma_concat_push(ended, pieces.last());
        assert(concat(ended.push(pieces.last())) == concat(ended) + pieces.last());
    }
    assert forall|i: int| 0 <= i < split_inclusive_nl(s).len() - 1 implies #[trigger] split_inclusive_nl(
        s,
    )[i].last() == '\n' by {
        assert(split_inclusive_nl(s)[i] == f(pieces[i]));
    }
}

/// Where trimming the start cuts the text: everything before is
/// whitespace, and what is kept does not start with whitespace.
proof fn lemma_trim_start_cut(s: Seq<char>) -> (k: int)
    ensures
        0 <= k <= s.len(),
        trim_start(s) == s.skip(k),
        forall|j: int| 0 <= j < k ==> is_ws(#[trigger] s[j]),
        k < s.len() ==> !is_ws(s[k]),
    decreases s.len(),
{
    if s.len() > 0 && is_ws(s[0]) {
        let k1 = lemma_trim_start_cut(s.drop_first());
        assert(s.drop_first().skip(k1) =~= s.skip(k1 + 1));
        assert forall|j: int| 0 <= j < k1 + 1 implies is_ws(#[trigger] s[j]) by {
            if j > 0 {
                assert(s[j] == s.drop_first()[j - 1]);
            }
        }
        k1 + 1
    } else {
        assert(s.skip(0) =~= s);
        0
    }
}

/// Where trimming the end cuts the text: everything after is whitespace,
/// and what is kept does not end with whitespace.
proof fn lemma_trim_end_cut(s: Seq<char>) -> (m: int)
    ensures
        0 <= m <= s.len(),
        trim_end(s) == s.take(m),
        forall|j: int| m <= j < s.len() ==> is_ws(#[trigger] s[j]),
        m > 0 ==> !is_ws(s[m - 1]),
    decreases s.len(),
{
    if s.len() > 0 && is_ws(s.last()) {
        let m1 = lemma_trim_end_cut(s.drop_last());
        assert(s.drop_last().take(m1) =~= s.take(m1));
        assert forall|j: int| m1 <= j < s.len() implies is_ws(#[trigger] s[j]) by {
            if j < s.len() - 1 {
                assert(s[j] == s.drop_last()[j]);
            }
        }
        m1
    } else {
        assert(s.take(s.len() as int) =~= s);
        s.len() as int
    }
}

/// Trimming removes whitespace from both ends and nothing else: the text
/// is its trimmed part with only whitespace before and after it, and the
/// trimmed part neither starts nor ends with whitespace.
pub proof fn law_trim_cuts_whitespace(s: Seq<char>)
    ensures
        trim(s).len() > 0 ==> !is_ws(trim(s)[0]) && !is_ws(trim(s).last()),
        exists|i: int|
            0 <= i && i + trim(s).len() <= s.len() && #[trigger] s.subrange(i, i + trim(s).len())
                == trim(s) && (forall|j: int| 0 <= j < i ==> is_ws(#[trigger] s[j])) && (forall|
                j: int,
            |
                i + trim(s).len() <= j < s.len() ==> is_ws(#[trigger] s[j])),
{
    let k = lemma_trim_start_cut(s);
    let u = s.skip(k);
    let m = lemma_trim_end_cut(u);
    let t = trim(s);
    assert(t == u.take(m));
    assert(s.subrange(k, k + t.len()) =~= t);
    assert forall|j: int| k + t.len() <= j < s.len() implies is_ws(#[trigger] s[j]) by {
        assert(s[j] == u[j - k]);
    }
    if t.len() > 0 {
        assert(t[0] == s[k]);
        assert(t.last() == u[m - 1]);
    }
}

// ---------------------------------------------------------------------------
// Decimal numbers
// ---------------------------------------------------------------------------

/// A number written in decimal is made of decimal digits, starts with a
/// non-zero digit unless it is zero, and reads back as the same number.
pub proof fn law_decimal_reads_back(n: nat)
    ensures
        all_digits(dec(n)),
        dec_number(dec(n)) == n,
        n > 0 ==> dec(n)[0] != '0',
    decreases n,
{
    if n < 10 {
        assert(dec(n) == seq![digit_char(n as int)]);
        assert(dec(n).drop_last() =~= Seq::<char>::empty());
        assert((digit_char(n as int) as u32) == 48 + n);
        assert(dec_number(dec(n)) == dec_number(Seq::<char>::empty()) * 10 + ((dec(n).last() as u32) - 48) as nat);
    } else {
        law_decimal_reads_back(n / 10);
        lemma_dec_nonempty(n / 10);
        let d = dec(n);
        assert(d.drop_last() =~= dec(n / 10));
        assert(d.last() == digit_char((n % 10) as int));
        assert((n / 10) * 10 + n % 10 == n) by (nonlinear_arith);
        assert((digit_char((n % 10) as int) as u32) == 48 + n % 10);
        assert(dec_number(d) == dec_number(d.drop_last()) * 10 + ((d.last() as u32) - 48) as nat);
        assert forall|i: int| 0 <= i < d.len() implies '0' <= #[trigger] d[i] <= '9' by {
            if i < d.len() - 1 {
                assert(d[i] == dec(n / 10)[i]);
            }
        }
        assert(d[0] == dec(n / 10)[0]);
    }
}

// ---------------------------------------------------------------------------
// Hexadecimal units and surrogate pairs
// ---------------------------------------------------------------------------

/// A 16-bit value written in four hexadecimal digits reads back as the
/// same value.
pub proof fn law_hex4_reads_back(v: u16)
    ensures
        parse_u16_hex(hex4(v)) == Some(v),
{
    let h = hex4(v);
    let d0 = (v / 4096) as int;
    let d1 = ((v / 256) % 16) as int;
    let d2 = ((v / 16) % 16) as int;
    let d3 = (v % 16) as int;
    assert forall|d: int| 0 <= d < 16 implies hex_value(#[trigger] hex_char(d)) == Some(d as nat) by {
        if d < 10 {
            assert((hex_char(d) as u32) == 48 + d);
        } else {
            assert((hex_char(d) as u32) == 55 + d);
        }
    }
    assert(0 <= d0 < 16);
    assert(hex_value(hex_char(d0)) == Some(d0 as nat));
    assert(hex_value(hex_char(d1)) == Some(d1 as nat));
    assert(hex_value(hex_char(d2)) == Some(d2 as nat));
    assert(hex_value(hex_char(d3)) == Some(d3 as nat));
    assert(h[0] != '+') by {
        if d0 < 10 {
            assert((hex_char(d0) as u32) == 48 + d0);
        } else {
            assert((hex_char(d0) as u32) == 55 + d0);
        }
    }
    assert(all_hex(h));
    assert(h.drop_last().drop_last().drop_last().drop_last() =~= Seq::<char>::empty());
    assert(h.drop_last().drop_last().drop_last() =~= seq![h[0]]);
    assert(h.drop_last().drop_last() =~= seq![h[0], h[1]]);
    assert(h.drop_last() =~= seq![h[0], h[1], h[2]]);
    assert(h[0] == hex_char(d0) && h[1] == hex_char(d1) && h[2] == hex_char(d2) && h[3] == hex_char(d3));
    let s1 = seq![h[0]];
    let s2 = seq![h[0], h[1]];
    let s3 = seq![h[0], h[1], h[2]];
    assert(s1.drop_last() =~= Seq::<char>::empty());
    assert(s2.drop_last() =~= s1);
    assert(s3.drop_last() =~= s2);
    assert(h.drop_last() =~= s3);
    assert(hex_number(Seq::<char>::empty()) == 0);
    assert(hex_number(s1) == hex_number(s1.drop_last()) * 16 + hex_value(s1.last()).unwrap_or(0));
    assert(hex_number(s1) == d0);
    assert(hex_number(s2) == hex_number(s1) * 16 + hex_value(s2.last()).unwrap_or(0));
    assert(hex_number(s3) == hex_number(s2) * 16 + hex_value(s3.last()).unwrap_or(0));
    assert(hex_number(h) == hex_number(s3) * 16 + hex_value(h.last()).unwrap_or(0));
    assert(hex_number(h) == ((d0 * 16 + d1) * 16 + d2) * 16 + d3);
    assert(((d0 * 16 + d1) * 16 + d2) * 16 + d3 == v) by (nonlinear_arith)
        requires
            d0 == v / 4096,
            d1 == (v / 256) % 16,
            d2 == (v / 16) % 16,
            d3 == v % 16,
            0 <= v < 65536,
    ;
}

/// A high and a low surrogate make one code point past the 16-bit range,
/// from which both come back as UTF-16 writes it.
pub proof fn law_surrogate_pair_round_trip(high: u16, low: u16)
    requires
        0xD800 <= high <= 0xDBFF,
        0xDC00 <= low <= 0xDFFF,
    ensures
        0x10000 <= combine_surrogates(high, low) <= 0x10FFFF,
        (combine_surrogates(high, low) - 0x10000) / 1024 + 0xD800 == high,
        (combine_surrogates(high, low) - 0x10000) % 1024 + 0xDC00 == low,
{
    let h = (high - 0xD800) as int;
    let l = (low - 0xDC00) as int;
    assert(0 <= h * 1024 + l <= 0xFFFFF) by (nonlinear_arith)
        requires
            0 <= h < 1024,
            0 <= l < 1024,
    ;
    assert(combine_surrogates(high, low) == 0x10000 + h * 1024 + l);
    assert((h * 1024 + l) / 1024 == h && (h * 1024 + l) % 1024 == l) by (nonlinear_arith)
        requires
            0 <= h < 1024,
            0 <= l < 1024,
    ;
}

// ---------------------------------------------------------------------------
// Lines
// ---------------------------------------------------------------------------

/// Pieces of a text that lacks a character lack it too.
proof fn lemma_split_pieces_avoid(s: Seq<char>, c: char, d: char)
    requires
        forall|k: int| 0 <= k < s.len() ==> s[k] != d,
    ensures
        forall|i: int, j: int|
            0 <= i < split(s, c).len() && 0 <= j < split(s, c)[i].len() ==> #[trigger] split(s, c)[i][j]
                != d,
    decreases s.len(),
{
    if s.len() > 0 {
        let t = s.drop_last();
        let r = split(t, c);
        lemma_split_pieces_avoid(t, c, d);
        lemma_split_len(t, c);
        let r2 = split(s, c);
        assert forall|i: int, j: int| 0 <= i < r2.len() && 0 <= j < r2[i].len() implies #[trigger] r2[i][j] != d by {
            if s.last() == c {
                assert(r2[i] == r.push(Seq::<char>::empty())[i]);
                if i < r.len() {
                    assert(r2[i] == r[i]);
                }
            } else {
                let n = r.len() - 1;
                if i < n {
                    assert(r2[i] == r[i]);
                } else if j < r[n].len() {
                    assert(r2[i][j] == r[n][j]);
                } else {
                    assert(r2[i][j] == s.last());
                }
            }
        }
    }
}

/// The lines of a text without carriage returns, joined with newlines,
/// give the text back, less the one newline that may end it.
pub proof fn law_lines_rejoin(s: Seq<char>)
    requires
        forall|k: int| 0 <= k < s.len() ==> s[k] != '\r',
    ensures
        s.len() > 0 && s.last() == '\n' ==> join(lines(s), seq!['\n']).push('\n') == s,
        !(s.len() > 0 && s.last() == '\n') ==> join(lines(s), seq!['\n']) == s,
{
    let pieces = split(s, '\n');
    law_split_join(s, '\n');
    lemma_split_len(s, '\n');
    lemma_split_pieces_avoid(s, '\n', '\r');
    let init = pieces.drop_last();
    assert(init.map_values(|p: Seq<char>| strip_cr(p)) =~= init) by {
        assert forall|i: int| 0 <= i < init.len() implies strip_cr(#[trigger] init[i]) == init[i] by {
            assert(init[i] == pieces[i]);
            if init[i].len() > 0 {
                assert(pieces[i][init[i].len() - 1] != '\r');
            }
        }
    }
    if pieces.last().len() == 0 {
        if pieces.len() == 1 {
            assert(s =~= Seq::<char>::empty());
            assert(init =~= Seq::<Seq<char>>::empty());
        } else {
            assert(join(pieces, seq!['\n']) == join(init, seq!['\n']) + seq!['\n'] + pieces.last());
            assert(s =~= join(init, seq!['\n']).push('\n'));
            assert(lines(s) == init);
        }
    } else {
        assert(init.push(pieces.last()) =~= pieces);
        assert(lines(s) == pieces);
        if pieces.len() == 1 {
            assert(join(pieces, seq!['\n']) == pieces[0]);
        } else {
            assert(join(pieces, seq!['\n']) == join(init, seq!['\n']) + seq!['\n'] + pieces.last());
        }
        assert(s.last() == pieces.last().last());
        assert(pieces[pieces.len() - 1][pieces.last().len() - 1] != '\n');
    }
}

// ---------------------------------------------------------------------------
// Extensions
// ---------------------------------------------------------------------------

/// A file name's extension is what follows its last dot: a non-empty stem,
/// a dot and a text without dots have that text as extension; a name
/// without a dot has none.
pub proof fn law_extension_after_last_dot(stem: Seq<char>, ext: Seq<char>)
    ensures
        (stem.len() > 0 && forall|i: int| 0 <= i < ext.len() ==> ext[i] != '.') ==> extension_of(
            stem + seq!['.'] + ext,
        ) == Some(ext),
        (forall|i: int| 0 <= i < stem.len() ==> stem[i] != '.') ==> extension_of(stem) is None,
{
    let dot = seq!['.'];
    if stem.len() > 0 && forall|i: int| 0 <= i < ext.len() ==> ext[i] != '.' {
        let n = stem + dot + ext;
        let k = stem.len() as int;
        assert(n.subrange(k, k + 1) =~= dot);
        assert(occurs_at(n, dot, k));
        assert forall|j: int| occurs_at(n, dot, j) implies j <= k by {
            if j > k {
                assert(n.subrange(j, j + 1)[0] == n[j]);
                assert(n[j] == ext[j - k - 1]);
            }
        }
        let i = choose|i: int| occurs_at(n, dot, i) && forall|j: int| occurs_at(n, dot, j) ==> j <= i;
        assert(occurs_at(n, dot, i) && forall|j: int| occurs_at(n, dot, j) ==> j <= i);
        assert(i == k);
        assert(n.skip(k + 1) =~= ext);
    }
    if forall|i: int| 0 <= i < stem.len() ==> stem[i] != '.' {
        assert forall|j: int| !occurs_at(stem, dot, j) by {
            if occurs_at(stem, dot, j) {
                assert(stem.subrange(j, j + 1)[0] == stem[j]);
            }
        }
    }
}

} // verus!
