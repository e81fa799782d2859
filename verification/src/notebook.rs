//! Notebooks (`.ipynb`): how Read shows them, as tagged text with images
//! between, and how NotebookEdit replaces, inserts and deletes cells.

use vstd::prelude::*;

use vstd::relations::{sorted_by, total_ordering};

use crate::error::{is_internal, is_invalid_input, LiteCodeError};
use crate::file_service::{decode_utf8_lossy, utf8_lossy, ReadContent, ReadFileOutput};
use crate::schema::{NotebookCellType, NotebookEditInput, NotebookEditMode, NotebookEditOutput};
use crate::json::{
    as_str, as_text, field_index, find_field, get, get_field, insert_field, insert_field_if_absent,
    jfields, jitems, jremove, jset, jset_if_absent, jv, lemma_jfields, lemma_jitems, remove_field,
    copy_json, serde_pretty_of, to_string_pretty, Json, render_tag_value, tag_value,
    to_pretty, value_lines, value_text, JsonValue, invalid_notebook_message, json_text_parsed,
    notebook_tree,
};
use crate::order::{
    lemma_text_le_antisymmetric, lemma_text_le_reflexive, lemma_text_le_total,
    lemma_text_le_transitive, text_le, text_le_exec,
};
use crate::text::{
    chars_of, concat, contains_char, dec, decimal, is_whitespace, is_ws, push_char, has_prefix, has_suffix, join, lines, lines_of, push_str, split_inclusive_nl, split_inclusive_nl_chars,
    str_ends_with, str_eq, str_starts_with, string_of, views,
};

verus! {

// ---------------------------------------------------------------------------
// What a rendering is made of
// ---------------------------------------------------------------------------

/// A piece of a rendering, as values: text, or image bytes with their type.
pub enum Piece {
    Text(Seq<char>),
    Image(Seq<u8>, Seq<char>),
}

/// The value of one piece of Read's output.
pub open spec fn piece(c: ReadContent) -> Piece {
    match c {
        ReadContent::Text(t) => Piece::Text(t@),
        ReadContent::Image { data, mime_type } => Piece::Image(data@, mime_type@),
    }
}

/// The values of the pieces of Read's output.
pub open spec fn pieces(v: Seq<ReadContent>) -> Seq<Piece> {
    v.map_values(|c: ReadContent| piece(c))
}

/// Adds a piece: empty text is dropped, text right after text joins it.
pub open spec fn push_piece(parts: Seq<Piece>, p: Piece) -> Seq<Piece> {
    match p {
        Piece::Text(t) => if t.len() == 0 {
            parts
        } else if parts.len() > 0 && parts.last() is Text {
            parts.update(parts.len() - 1, Piece::Text(parts.last()->Text_0 + t))
        } else {
            parts.push(p)
        },
        Piece::Image(_, _) => parts.push(p),
    }
}

/// What a cell's rendering emits, in order: a line of text, or an image.
pub enum Event {
    Line(Seq<char>),
    Media(Seq<u8>, Seq<char>),
}

/// The pieces so far and the lines not yet joined into a piece.
pub type RenderState = (Seq<Piece>, Seq<Seq<char>>);

/// The pending lines joined by newlines and added as a piece.
pub open spec fn flush(parts: Seq<Piece>, pending: Seq<Seq<char>>) -> Seq<Piece> {
    if pending.len() == 0 {
        parts
    } else {
        push_piece(parts, Piece::Text(join(pending, "\n"@)))
    }
}

/// One event applied: a line waits; an image ends the pending text.
pub open spec fn step(s: RenderState, e: Event) -> RenderState {
    match e {
        Event::Line(t) => (s.0, s.1.push(t)),
        Event::Media(d, m) => (flush(s.0, s.1).push(Piece::Image(d, m)), Seq::<Seq<char>>::empty()),
    }
}

/// The events applied in order from `s`.
pub open spec fn run_from(s: RenderState, events: Seq<Event>) -> RenderState
    decreases events.len(),
{
    if events.len() == 0 {
        s
    } else {
        step(run_from(s, events.drop_last()), events.last())
    }
}

/// The pieces that a sequence of events renders to.
pub open spec fn render_events(events: Seq<Event>) -> Seq<Piece> {
    let s = run_from((Seq::<Piece>::empty(), Seq::<Seq<char>>::empty()), events);
    flush(s.0, s.1)
}

/// Running two sequences of events is running one after the other.
pub proof fn lemma_run_concat(s: RenderState, a: Seq<Event>, b: Seq<Event>)
    ensures
        run_from(s, a + b) == run_from(run_from(s, a), b),
    decreases b.len(),
{
    if b.len() == 0 {
        assert(a + b =~= a);
    } else {
        assert((a + b).drop_last() =~= a + b.drop_last());
        lemma_run_concat(s, a, b.drop_last());
    }
}

/// Lines as events.
pub open spec fn line_events(ls: Seq<Seq<char>>) -> Seq<Event> {
    ls.map_values(|l: Seq<char>| Event::Line(l))
}

/// The events of a tagged block: `<tag>content</tag>` on one line when the
/// content has no newline; otherwise the tags on lines of their own around
/// the content's lines (one final newline of the content dropped).
pub open spec fn tag_block(tag: Seq<char>, content: Seq<char>) -> Seq<Event> {
    if !content.contains('\n') {
        seq![Event::Line("<"@ + tag + ">"@ + content + "</"@ + tag + ">"@)]
    } else {
        let block = if content.last() == '\n' {
            content.drop_last()
        } else {
            content
        };
        seq![Event::Line("<"@ + tag + ">"@)] + line_events(lines(block)) + seq![
            Event::Line("</"@ + tag + ">"@),
        ]
    }
}

// ---------------------------------------------------------------------------
// Building a rendering
// ---------------------------------------------------------------------------

/// Adds a piece to Read's output (see `push_piece`).
pub fn push_text_part(parts: &mut Vec<ReadContent>, content: ReadContent)
    ensures
        pieces(final(parts)@) == push_piece(pieces(old(parts)@), piece(content)),
{
    let ghost p0 = pieces(old(parts)@);
    match content {
        ReadContent::Text(text) => {
            if text.as_str().unicode_len() == 0 {
                return ;
            }
            let n = parts.len();
            if n > 0 {
                let last = parts.pop().unwrap();
                match last {
                    ReadContent::Text(existing) => {
                        let mut joined = existing;
                        push_str(&mut joined, text.as_str());
                        parts.push(ReadContent::Text(joined));
                        assert(pieces(parts@) =~= push_piece(p0, piece(ReadContent::Text(text))));
                        return ;
                    },
                    other => {
                        parts.push(other);
                        assert(parts@ =~= old(parts)@);
                    },
                }
            }
            parts.push(ReadContent::Text(text));
            assert(pieces(parts@) =~= push_piece(p0, piece(ReadContent::Text(text))));
        },
        ReadContent::Image { data, mime_type } => {
            parts.push(ReadContent::Image { data, mime_type });
            assert(pieces(parts@) =~= push_piece(
                p0,
                piece(ReadContent::Image { data, mime_type }),
            ));
        },
    }
}

/// Pieces of a rendering and the lines not yet joined.
struct RenderBuilder {
    parts: Vec<ReadContent>,
    lines: Vec<String>,
}

impl RenderBuilder {
    closed spec fn state(&self) -> RenderState {
        (pieces(self.parts@), views(self.lines@))
    }

    fn new() -> (res: Self)
        ensures
            res.state() == (Seq::<Piece>::empty(), Seq::<Seq<char>>::empty()),
    {
        let res = RenderBuilder { parts: Vec::new(), lines: Vec::new() };
        assert(res.state().0 =~= Seq::<Piece>::empty());
        assert(res.state().1 =~= Seq::<Seq<char>>::empty());
        res
    }

    fn push_line(&mut self, line: String)
        ensures
            final(self).state() == step(old(self).state(), Event::Line(line@)),
    {
        self.lines.push(line);
        assert(views(self.lines@) =~= views(old(self).lines@).push(line@));
    }

    fn flush_text(&mut self)
        ensures
            final(self).state() == (
                flush(old(self).state().0, old(self).state().1),
                Seq::<Seq<char>>::empty(),
            ),
    {
        if self.lines.len() == 0 {
            assert(views(self.lines@) =~= Seq::<Seq<char>>::empty());
            return ;
        }
        let joined = crate::text::join_strings(&self.lines, "\n");
        proof {
            reveal_strlit("\n");
        }
        push_text_part(&mut self.parts, ReadContent::Text(joined));
        self.lines = Vec::new();
        assert(views(self.lines@) =~= Seq::<Seq<char>>::empty());
    }

    fn push_image(&mut self, data: Vec<u8>, mime_type: String)
        ensures
            final(self).state() == step(old(self).state(), Event::Media(data@, mime_type@)),
    {
        self.flush_text();
        let ghost before = pieces(self.parts@);
        self.parts.push(ReadContent::Image { data, mime_type });
        assert(pieces(self.parts@) =~= before.push(Piece::Image(data@, mime_type@)));
    }

    fn finish(self) -> (res: Vec<ReadContent>)
        ensures
            pieces(res@) == flush(self.state().0, self.state().1),
    {
        let mut b = self;
        b.flush_text();
        b.parts
    }

    /// Emits the events of a tagged block.
    fn push_tag_block(&mut self, tag: &str, content: &str)
        ensures
            final(self).state() == run_from(old(self).state(), tag_block(tag@, content@)),
    {
        let cs = chars_of(content);
        let ghost s0 = self.state();
        if !contains_char(&cs, '\n') {
            let mut line = String::new();
            push_str(&mut line, "<");
            push_str(&mut line, tag);
            push_str(&mut line, ">");
            push_str(&mut line, content);
            push_str(&mut line, "</");
            push_str(&mut line, tag);
            push_str(&mut line, ">");
            self.push_line(line);
            proof {
                reveal_strlit("<");
                reveal_strlit(">");
                reveal_strlit("</");
                let l = "<"@ + tag@ + ">"@ + content@ + "</"@ + tag@ + ">"@;
                assert(line@ =~= l);
                let evs = tag_block(tag@, content@);
                assert(evs =~= seq![Event::Line(l)]);
                assert(evs.drop_last() =~= Seq::<Event>::empty());
                assert(run_from(s0, evs.drop_last()) == s0);
            }
            return ;
        }
        let mut open = String::new();
        push_str(&mut open, "<");
        push_str(&mut open, tag);
        push_str(&mut open, ">");
        self.push_line(open);
        let n = cs.len();
        let block = if cs[n - 1] == '\n' {
            crate::text::slice_chars(&cs, 0, n - 1)
        } else {
            crate::text::slice_chars(&cs, 0, n)
        };
        let ghost bl = if content@.last() == '\n' {
            content@.drop_last()
        } else {
            content@
        };
        assert(block@ =~= bl);
        let ls = lines_of(&block);
        let ghost lv = ls@.map_values(|p: Vec<char>| p@);
        let ghost first = seq![Event::Line("<"@ + tag@ + ">"@)];
        proof {
            reveal_strlit("<");
            reveal_strlit(">");
            reveal_strlit("</");
            assert(first.drop_last() =~= Seq::<Event>::empty());
            assert(open@ =~= "<"@ + tag@ + ">"@);
            assert(first + line_events(lv.take(0)) =~= first);
            assert(run_from(s0, first.drop_last()) == s0);
        }
        let mut i: usize = 0;
        while i < ls.len()
            invariant
                i <= ls.len(),
                lv == ls@.map_values(|p: Vec<char>| p@),
                self.state() == run_from(s0, first + line_events(lv.take(i as int))),
            decreases ls.len() - i,
        {
            let line = string_of(&ls[i]);
            self.push_line(line);
            proof {
                let prev = first + line_events(lv.take(i as int));
                let next = first + line_events(lv.take(i + 1));
                assert(next =~= prev.push(Event::Line(lv[i as int])));
                assert(next.drop_last() =~= prev);
            }
            i = i + 1;
        }
        let mut close = String::new();
        push_str(&mut close, "</");
        push_str(&mut close, tag);
        push_str(&mut close, ">");
        self.push_line(close);
        proof {
            assert(lv.take(i as int) =~= lv);
            let prev = first + line_events(lv);
            let all = prev.push(Event::Line("</"@ + tag@ + ">"@));
            assert(all.drop_last() =~= prev);
            assert(all =~= tag_block(tag@, content@));
        }
    }
}

// ---------------------------------------------------------------------------
// Output values
// ---------------------------------------------------------------------------

/// The most characters of an output text shown before it is cut.
pub const OUTPUT_CHAR_LIMIT: usize = 4000;

/// The notice that follows a cut output text.
pub open spec fn truncation_notice() -> Seq<char> {
    "[output truncated for readability. Use Bash with cat and jq on the .ipynb file to inspect the full output.]"@
}

/// An output text cut to its first `OUTPUT_CHAR_LIMIT` characters, followed by
/// the notice and the number of characters left out; a short text as it is.
pub open spec fn truncate_output(s: Seq<char>) -> Seq<char> {
    if s.len() <= OUTPUT_CHAR_LIMIT {
        s
    } else {
        s.take(OUTPUT_CHAR_LIMIT as int) + "\n\n"@ + truncation_notice() + "\nOmitted "@ + dec(
            (s.len() - OUTPUT_CHAR_LIMIT) as nat,
        ) + " characters."@
    }
}

/// Cuts a long output text (see `truncate_output`).
pub fn truncate_notebook_output_text(content: String) -> (res: String)
    ensures
        res@ == truncate_output(content@),
{
    let total = content.as_str().unicode_len();
    if total <= OUTPUT_CHAR_LIMIT {
        return content;
    }
    let cs = chars_of(content.as_str());
    let head = crate::text::slice_chars(&cs, 0, OUTPUT_CHAR_LIMIT);
    let mut out = string_of(&head);
    push_str(&mut out, "\n\n");
    push_str(
        &mut out,
        "[output truncated for readability. Use Bash with cat and jq on the .ipynb file to inspect the full output.]",
    );
    push_str(&mut out, "\nOmitted ");
    let omitted = decimal((total - OUTPUT_CHAR_LIMIT) as u128);
    push_str(&mut out, omitted.as_str());
    push_str(&mut out, " characters.");
    assert(head@ =~= content@.take(OUTPUT_CHAR_LIMIT as int));
    out
}

/// The output fields whose text may be cut.
pub open spec fn textual_field(key: Seq<char>) -> bool {
    key == "text"@ || key == "traceback"@ || key == "evalue"@
}

/// Whether an output field's text may be cut.
pub fn notebook_output_field_is_textual(key: &str) -> (res: bool)
    ensures
        res == textual_field(key@),
{
    str_eq(key, "text") || str_eq(key, "traceback") || str_eq(key, "evalue")
}

/// The media types shown as text.
pub open spec fn textual_mime(m: Seq<char>) -> bool {
    ||| has_prefix(m, "text/"@)
    ||| m == "application/json"@
    ||| has_suffix(m, "+json"@)
    ||| has_suffix(m, "+xml"@)
    ||| m == "application/javascript"@
}

/// Whether a media type is shown as text.
pub fn notebook_mime_type_is_textual(mime_type: &str) -> (res: bool)
    ensures
        res == textual_mime(mime_type@),
{
    str_starts_with(mime_type, "text/") || str_eq(mime_type, "application/json")
        || str_ends_with(mime_type, "+json") || str_ends_with(mime_type, "+xml") || str_eq(
        mime_type,
        "application/javascript",
    )
}

/// The text of an output field: its tag value, cut when the field is textual.
pub open spec fn field_value_text(key: Seq<char>, v: JsonValue) -> Seq<char> {
    if textual_field(key) {
        truncate_output(tag_value(v))
    } else {
        tag_value(v)
    }
}

/// The text of an output field.
pub fn render_output_field_value(key: &str, value: &JsonValue) -> (res: String)
    ensures
        res@ == field_value_text(key@, *value),
{
    let content = render_tag_value(value);
    if notebook_output_field_is_textual(key) {
        truncate_notebook_output_text(content)
    } else {
        content
    }
}

// ---------------------------------------------------------------------------
// The order of output fields
// ---------------------------------------------------------------------------

/// Where an output field comes among the others.
pub open spec fn field_rank(key: Seq<char>) -> int {
    if key == "output_type"@ {
        0
    } else if key == "name"@ {
        1
    } else if key == "execution_count"@ {
        2
    } else if key == "text"@ {
        3
    } else if key == "data"@ {
        4
    } else if key == "ename"@ {
        5
    } else if key == "evalue"@ {
        6
    } else if key == "traceback"@ {
        7
    } else {
        8
    }
}

/// The order of output fields: by rank, then by name.
pub open spec fn key_le(a: Seq<char>, b: Seq<char>) -> bool {
    field_rank(a) < field_rank(b) || (field_rank(a) == field_rank(b) && text_le(a, b))
}

/// `key_le` as a relation.
pub open spec fn key_order() -> spec_fn(Seq<char>, Seq<char>) -> bool {
    |a: Seq<char>, b: Seq<char>| key_le(a, b)
}

/// The order of output fields is a total order.
pub proof fn lemma_key_order_total()
    ensures
        total_ordering(key_order()),
{
    let le = key_order();
    assert forall|a: Seq<char>| #[trigger] le(a, a) by {
        lemma_text_le_reflexive(a);
    }
    assert forall|a: Seq<char>, b: Seq<char>| #[trigger] le(a, b) && #[trigger] le(b, a) implies a
        == b by {
        lemma_text_le_antisymmetric(a, b);
    }
    assert forall|a: Seq<char>, b: Seq<char>, c: Seq<char>| #[trigger]
        le(a, b) && #[trigger] le(b, c) implies le(a, c) by {
        if field_rank(a) == field_rank(b) && field_rank(b) == field_rank(c) {
            lemma_text_le_transitive(a, b, c);
        }
    }
    assert forall|a: Seq<char>, b: Seq<char>| #[trigger] le(a, b) || le(b, a) by {
        lemma_text_le_total(a, b);
    }
    assert(vstd::relations::reflexive(le));
    assert(vstd::relations::antisymmetric(le));
    assert(vstd::relations::transitive(le));
    assert(vstd::relations::strongly_connected(le));
}

/// The rank of an output field.
pub fn output_field_rank(key: &str) -> (res: u8)
    ensures
        res as int == field_rank(key@),
{
    if str_eq(key, "output_type") {
        0
    } else if str_eq(key, "name") {
        1
    } else if str_eq(key, "execution_count") {
        2
    } else if str_eq(key, "text") {
        3
    } else if str_eq(key, "data") {
        4
    } else if str_eq(key, "ename") {
        5
    } else if str_eq(key, "evalue") {
        6
    } else if str_eq(key, "traceback") {
        7
    } else {
        8
    }
}

/// Whether `a` comes no later than `b` among output fields.
fn output_key_le(a: &String, b: &String) -> (res: bool)
    ensures
        res == key_le(a@, b@),
{
    let ra = output_field_rank(a.as_str());
    let rb = output_field_rank(b.as_str());
    if ra < rb {
        true
    } else if ra > rb {
        false
    } else {
        let ac = chars_of(a.as_str());
        let bc = chars_of(b.as_str());
        text_le_exec(&ac, &bc)
    }
}

/// The names of an object's fields in the order in which they are shown.
pub open spec fn output_keys(fields: Seq<(String, JsonValue)>) -> Seq<Seq<char>> {
    fields.map_values(|f: (String, JsonValue)| f.0@).sort_by(key_order())
}

/// The names of an object's fields, sorted by rank and then by name.
pub fn sorted_output_keys(fields: &Vec<(String, JsonValue)>) -> (res: Vec<String>)
    ensures
        views(res@) == output_keys(fields@),
{
    let ghost names = fields@.map_values(|f: (String, JsonValue)| f.0@);
    let mut out: Vec<String> = Vec::new();
    let mut i: usize = 0;
    proof {
        lemma_key_order_total();
        assert(views(out@) =~= names.take(0));
    }
    while i < fields.len()
        invariant
            i <= fields.len(),
            names == fields@.map_values(|f: (String, JsonValue)| f.0@),
            total_ordering(key_order()),
            sorted_by(views(out@), key_order()),
            views(out@).to_multiset() == names.take(i as int).to_multiset(),
        decreases fields.len() - i,
    {
        let key = fields[i].0.clone();
        let mut p: usize = 0;
        while p < out.len() && output_key_le(&out[p], &key)
            invariant
                p <= out.len(),
                forall|j: int| 0 <= j < p ==> key_le(#[trigger] views(out@)[j], key@),
            decreases out.len() - p,
        {
            p = p + 1;
        }
        let ghost before = views(out@);
        proof {
            assert forall|j: int| p <= j < before.len() implies key_le(key@, #[trigger] before[j]) by {
                if j == p {
                    lemma_text_le_total(key@, before[j]);
                } else {
                    let le = key_order();
                    assert(le(before[p as int], before[j]));
                    if !key_le(key@, before[p as int]) {
                        lemma_text_le_total(key@, before[p as int]);
                    }
                    assert(le(key@, before[p as int]));
                }
            }
        }
        out.insert(p, key);
        proof {
            let after = views(out@);
            assert(after =~= before.insert(p as int, key@));
            let le = key_order();
            assert forall|a: int, b: int| 0 <= a < b < after.len() implies #[trigger] le(
                after[a],
                after[b],
            ) by {
                if b < p {
                    assert(le(before[a], before[b]));
                } else if a < p && b == p {
                } else if a < p {
                    assert(le(before[a], before[b - 1]));
                } else if a == p {
                } else {
                    assert(le(before[a - 1], before[b - 1]));
                }
            }
            vstd::seq_lib::to_multiset_insert(before, p as int, key@);
            assert(names.take(i + 1) =~= names.take(i as int).push(names[i as int]));
            vstd::seq_lib::to_multiset_build(names.take(i as int), names[i as int]);
        }
        i = i + 1;
    }
    proof {
        assert(names.take(i as int) =~= names);
        names.lemma_sort_by_ensures(key_order());
        vstd::seq_lib::lemma_sorted_unique(views(out@), names.sort_by(key_order()), key_order());
    }
    out
}

// ---------------------------------------------------------------------------
// Output data
// ---------------------------------------------------------------------------

/// The bytes that `text` encodes in standard base64 (padded), or nothing where
/// `text` is no such encoding.
pub uninterp spec fn base64_standard_decoded(text: Seq<char>) -> Option<Seq<u8>>;

/// Decodes standard base64.
///
/// Trusted: calls `Engine::decode` of `base64::engine::general_purpose::STANDARD`
/// on the UTF-8 bytes of `text`; the contract says only that the result is
/// the one that engine gives for `text`, named `base64_standard_decoded`.
#[verifier::external_body]
fn decode_base64(text: &str) -> (res: Option<Vec<u8>>)
    ensures
        base64_standard_decoded(text@) == opt_bytes(res),
{
    base64::Engine::decode(&base64::engine::general_purpose::STANDARD, text.as_bytes()).ok()
}

/// The standard base64 text (padded) of `bytes`.
pub uninterp spec fn base64_standard_encoded(bytes: Seq<u8>) -> Seq<char>;

/// Encodes standard base64.
///
/// Trusted: calls `Engine::encode` of `base64::engine::general_purpose::STANDARD`;
/// the text is named `base64_standard_encoded`, and the same engine decodes
/// it back to the bytes.
#[verifier::external_body]
fn encode_base64(bytes: &[u8]) -> (res: String)
    ensures
        res@ == base64_standard_encoded(bytes@),
        base64_standard_decoded(res@) == Some(bytes@),
{
    base64::Engine::encode(&base64::engine::general_purpose::STANDARD, bytes)
}

/// The base64 text an image is sent as; it decodes back to the image.
pub fn image_base64(data: &[u8]) -> (res: String)
    ensures
        res@ == base64_standard_encoded(data@),
        base64_standard_decoded(res@) == Some(data@),
{
    encode_base64(data)
}

/// The value of optional bytes.
pub open spec fn opt_bytes(v: Option<Vec<u8>>) -> Option<Seq<u8>> {
    match v {
        Some(d) => Some(d@),
        None => None,
    }
}

/// `s` without its whitespace characters.
pub open spec fn without_ws(s: Seq<char>) -> Seq<char>
    decreases s.len(),
{
    if s.len() == 0 {
        s
    } else if is_ws(s.last()) {
        without_ws(s.drop_last())
    } else {
        without_ws(s.drop_last()).push(s.last())
    }
}

/// The base64 text of an image output: its lines joined, whitespace removed.
pub open spec fn image_text(v: JsonValue) -> Seq<char> {
    without_ws(concat(value_lines(Some(v))))
}

/// The base64 text of an image output.
pub fn image_payload(value: &JsonValue) -> (res: String)
    ensures
        res@ == image_text(*value),
{
    let joined = value_text(Some(value));
    let cs = chars_of(joined.as_str());
    let mut out = String::new();
    let mut i: usize = 0;
    while i < cs.len()
        invariant
            i <= cs.len(),
            cs@ == joined@,
            out@ == without_ws(cs@.take(i as int)),
        decreases cs.len() - i,
    {
        assert(cs@.take(i + 1).drop_last() =~= cs@.take(i as int));
        if !is_whitespace(cs[i]) {
            push_char(&mut out, cs[i]);
        }
        i = i + 1;
    }
    assert(cs@.take(i as int) =~= cs@);
    out
}

/// How one entry of an output's data map is written: as it was, or as a
/// new string.
pub enum Entry {
    Kept(JsonValue),
    Replaced(Seq<char>),
}

/// How one entry of an output's data map is written.
pub enum RenderedItem {
    Kept,
    Replaced(String),
}

/// The entry that a rendered item stands for.
pub open spec fn entry_of(r: RenderedItem, item: JsonValue) -> Entry {
    match r {
        RenderedItem::Kept => Entry::Kept(item),
        RenderedItem::Replaced(s) => Entry::Replaced(s@),
    }
}

/// The text that stands in the data map for an image shown below it.
pub open spec fn image_placeholder(mime: Seq<char>) -> Seq<char> {
    "["@ + mime + " output rendered below]"@
}

/// What becomes of a data entry, given what its base64 text decoded to: an
/// image that decoded to some bytes is shown as an image, with a placeholder
/// in the map; a long textual value is cut; anything else is kept.
pub open spec fn item_result(mime: Seq<char>, item: JsonValue, decoded: Option<Seq<u8>>) -> (
    Entry,
    Option<Seq<u8>>,
) {
    if has_prefix(mime, "image/"@) && decoded is Some && decoded->0.len() > 0 {
        (Entry::Replaced(image_placeholder(mime)), decoded)
    } else if textual_mime(mime) && tag_value(item).len() > OUTPUT_CHAR_LIMIT {
        (Entry::Replaced(truncate_output(tag_value(item))), None)
    } else {
        (Entry::Kept(item), None)
    }
}

/// What an image entry's base64 text decodes to; nothing for other types.
pub open spec fn item_decoded(mime: Seq<char>, item: JsonValue) -> Option<Seq<u8>> {
    if has_prefix(mime, "image/"@) {
        base64_standard_decoded(image_text(item))
    } else {
        None
    }
}

/// What becomes of a data entry.
pub open spec fn item_outcome(mime: Seq<char>, item: JsonValue) -> (Entry, Option<Seq<u8>>) {
    item_result(mime, item, item_decoded(mime, item))
}

/// What becomes of a data entry, given what its base64 text decoded to.
pub fn data_item_with(mime_type: &str, value: &JsonValue, decoded: Option<Vec<u8>>) -> (res: (
    RenderedItem,
    Option<Vec<u8>>,
))
    ensures
        (entry_of(res.0, *value), opt_bytes(res.1)) == item_result(
            mime_type@,
            *value,
            opt_bytes(decoded),
        ),
{
    if str_starts_with(mime_type, "image/") {
        if let Some(data) = decoded {
            if data.len() > 0 {
                let mut text = String::new();
                push_str(&mut text, "[");
                push_str(&mut text, mime_type);
                push_str(&mut text, " output rendered below]");
                return (RenderedItem::Replaced(text), Some(data));
            }
        }
    }
    if notebook_mime_type_is_textual(mime_type) {
        let rendered = render_tag_value(value);
        if rendered.as_str().unicode_len() > OUTPUT_CHAR_LIMIT {
            return (RenderedItem::Replaced(truncate_notebook_output_text(rendered)), None);
        }
    }
    (RenderedItem::Kept, None)
}

/// What becomes of a data entry (see `item_outcome`).
pub fn render_output_data_item(mime_type: &str, value: &JsonValue) -> (res: (
    RenderedItem,
    Option<Vec<u8>>,
))
    ensures
        (entry_of(res.0, *value), opt_bytes(res.1)) == item_outcome(mime_type@, *value),
{
    let decoded = if str_starts_with(mime_type, "image/") {
        let text = image_payload(value);
        decode_base64(text.as_str())
    } else {
        None
    };
    data_item_with(mime_type, value, decoded)
}

/// The value an entry of the data map is written as.
pub open spec fn entry_json(e: Entry) -> Json {
    match e {
        Entry::Kept(v) => jv(v),
        Entry::Replaced(s) => Json::Str(s),
    }
}

/// The data map as written: each entry by its value or its replacement.
pub open spec fn data_fields(fields: Seq<(String, JsonValue)>) -> Seq<(Seq<char>, Json)> {
    fields.map_values(
        |f: (String, JsonValue)| (f.0@, entry_json(item_outcome(f.0@, f.1).0)),
    )
}

/// The written data map, as `serde_json::to_string_pretty` writes it.
pub open spec fn data_text(fields: Seq<(String, JsonValue)>) -> Seq<char> {
    serde_pretty_of(Json::Object(data_fields(fields)))
}

/// The images of the first `n` data entries.
pub open spec fn data_media(fields: Seq<(String, JsonValue)>, n: nat) -> Seq<Event>
    decreases n,
{
    if n == 0 || n > fields.len() {
        Seq::<Event>::empty()
    } else {
        let f = fields[n - 1];
        data_media(fields, (n - 1) as nat) + match item_outcome(f.0@, f.1).1 {
            Some(d) => seq![Event::Media(d, f.0@)],
            None => Seq::<Event>::empty(),
        }
    }
}

/// The events of an output's `data` field: the map as a tagged block, then
/// its images; anything but a map as a tagged value.
pub open spec fn data_events(v: JsonValue) -> Seq<Event> {
    match v {
        JsonValue::Object(fields) => tag_block("data"@, data_text(fields@)) + data_media(
            fields@,
            fields@.len(),
        ),
        _ => tag_block("data"@, tag_value(v)),
    }
}

/// The images collected from a data map, as events.
pub open spec fn media_events(m: Seq<(Vec<u8>, String)>) -> Seq<Event> {
    m.map_values(|x: (Vec<u8>, String)| Event::Media(x.0@, x.1@))
}

/// The data map as written, with the images it stands for (see
/// `data_text` and `data_media`).
#[verifier::spinoff_prover]
fn data_map_text(fields: &Vec<(String, JsonValue)>) -> (res: (String, Vec<(Vec<u8>, String)>))
    ensures
        res.0@ == data_text(fields@),
        media_events(res.1@) == data_media(fields@, fields@.len()),
{
    let ghost f = fields@;
    let ghost want = data_fields(f);
    let mut written: Vec<(String, JsonValue)> = Vec::new();
    let mut media: Vec<(Vec<u8>, String)> = Vec::new();
    let mut i: usize = 0;
    proof {
        lemma_jfields(written@);
        assert(jfields(written@) =~= want.take(0));
        assert(media_events(media@) =~= data_media(f, 0));
    }
    while i < fields.len()
        invariant
            i <= fields.len(),
            f == fields@,
            want == data_fields(f),
            jfields(written@) == want.take(i as int),
            media_events(media@) == data_media(f, i as nat),
        decreases fields.len() - i,
    {
        let key = &fields[i].0;
        let value = &fields[i].1;
        let (item, data) = render_output_data_item(key.as_str(), value);
        let entry = match item {
            RenderedItem::Kept => copy_json(value),
            RenderedItem::Replaced(r) => JsonValue::String(r),
        };
        assert(jv(entry) == entry_json(item_outcome(key@, *value).0));
        let ghost before = written@;
        written.push((key.clone(), entry));
        proof {
            lemma_jfields(before);
            lemma_jfields(written@);
            assert(want[i as int] == (key@, entry_json(item_outcome(key@, *value).0)));
            assert(jfields(written@) =~= want.take(i + 1));
        }
        let ghost before_media = media@;
        match data {
            Some(d) => {
                media.push((d, key.clone()));
            },
            None => {},
        }
        proof {
            assert(media_events(media@) =~= data_media(f, (i + 1) as nat));
        }
        i = i + 1;
    }
    proof {
        assert(want.take(i as int) =~= want);
    }
    let map = JsonValue::Object(written);
    let text = to_string_pretty(&map);
    (text, media)
}

/// Emits the events of an output's `data` field (see `data_events`).
fn render_output_data(b: &mut RenderBuilder, value: &JsonValue)
    ensures
        final(b).state() == run_from(old(b).state(), data_events(*value)),
{
    let ghost s0 = b.state();
    match value {
        JsonValue::Object(fields) => {
            let ghost f = fields@;
            let (text, mut media) = data_map_text(fields);
            b.push_tag_block("data", text.as_str());
            let ghost s1 = b.state();
            let ghost all = media_events(media@);
            let mut k: usize = 0;
            let ghost total = media.len();
            proof {
                assert(all.take(0) =~= Seq::<Event>::empty());
            }
            while media.len() > 0
                invariant
                    k + media.len() == total,
                    all.len() == total,
                    media_events(media@) == all.skip(k as int),
                    b.state() == run_from(s1, all.take(k as int)),
                decreases media.len(),
            {
                let ghost rest = media@;
                let (d, m) = media.remove(0);
                proof {
                    assert(all[k as int] == Event::Media(d@, m@)) by {
                        assert(media_events(rest)[0] == all.skip(k as int)[0]);
                    }
                    assert(media@ =~= rest.skip(1));
                    assert(media_events(media@) =~= media_events(rest).skip(1));
                    assert(all.skip(k as int).skip(1) =~= all.skip(k + 1));
                }
                b.push_image(d, m);
                proof {
                    assert(all.take(k + 1).drop_last() =~= all.take(k as int));
                    assert(all.take(k + 1).last() == all[k as int]);
                }
                k = k + 1;
            }
            proof {
                assert(all.take(k as int) =~= all);
                lemma_run_concat(s0, tag_block("data"@, data_text(f)), all);
            }
        },
        _ => {
            let t = render_tag_value(value);
            b.push_tag_block("data", t.as_str());
        },
    }
}

/// The events of one output field: the data map, or a tagged value.
pub open spec fn field_events(key: Seq<char>, v: JsonValue) -> Seq<Event> {
    if key == "data"@ {
        data_events(v)
    } else {
        tag_block(key, field_value_text(key, v))
    }
}

/// The value of field `key`, or null where there is none.
pub open spec fn lookup(fields: Seq<(String, JsonValue)>, key: Seq<char>) -> JsonValue {
    match field_index(fields, key) {
        Some(i) => fields[i].1,
        None => JsonValue::Null,
    }
}

/// The events of the fields named by `keys`, in that order.
pub open spec fn keyed_events(fields: Seq<(String, JsonValue)>, keys: Seq<Seq<char>>) -> Seq<
    Event,
>
    decreases keys.len(),
{
    if keys.len() == 0 {
        Seq::<Event>::empty()
    } else {
        keyed_events(fields, keys.drop_last()) + field_events(
            keys.last(),
            lookup(fields, keys.last()),
        )
    }
}

/// The events of one output: its fields in order of rank and name (anything
/// but a map as an indented value), numbered when the cell has several.
pub open spec fn output_events(out: JsonValue, index: Option<nat>) -> Seq<Event> {
    let open = match index {
        Some(i) => seq![Event::Line("<output number=\""@ + dec(i) + "\">"@)],
        None => Seq::<Event>::empty(),
    };
    let close = match index {
        Some(_) => seq![Event::Line("</output>"@)],
        None => Seq::<Event>::empty(),
    };
    open + output_body(out) + close
}

/// The events of an output's fields, in order of rank and name; anything but
/// a map as an indented value.
pub open spec fn output_body(out: JsonValue) -> Seq<Event> {
    match out {
        JsonValue::Object(fields) => keyed_events(fields@, output_keys(fields@)),
        _ => tag_block("output"@, to_pretty(out)),
    }
}

/// Emits the events of one output field.
fn render_output_field(b: &mut RenderBuilder, key: &str, value: &JsonValue)
    ensures
        final(b).state() == run_from(old(b).state(), field_events(key@, *value)),
{
    if str_eq(key, "data") {
        render_output_data(b, value);
    } else {
        let content = render_output_field_value(key, value);
        b.push_tag_block(key, content.as_str());
    }
}

/// Emits the events of one output (see `output_events`).
fn render_output(b: &mut RenderBuilder, output: &JsonValue, index: Option<usize>)
    ensures
        final(b).state() == run_from(
            old(b).state(),
            output_events(
                *output,
                match index {
                    Some(i) => Some(i as nat),
                    None => None,
                },
            ),
        ),
{
    let ghost s0 = b.state();
    let ghost gi: Option<nat> = match index {
        Some(i) => Some(i as nat),
        None => None,
    };
    let ghost open = match gi {
        Some(i) => seq![Event::Line("<output number=\""@ + dec(i) + "\">"@)],
        None => Seq::<Event>::empty(),
    };
    let ghost close = match gi {
        Some(_) => seq![Event::Line("</output>"@)],
        None => Seq::<Event>::empty(),
    };
    if let Some(i) = index {
        let mut line = String::new();
        push_str(&mut line, "<output number=\"");
        let n = decimal(i as u128);
        push_str(&mut line, n.as_str());
        push_str(&mut line, "\">");
        b.push_line(line);
        proof {
            assert(open.drop_last() =~= Seq::<Event>::empty());
            assert(run_from(s0, open.drop_last()) == s0);
        }
    }
    let ghost s1 = b.state();
    assert(s1 == run_from(s0, open));
    let ghost body = output_body(*output);
    match output {
        JsonValue::Object(fields) => {
            let keys = sorted_output_keys(fields);
            let ghost kv = views(keys@);
            let null = JsonValue::Null;
            let mut k: usize = 0;
            proof {
                assert(kv.take(0) =~= Seq::<Seq<char>>::empty());
            }
            while k < keys.len()
                invariant
                    k <= keys.len(),
                    kv == views(keys@),
                    null == JsonValue::Null,
                    b.state() == run_from(s1, keyed_events(fields@, kv.take(k as int))),
                decreases keys.len() - k,
            {
                let ghost s_k = b.state();
                assert(kv[k as int] == keys@[k as int]@);
                let found = find_field(fields, keys[k].as_str());
                let value = match found {
                    Some(j) => &fields[j].1,
                    None => &null,
                };
                proof {
                    match found {
                        Some(j) => {
                            assert(field_index(fields@, kv[k as int]) == Some(j as int));
                            assert(*value == fields@[j as int].1);
                        },
                        None => {
                            assert(field_index(fields@, kv[k as int]) is None);
                            assert(*value == JsonValue::Null);
                        },
                    }
                }
                assert(*value == lookup(fields@, kv[k as int]));
                render_output_field(b, keys[k].as_str(), value);
                proof {
                    assert(kv.take(k + 1).last() == kv[k as int]);
                    assert(kv.take(k + 1).drop_last() =~= kv.take(k as int));
                    lemma_run_concat(
                        s1,
                        keyed_events(fields@, kv.take(k as int)),
                        field_events(kv[k as int], lookup(fields@, kv[k as int])),
                    );
                }
                k = k + 1;
            }
            proof {
                assert(kv.take(k as int) =~= kv);
            }
        },
        _ => {
            let t = crate::json::to_string_pretty(output);
            b.push_tag_block("output", t.as_str());
        },
    }
    let ghost s2 = b.state();
    assert(s2 == run_from(s1, body));
    if index.is_some() {
        let mut line = String::new();
        push_str(&mut line, "</output>");
        b.push_line(line);
        proof {
            assert(close.drop_last() =~= Seq::<Event>::empty());
            assert(run_from(s2, close.drop_last()) == s2);
        }
    }
    proof {
        lemma_run_concat(s0, open, body);
        lemma_run_concat(s0, open + body, close);
        assert(output_events(*output, gi) =~= open + body + close);
    }
}

// ---------------------------------------------------------------------------
// Cells and notebooks
// ---------------------------------------------------------------------------

/// The value under `key` of an optional value.
pub open spec fn get_in(v: Option<JsonValue>, key: Seq<char>) -> Option<JsonValue> {
    match v {
        Some(x) => get_field(x, key),
        None => None,
    }
}

/// A notebook's language: `metadata.language_info.name`, else
/// `metadata.kernelspec.language`, else `unknown`.
pub open spec fn notebook_lang(nb: JsonValue) -> Seq<char> {
    let meta = get_field(nb, "metadata"@);
    match as_text(get_in(get_in(meta, "language_info"@), "name"@)) {
        Some(t) => t,
        None => match as_text(get_in(get_in(meta, "kernelspec"@), "language"@)) {
            Some(t) => t,
            None => "unknown"@,
        },
    }
}

/// The value under `key` of an optional value.
fn get_opt<'a>(v: Option<&'a JsonValue>, key: &str) -> (res: Option<&'a JsonValue>)
    ensures
        opt_value(res) == get_in(opt_value(v), key@),
{
    match v {
        Some(x) => get(x, key),
        None => None,
    }
}

/// An optional reference as an optional value.
pub open spec fn opt_value(v: Option<&JsonValue>) -> Option<JsonValue> {
    match v {
        Some(x) => Some(*x),
        None => None,
    }
}

/// A notebook's language.
pub fn notebook_language(notebook: &JsonValue) -> (res: String)
    ensures
        res@ == notebook_lang(*notebook),
{
    let meta = get(notebook, "metadata");
    let name = get_opt(get_opt(meta, "language_info"), "name");
    match as_str(name) {
        Some(t) => t.to_owned(),
        None => {
            let lang = get_opt(get_opt(meta, "kernelspec"), "language");
            match as_str(lang) {
                Some(t) => t.to_owned(),
                None => "unknown".to_owned(),
            }
        },
    }
}

/// The first line of a cell: its number and, when it has one, its id.
pub open spec fn cell_header(cell: JsonValue, index: nat) -> Seq<char> {
    "<cell number=\""@ + dec(index) + "\""@ + match as_text(get_field(cell, "id"@)) {
        Some(id) => " id=\""@ + id + "\""@,
        None => Seq::<char>::empty(),
    } + ">"@
}

/// A cell's type as written in it, or `unknown`.
pub open spec fn cell_kind(cell: JsonValue) -> Seq<char> {
    match as_text(get_field(cell, "cell_type"@)) {
        Some(t) => t,
        None => "unknown"@,
    }
}

/// The events of the first `n` outputs, each numbered.
pub open spec fn indexed_outputs(outs: Seq<JsonValue>, n: nat) -> Seq<Event>
    decreases n,
{
    if n == 0 || n > outs.len() {
        Seq::<Event>::empty()
    } else {
        indexed_outputs(outs, (n - 1) as nat) + output_events(outs[n - 1], Some((n - 1) as nat))
    }
}

/// The events of a cell's outputs: none when it has none; one output
/// unnumbered; several numbered.
pub open spec fn outputs_events(cell: JsonValue) -> Seq<Event> {
    match get_field(cell, "outputs"@) {
        Some(JsonValue::Array(outs)) => if outs.len() == 0 {
            Seq::<Event>::empty()
        } else {
            seq![Event::Line("<outputs>"@)] + if outs.len() == 1 {
                output_events(outs@[0], None)
            } else {
                indexed_outputs(outs@, outs@.len())
            } + seq![Event::Line("</outputs>"@)]
        },
        _ => Seq::<Event>::empty(),
    }
}

/// The events of a cell: header, type, language for code, source, outputs.
pub open spec fn cell_events(cell: JsonValue, index: nat, language: Seq<char>) -> Seq<Event> {
    let kind = cell_kind(cell);
    seq![
        Event::Line(cell_header(cell, index)),
        Event::Line("<cell_type>"@ + kind + "</cell_type>"@),
    ] + if kind == "code"@ {
        seq![Event::Line("<language>"@ + language + "</language>"@)]
    } else {
        Seq::<Event>::empty()
    } + tag_block("source"@, concat(value_lines(get_field(cell, "source"@)))) + outputs_events(cell)
        + seq![Event::Line("</cell>"@)]
}

/// The pieces of one cell's rendering.
pub open spec fn cell_pieces(cell: JsonValue, index: nat, language: Seq<char>) -> Seq<Piece> {
    render_events(cell_events(cell, index, language))
}

/// Emits one line and says so in terms of events.
fn emit_line(b: &mut RenderBuilder, line: String)
    ensures
        final(b).state() == run_from(old(b).state(), seq![Event::Line(line@)]),
{
    let ghost s0 = b.state();
    b.push_line(line);
    proof {
        let e = seq![Event::Line(line@)];
        assert(e.drop_last() =~= Seq::<Event>::empty());
        assert(run_from(s0, e.drop_last()) == s0);
    }
}

/// Emits the events of a cell's outputs.
fn render_outputs(b: &mut RenderBuilder, cell: &JsonValue)
    ensures
        final(b).state() == run_from(old(b).state(), outputs_events(*cell)),
{
    let ghost s0 = b.state();
    match get(cell, "outputs") {
        Some(JsonValue::Array(outs)) => {
            if outs.len() == 0 {
                return ;
            }
            let ghost open = seq![Event::Line("<outputs>"@)];
            emit_line(b, "<outputs>".to_owned());
            let ghost s1 = b.state();
            let ghost body = if outs.len() == 1 {
                output_events(outs@[0], None)
            } else {
                indexed_outputs(outs@, outs@.len())
            };
            if outs.len() == 1 {
                render_output(b, &outs[0], None);
            } else {
                let mut i: usize = 0;
                while i < outs.len()
                    invariant
                        i <= outs.len(),
                        b.state() == run_from(s1, indexed_outputs(outs@, i as nat)),
                    decreases outs.len() - i,
                {
                    let ghost si = b.state();
                    render_output(b, &outs[i], Some(i));
                    proof {
                        lemma_run_concat(
                            s1,
                            indexed_outputs(outs@, i as nat),
                            output_events(outs@[i as int], Some(i as nat)),
                        );
                    }
                    i = i + 1;
                }
            }
            let ghost s2 = b.state();
            emit_line(b, "</outputs>".to_owned());
            proof {
                lemma_run_concat(s0, open, body);
                lemma_run_concat(s0, open + body, seq![Event::Line("</outputs>"@)]);
                assert(outputs_events(*cell) =~= open + body + seq![Event::Line("</outputs>"@)]);
            }
        },
        _ => {
            assert(outputs_events(*cell) =~= Seq::<Event>::empty());
            assert(run_from(s0, Seq::<Event>::empty()) == s0);
        },
    }
}

/// One cell rendered (see `cell_events`).
pub fn render_notebook_cell(cell: &JsonValue, index: usize, language: &str) -> (res: Vec<
    ReadContent,
>)
    ensures
        pieces(res@) == cell_pieces(*cell, index as nat, language@),
{
    let mut b = RenderBuilder::new();
    let ghost s0 = b.state();
    let mut header = String::new();
    push_str(&mut header, "<cell number=\"");
    let n = decimal(index as u128);
    push_str(&mut header, n.as_str());
    push_str(&mut header, "\"");
    match as_str(get(cell, "id")) {
        Some(id) => {
            push_str(&mut header, " id=\"");
            push_str(&mut header, id);
            push_str(&mut header, "\"");
        },
        None => {},
    }
    push_str(&mut header, ">");
    proof {
        assert(header@ =~= cell_header(*cell, index as nat));
    }
    let kind = match as_str(get(cell, "cell_type")) {
        Some(t) => t.to_owned(),
        None => "unknown".to_owned(),
    };
    let ghost e1 = seq![
        Event::Line(cell_header(*cell, index as nat)),
        Event::Line("<cell_type>"@ + kind@ + "</cell_type>"@),
    ];
    emit_line(&mut b, header);
    let mut kline = String::new();
    push_str(&mut kline, "<cell_type>");
    push_str(&mut kline, kind.as_str());
    push_str(&mut kline, "</cell_type>");
    emit_line(&mut b, kline);
    proof {
        lemma_run_concat(
            s0,
            seq![Event::Line(cell_header(*cell, index as nat))],
            seq![Event::Line("<cell_type>"@ + kind@ + "</cell_type>"@)],
        );
        assert(seq![Event::Line(cell_header(*cell, index as nat))] + seq![
            Event::Line("<cell_type>"@ + kind@ + "</cell_type>"@),
        ] =~= e1);
    }
    let ghost e2 = if kind@ == "code"@ {
        seq![Event::Line("<language>"@ + language@ + "</language>"@)]
    } else {
        Seq::<Event>::empty()
    };
    let ghost s1 = b.state();
    if str_eq(kind.as_str(), "code") {
        let mut lline = String::new();
        push_str(&mut lline, "<language>");
        push_str(&mut lline, language);
        push_str(&mut lline, "</language>");
        emit_line(&mut b, lline);
    } else {
        assert(run_from(s1, e2) == s1);
    }
    let ghost s2 = b.state();
    let source = value_text(get(cell, "source"));
    b.push_tag_block("source", source.as_str());
    let ghost e3 = tag_block("source"@, concat(value_lines(get_field(*cell, "source"@))));
    let ghost s3 = b.state();
    render_outputs(&mut b, cell);
    let ghost s4 = b.state();
    emit_line(&mut b, "</cell>".to_owned());
    proof {
        let e4 = outputs_events(*cell);
        let e5 = seq![Event::Line("</cell>"@)];
        lemma_run_concat(s0, e1, e2);
        lemma_run_concat(s0, e1 + e2, e3);
        lemma_run_concat(s0, e1 + e2 + e3, e4);
        lemma_run_concat(s0, e1 + e2 + e3 + e4, e5);
        assert(cell_events(*cell, index as nat, language@) =~= e1 + e2 + e3 + e4 + e5);
    }
    b.finish()
}

/// The pieces `ps` added one by one.
pub open spec fn push_all(parts: Seq<Piece>, ps: Seq<Piece>) -> Seq<Piece>
    decreases ps.len(),
{
    if ps.len() == 0 {
        parts
    } else {
        push_piece(push_all(parts, ps.drop_last()), ps.last())
    }
}

/// The pieces of the first `n` cells, a newline between neighbours.
pub open spec fn notebook_parts(cells: Seq<JsonValue>, language: Seq<char>, n: nat) -> Seq<Piece>
    decreases n,
{
    if n == 0 || n > cells.len() {
        Seq::<Piece>::empty()
    } else {
        let before = notebook_parts(cells, language, (n - 1) as nat);
        let sep = if n > 1 {
            push_piece(before, Piece::Text("\n"@))
        } else {
            before
        };
        push_all(sep, cell_pieces(cells[n - 1], (n - 1) as nat, language))
    }
}

/// What Read returns, as values.
pub enum ReadView {
    Text(Seq<char>),
    Image(Seq<u8>, Seq<char>),
    Contents(Seq<Piece>),
}

/// The value of what Read returns.
pub open spec fn read_view(o: ReadFileOutput) -> ReadView {
    match o {
        ReadFileOutput::Text(t) => ReadView::Text(t@),
        ReadFileOutput::Image { data, mime_type } => ReadView::Image(data@, mime_type@),
        ReadFileOutput::Contents(v) => ReadView::Contents(pieces(v@)),
    }
}

/// A rendering as Read returns it: nothing as empty text, one text as text,
/// anything else as a list of pieces.
pub open spec fn normalized(parts: Seq<Piece>) -> ReadView {
    if parts.len() == 0 {
        ReadView::Text(Seq::<char>::empty())
    } else if parts.len() == 1 && parts[0] is Text {
        ReadView::Text(parts[0]->Text_0)
    } else {
        ReadView::Contents(parts)
    }
}

/// A rendering as Read returns it (see `normalized`).
pub fn normalize_read_contents(parts: Vec<ReadContent>) -> (res: ReadFileOutput)
    ensures
        read_view(res) == normalized(pieces(parts@)),
{
    if parts.len() == 0 {
        return ReadFileOutput::Text(String::new());
    }
    if parts.len() == 1 {
        let mut parts = parts;
        let ghost all = parts@;
        let first = parts.pop().unwrap();
        match first {
            ReadContent::Text(text) => {
                return ReadFileOutput::Text(text);
            },
            other => {
                let mut one: Vec<ReadContent> = Vec::new();
                one.push(other);
                assert(pieces(one@) =~= pieces(all));
                return ReadFileOutput::Contents(one);
            },
        }
    }
    ReadFileOutput::Contents(parts)
}

/// The rendering of a notebook: its cells one after another; an error when
/// it has no `cells` array.
pub open spec fn notebook_rendering(nb: JsonValue) -> Option<ReadView> {
    match get_field(nb, "cells"@) {
        Some(JsonValue::Array(cells)) => Some(
            normalized(notebook_parts(cells@, notebook_lang(nb), cells@.len())),
        ),
        _ => None,
    }
}

/// The error for a notebook without a `cells` array.
pub open spec fn no_cells_message() -> Seq<char> {
    "Notebook does not contain a cells array."@
}

/// Adds pieces one by one.
fn push_parts(parts: &mut Vec<ReadContent>, more: Vec<ReadContent>)
    ensures
        pieces(final(parts)@) == push_all(pieces(old(parts)@), pieces(more@)),
{
    let ghost p0 = pieces(old(parts)@);
    let ghost mv = pieces(more@);
    let mut more = more;
    let mut rest: Vec<ReadContent> = Vec::new();
    while more.len() > 0
        invariant
            pieces(more@) + pieces(rest@) == mv,
        decreases more.len(),
    {
        let ghost m0 = more@;
        let ghost r0 = rest@;
        let x = more.pop().unwrap();
        rest.insert(0, x);
        proof {
            assert(more@ =~= m0.drop_last());
            assert(rest@ =~= seq![x] + r0);
            assert(pieces(more@) + pieces(rest@) =~= pieces(m0) + pieces(r0));
        }
    }
    assert(pieces(rest@) =~= mv);
    let ghost all = pieces(rest@);
    let mut k: usize = 0;
    let total = rest.len();
    proof {
        assert(all.take(0) =~= Seq::<Piece>::empty());
    }
    while rest.len() > 0
        invariant
            k + rest.len() == total,
            all.len() == total,
            pieces(rest@) == all.skip(k as int),
            pieces(parts@) == push_all(p0, all.take(k as int)),
        decreases rest.len(),
    {
        let ghost r0 = rest@;
        let x = rest.remove(0);
        proof {
            assert(piece(x) == all[k as int]) by {
                assert(pieces(r0)[0] == all.skip(k as int)[0]);
            }
            assert(rest@ =~= r0.skip(1));
            assert(pieces(rest@) =~= pieces(r0).skip(1));
            assert(all.skip(k as int).skip(1) =~= all.skip(k + 1));
            assert(all.take(k + 1).drop_last() =~= all.take(k as int));
        }
        push_text_part(parts, x);
        k = k + 1;
    }
    assert(all.take(k as int) =~= all);
}

/// A notebook rendered for Read (see `notebook_rendering`).
pub fn render_notebook_value(notebook: &JsonValue) -> (res: Result<ReadFileOutput, LiteCodeError>)
    ensures
        match notebook_rendering(*notebook) {
            Some(v) => res matches Ok(out) && read_view(out) == v,
            None => res matches Err(e) && is_invalid_input(e, no_cells_message()),
        },
{
    let language = notebook_language(notebook);
    let cells = match get(notebook, "cells") {
        Some(JsonValue::Array(cells)) => cells,
        _ => {
            return Err(
                LiteCodeError::invalid_input(
                    "Notebook does not contain a cells array.".to_owned(),
                ),
            );
        },
    };
    let mut parts: Vec<ReadContent> = Vec::new();
    let mut i: usize = 0;
    proof {
        assert(pieces(parts@) =~= Seq::<Piece>::empty());
    }
    while i < cells.len()
        invariant
            i <= cells.len(),
            language@ == notebook_lang(*notebook),
            pieces(parts@) == notebook_parts(cells@, language@, i as nat),
        decreases cells.len() - i,
    {
        if i > 0 {
            push_text_part(&mut parts, ReadContent::Text("\n".to_owned()));
        }
        let cell_parts = render_notebook_cell(&cells[i], i, language.as_str());
        push_parts(&mut parts, cell_parts);
        i = i + 1;
    }
    Ok(normalize_read_contents(parts))
}

/// What Read gives for a notebook: its rendering, or the empty-file warning
/// where the rendering is empty text.
pub open spec fn notebook_read(nb: JsonValue) -> Option<ReadView> {
    match notebook_rendering(nb) {
        Some(ReadView::Text(t)) => if t.len() == 0 {
            Some(ReadView::Text("Warning: file exists but is empty."@))
        } else {
            Some(ReadView::Text(t))
        },
        other => other,
    }
}

/// What Read gives for a notebook (see `notebook_read`).
pub fn read_notebook_value(notebook: &JsonValue) -> (res: Result<ReadFileOutput, LiteCodeError>)
    ensures
        match notebook_read(*notebook) {
            Some(v) => res matches Ok(out) && read_view(out) == v,
            None => res matches Err(e) && is_invalid_input(e, no_cells_message()),
        },
{
    match render_notebook_value(notebook) {
        Ok(ReadFileOutput::Text(t)) => {
            if t.as_str().unicode_len() == 0 {
                Ok(ReadFileOutput::Text("Warning: file exists but is empty.".to_owned()))
            } else {
                Ok(ReadFileOutput::Text(t))
            }
        },
        other => other,
    }
}

/// Whether `res` is what `rendered` (a rendering, or its absence where
/// there is no `cells` array) comes to.
pub open spec fn rendered_as(res: Result<ReadFileOutput, LiteCodeError>, rendered: Option<ReadView>) -> bool {
    match rendered {
        Some(v) => res matches Ok(out) && read_view(out) == v,
        None => res matches Err(e) && is_invalid_input(e, no_cells_message()),
    }
}

/// A notebook's text rendered for Read: text that is not JSON is refused
/// as invalid input; otherwise the JSON it holds is rendered (see
/// `notebook_rendering`).
pub fn render_notebook(content: &str) -> (res: Result<ReadFileOutput, LiteCodeError>)
    ensures
        json_text_parsed(content@) is None ==> (res matches Err(e) && is_invalid_input(
            e,
            invalid_notebook_message(content@),
        )),
        json_text_parsed(content@) is Some ==> exists|nb: JsonValue|
            jv(nb) == json_text_parsed(content@)->0 && #[trigger] rendered_as(
                res,
                notebook_rendering(nb),
            ),
{
    match notebook_tree(content) {
        Ok(nb) => {
            let res = render_notebook_value(&nb);
            assert(rendered_as(res, notebook_rendering(nb)));
            res
        },
        Err(e) => Err(e),
    }
}

/// What Read gives for a notebook file's bytes: read as UTF-8 (invalid
/// sequences replaced), refused as invalid input when not JSON, otherwise
/// see `notebook_read`.
pub fn read_notebook(raw: &[u8]) -> (res: Result<ReadFileOutput, LiteCodeError>)
    ensures
        json_text_parsed(utf8_lossy(raw@)) is None ==> (res matches Err(e) && is_invalid_input(
            e,
            invalid_notebook_message(utf8_lossy(raw@)),
        )),
        json_text_parsed(utf8_lossy(raw@)) is Some ==> exists|nb: JsonValue|
            jv(nb) == json_text_parsed(utf8_lossy(raw@))->0 && #[trigger] rendered_as(
                res,
                notebook_read(nb),
            ),
{
    let text = decode_utf8_lossy(raw);
    match notebook_tree(text.as_str()) {
        Ok(nb) => {
            let res = read_notebook_value(&nb);
            assert(rendered_as(res, notebook_read(nb)));
            res
        },
        Err(e) => Err(e),
    }
}

// ---------------------------------------------------------------------------
// Editing cells
// ---------------------------------------------------------------------------

/// The type written in a cell's `cell_type` field, when it is one of the two.
pub open spec fn cell_type_in(fields: Seq<(String, JsonValue)>) -> Option<NotebookCellType> {
    match field_index(fields, "cell_type"@) {
        Some(i) => match fields[i].1 {
            JsonValue::String(s) => if s@ == "markdown"@ {
                Some(NotebookCellType::Markdown)
            } else if s@ == "code"@ {
                Some(NotebookCellType::Code)
            } else {
                None
            },
            _ => None,
        },
        None => None,
    }
}

/// The type written in a cell.
pub fn notebook_cell_type(cell: &Vec<(String, JsonValue)>) -> (res: Option<NotebookCellType>)
    ensures
        res == cell_type_in(cell@),
{
    match find_field(cell, "cell_type") {
        Some(i) => match &cell[i].1 {
            JsonValue::String(s) => if str_eq(s.as_str(), "markdown") {
                Some(NotebookCellType::Markdown)
            } else if str_eq(s.as_str(), "code") {
                Some(NotebookCellType::Code)
            } else {
                None
            },
            _ => None,
        },
        None => None,
    }
}

/// How a cell type is written.
pub open spec fn kind_text(t: NotebookCellType) -> Seq<char> {
    match t {
        NotebookCellType::Code => "code"@,
        NotebookCellType::Markdown => "markdown"@,
    }
}

/// How a cell type is written.
pub fn cell_type_string(cell_type: NotebookCellType) -> (res: String)
    ensures
        res@ == kind_text(cell_type),
{
    match cell_type {
        NotebookCellType::Code => "code".to_owned(),
        NotebookCellType::Markdown => "markdown".to_owned(),
    }
}

/// A cell source as stored: its lines, each keeping its newline.
pub open spec fn source_json(source: Seq<char>) -> Json {
    Json::Array(split_inclusive_nl(source).map_values(|l: Seq<char>| Json::Str(l)))
}

/// A cell source as stored (see `source_json`).
pub fn source_value(source: &str) -> (res: JsonValue)
    ensures
        jv(res) == source_json(source@),
{
    let cs = chars_of(source);
    let pieces_ = split_inclusive_nl_chars(&cs);
    let ghost pv = pieces_@.map_values(|p: Vec<char>| p@);
    let mut items: Vec<JsonValue> = Vec::new();
    let mut i: usize = 0;
    while i < pieces_.len()
        invariant
            i <= pieces_.len(),
            pv == pieces_@.map_values(|p: Vec<char>| p@),
            pv == split_inclusive_nl(source@),
            items.len() == i,
            forall|j: int| 0 <= j < i ==> #[trigger] jv(items@[j]) == Json::Str(pv[j]),
        decreases pieces_.len() - i,
    {
        items.push(JsonValue::String(string_of(&pieces_[i])));
        i = i + 1;
    }
    proof {
        lemma_jitems(items@);
        assert(jitems(items@) =~= split_inclusive_nl(source@).map_values(
            |l: Seq<char>| Json::Str(l),
        ));
    }
    JsonValue::Array(items)
}

/// A cell's fields brought to the shape of its type: a code cell gets an
/// execution count and an outputs list where it has none; a markdown cell
/// loses both.
pub open spec fn shaped(fields: Seq<(Seq<char>, Json)>, t: NotebookCellType) -> Seq<
    (Seq<char>, Json),
> {
    match t {
        NotebookCellType::Code => jset_if_absent(
            jset_if_absent(fields, "execution_count"@, Json::Null),
            "outputs"@,
            Json::Array(Seq::<Json>::empty()),
        ),
        NotebookCellType::Markdown => jremove(jremove(fields, "execution_count"@), "outputs"@),
    }
}

/// Brings a cell to the shape of its type (see `shaped`).
pub fn normalize_cell_shape(cell: &mut Vec<(String, JsonValue)>, cell_type: NotebookCellType)
    ensures
        jfields(final(cell)@) == shaped(jfields(old(cell)@), cell_type),
{
    match cell_type {
        NotebookCellType::Code => {
            insert_field_if_absent(cell, "execution_count", JsonValue::Null);
            let empty: Vec<JsonValue> = Vec::new();
            proof {
                lemma_jitems(empty@);
                assert(jitems(empty@) =~= Seq::<Json>::empty());
            }
            insert_field_if_absent(cell, "outputs", JsonValue::Array(empty));
        },
        NotebookCellType::Markdown => {
            remove_field(cell, "execution_count");
            remove_field(cell, "outputs");
        },
    }
}

/// A cell's fields with a new type and source, then reshaped.
pub open spec fn replaced_fields(
    fields: Seq<(Seq<char>, Json)>,
    t: NotebookCellType,
    source: Seq<char>,
) -> Seq<(Seq<char>, Json)> {
    shaped(
        jset(jset(fields, "cell_type"@, Json::Str(kind_text(t))), "source"@, source_json(source)),
        t,
    )
}

/// The fields of a new cell.
pub open spec fn new_cell_fields(id: Seq<char>, t: NotebookCellType, source: Seq<char>) -> Seq<
    (Seq<char>, Json),
> {
    shaped(
        jset(
            jset(
                jset(
                    jset(Seq::<(Seq<char>, Json)>::empty(), "id"@, Json::Str(id)),
                    "cell_type"@,
                    Json::Str(kind_text(t)),
                ),
                "metadata"@,
                Json::Object(Seq::<(Seq<char>, Json)>::empty()),
            ),
            "source"@,
            source_json(source),
        ),
        t,
    )
}

/// A new cell (see `new_cell_fields`).
pub fn new_notebook_cell(cell_id: &str, cell_type: NotebookCellType, source: &str) -> (res:
    JsonValue)
    ensures
        jv(res) == Json::Object(new_cell_fields(cell_id@, cell_type, source@)),
{
    let mut cell: Vec<(String, JsonValue)> = Vec::new();
    proof {
        lemma_jfields(cell@);
        assert(jfields(cell@) =~= Seq::<(Seq<char>, Json)>::empty());
    }
    insert_field(&mut cell, "id", JsonValue::String(cell_id.to_owned()));
    insert_field(&mut cell, "cell_type", JsonValue::String(cell_type_string(cell_type)));
    let meta: Vec<(String, JsonValue)> = Vec::new();
    proof {
        lemma_jfields(meta@);
        assert(jfields(meta@) =~= Seq::<(Seq<char>, Json)>::empty());
    }
    insert_field(&mut cell, "metadata", JsonValue::Object(meta));
    insert_field(&mut cell, "source", source_value(source));
    normalize_cell_shape(&mut cell, cell_type);
    JsonValue::Object(cell)
}

/// A cell's `id`, when it is a string.
pub open spec fn cell_id_of(cell: JsonValue) -> Option<Seq<char>> {
    as_text(get_field(cell, "id"@))
}

/// The position of the first cell whose id is `id`.
pub open spec fn first_with_id(cells: Seq<JsonValue>, id: Seq<char>) -> Option<int>
    decreases cells.len(),
{
    if cells.len() == 0 {
        None
    } else {
        match first_with_id(cells.drop_last(), id) {
            Some(i) => Some(i),
            None => if cell_id_of(cells.last()) == Some(id) {
                Some(cells.len() - 1)
            } else {
                None
            },
        }
    }
}

proof fn lemma_first_with_id_prefix(cells: Seq<JsonValue>, id: Seq<char>, k: int)
    requires
        0 <= k <= cells.len(),
        first_with_id(cells.take(k), id) is Some,
    ensures
        first_with_id(cells, id) == first_with_id(cells.take(k), id),
    decreases cells.len() - k,
{
    if k < cells.len() {
        assert(cells.take(k + 1).drop_last() =~= cells.take(k));
        lemma_first_with_id_prefix(cells, id, k + 1);
    } else {
        assert(cells.take(k) =~= cells);
    }
}

/// The error for a cell id that no cell has.
pub open spec fn cell_not_found_message(id: Seq<char>) -> Seq<char> {
    "Notebook cell "@ + id + " was not found."@
}

/// The id of a cell, when it is a string.
fn cell_id(cell: &JsonValue) -> (res: Option<&str>)
    ensures
        match res {
            Some(s) => cell_id_of(*cell) == Some(s@),
            None => cell_id_of(*cell) is None,
        },
{
    as_str(get(cell, "id"))
}

/// The position of the cell whose id is `cell_id`.
pub fn find_cell_index(cells: &Vec<JsonValue>, cell_id_: &str) -> (res: Result<usize, LiteCodeError>)
    ensures
        match first_with_id(cells@, cell_id_@) {
            Some(i) => res matches Ok(j) && j == i,
            None => res matches Err(e) && is_invalid_input(e, cell_not_found_message(cell_id_@)),
        },
        res matches Ok(j) ==> j < cells.len(),
{
    let mut i: usize = 0;
    while i < cells.len()
        invariant
            i <= cells.len(),
            first_with_id(cells@.take(i as int), cell_id_@) is None,
        decreases cells.len() - i,
    {
        assert(cells@.take(i + 1).drop_last() =~= cells@.take(i as int));
        assert(cells@.take(i + 1).last() == cells@[i as int]);
        match cell_id(&cells[i]) {
            Some(s) => {
                if str_eq(s, cell_id_) {
                    proof {
                        lemma_first_with_id_prefix(cells@, cell_id_@, i + 1);
                    }
                    return Ok(i);
                }
            },
            None => {},
        }
        i = i + 1;
    }
    assert(cells@.take(i as int) =~= cells@);
    let mut msg = String::new();
    push_str(&mut msg, "Notebook cell ");
    push_str(&mut msg, cell_id_);
    push_str(&mut msg, " was not found.");
    Err(LiteCodeError::invalid_input(msg))
}

/// The error for a cell number out of range.
pub open spec fn number_range_message(op: Seq<char>, max: nat) -> Seq<char> {
    "NotebookEdit "@ + op + " mode requires cell_number to be within 0.."@ + dec(max) + "."@
}

/// The error for a cell id and a cell number that name different cells.
pub open spec fn conflict_message(op: Seq<char>) -> Seq<char> {
    "NotebookEdit "@ + op + " mode received conflicting cell_id and cell_number."@
}

/// The error for an edit that names no cell.
pub open spec fn missing_target_message(op: Seq<char>) -> Seq<char> {
    "NotebookEdit "@ + op + " mode requires cell_id or cell_number."@
}

/// The id of the cell numbered `index`, or the error for a number out of
/// range.
pub open spec fn numbered_cell(cells: Seq<JsonValue>, index: nat, op: Seq<char>) -> Result<
    Option<Seq<char>>,
    Seq<char>,
> {
    if index >= cells.len() {
        Err(
            number_range_message(
                op,
                if cells.len() > 0 {
                    (cells.len() - 1) as nat
                } else {
                    0
                },
            ),
        )
    } else {
        Ok(cell_id_of(cells[index as int]))
    }
}

/// An optional string's characters.
pub open spec fn opt_text(v: Option<String>) -> Option<Seq<char>> {
    match v {
        Some(s) => Some(s@),
        None => None,
    }
}

/// An optional string slice's characters.
pub open spec fn opt_str(v: Option<&str>) -> Option<Seq<char>> {
    match v {
        Some(s) => Some(s@),
        None => None,
    }
}

/// An optional number as a natural number.
pub open spec fn opt_nat(v: Option<usize>) -> Option<nat> {
    match v {
        Some(n) => Some(n as nat),
        None => None,
    }
}

/// The id of the cell numbered `index` (see `numbered_cell`).
pub fn resolve_numbered_cell(cells: &Vec<JsonValue>, index: usize, operation: &str) -> (res: Result<
    Option<String>,
    LiteCodeError,
>)
    ensures
        match numbered_cell(cells@, index as nat, operation@) {
            Ok(id) => res matches Ok(r) && opt_text(r) == id,
            Err(m) => res matches Err(e) && is_invalid_input(e, m),
        },
{
    if index >= cells.len() {
        let max: usize = if cells.len() > 0 {
            cells.len() - 1
        } else {
            0
        };
        let mut msg = String::new();
        push_str(&mut msg, "NotebookEdit ");
        push_str(&mut msg, operation);
        push_str(&mut msg, " mode requires cell_number to be within 0..");
        let n = decimal(max as u128);
        push_str(&mut msg, n.as_str());
        push_str(&mut msg, ".");
        return Err(LiteCodeError::invalid_input(msg));
    }
    match cell_id(&cells[index]) {
        Some(s) => Ok(Some(s.to_owned())),
        None => Ok(None),
    }
}

/// The cell an edit names by id, by number, or by both (which must agree).
pub open spec fn resolve_cell(
    cells: Seq<JsonValue>,
    id: Option<Seq<char>>,
    number: Option<nat>,
    op: Seq<char>,
) -> Result<(nat, Option<Seq<char>>), Seq<char>> {
    let by_id: Result<Option<nat>, Seq<char>> = match id {
        Some(x) => match first_with_id(cells, x) {
            Some(i) => Ok(Some(i as nat)),
            None => Err(cell_not_found_message(x)),
        },
        None => Ok(None),
    };
    match by_id {
        Err(m) => Err(m),
        Ok(found) => match number {
            Some(n) => match numbered_cell(cells, n, op) {
                Err(m) => Err(m),
                Ok(nid) => match found {
                    Some(i) => if i != n || nid != id {
                        Err(conflict_message(op))
                    } else {
                        Ok((i, id))
                    },
                    None => Ok((n, nid)),
                },
            },
            None => match found {
                Some(i) => Ok((i, id)),
                None => Err(missing_target_message(op)),
            },
        },
    }
}

/// The cell an edit targets.
#[derive(Debug, Clone)]
pub struct ResolvedNotebookCell {
    pub index: usize,
    pub cell_id: Option<String>,
}

/// The cell an edit names (see `resolve_cell`).
pub fn resolve_notebook_cell(
    cells: &Vec<JsonValue>,
    cell_id_: Option<&str>,
    cell_number: Option<usize>,
    operation: &str,
) -> (res: Result<ResolvedNotebookCell, LiteCodeError>)
    ensures
        match resolve_cell(cells@, opt_str(cell_id_), opt_nat(cell_number), operation@) {
            Ok((i, id)) => res matches Ok(r) && r.index == i && opt_text(r.cell_id) == id,
            Err(m) => res matches Err(e) && is_invalid_input(e, m),
        },
{
    let from_id: Option<usize> = match cell_id_ {
        Some(x) => match find_cell_index(cells, x) {
            Ok(i) => Some(i),
            Err(e) => {
                return Err(e);
            },
        },
        None => None,
    };
    let from_number: Option<(usize, Option<String>)> = match cell_number {
        Some(n) => match resolve_numbered_cell(cells, n, operation) {
            Ok(id) => Some((n, id)),
            Err(e) => {
                return Err(e);
            },
        },
        None => None,
    };
    match (from_id, from_number) {
        (Some(i), Some((n, nid))) => {
            let x = cell_id_.unwrap();
            let same = match &nid {
                Some(v) => str_eq(v.as_str(), x),
                None => false,
            };
            if i != n || !same {
                let mut msg = String::new();
                push_str(&mut msg, "NotebookEdit ");
                push_str(&mut msg, operation);
                push_str(&mut msg, " mode received conflicting cell_id and cell_number.");
                return Err(LiteCodeError::invalid_input(msg));
            }
            Ok(ResolvedNotebookCell { index: i, cell_id: Some(x.to_owned()) })
        },
        (Some(i), None) => {
            let x = cell_id_.unwrap();
            Ok(ResolvedNotebookCell { index: i, cell_id: Some(x.to_owned()) })
        },
        (None, Some((n, nid))) => Ok(ResolvedNotebookCell { index: n, cell_id: nid }),
        (None, None) => {
            let mut msg = String::new();
            push_str(&mut msg, "NotebookEdit ");
            push_str(&mut msg, operation);
            push_str(&mut msg, " mode requires cell_id or cell_number.");
            Err(LiteCodeError::invalid_input(msg))
        },
    }
}

/// The error for an insert position out of range.
pub open spec fn insert_range_message(len: nat) -> Seq<char> {
    "NotebookEdit insert mode requires cell_number to be within 0.."@ + dec(len) + "."@
}

/// The error for an insert whose cell id and cell number disagree.
pub open spec fn insert_conflict_message() -> Seq<char> {
    "NotebookEdit insert mode received conflicting cell_id and cell_number."@
}

/// Where an insert puts the new cell: after the cell with the given id, at
/// the given number (which must agree), or first.
pub open spec fn insert_index(cells: Seq<JsonValue>, id: Option<Seq<char>>, number: Option<nat>) -> Result<
    nat,
    Seq<char>,
> {
    let by_id: Result<Option<nat>, Seq<char>> = match id {
        Some(x) => match first_with_id(cells, x) {
            Some(i) => Ok(Some((i + 1) as nat)),
            None => Err(cell_not_found_message(x)),
        },
        None => Ok(None),
    };
    match by_id {
        Err(m) => Err(m),
        Ok(found) => match number {
            Some(n) => if n > cells.len() {
                Err(insert_range_message(cells.len()))
            } else {
                match found {
                    Some(i) => if i != n {
                        Err(insert_conflict_message())
                    } else {
                        Ok(i)
                    },
                    None => Ok(n),
                }
            },
            None => match found {
                Some(i) => Ok(i),
                None => Ok(0),
            },
        },
    }
}

/// Where an insert puts the new cell (see `insert_index`).
pub fn resolve_insert_index(cells: &Vec<JsonValue>, cell_id_: Option<&str>, cell_number: Option<
    usize,
>) -> (res: Result<usize, LiteCodeError>)
    ensures
        match insert_index(cells@, opt_str(cell_id_), opt_nat(cell_number)) {
            Ok(i) => res matches Ok(j) && j == i,
            Err(m) => res matches Err(e) && is_invalid_input(e, m),
        },
{
    let from_id: Option<usize> = match cell_id_ {
        Some(x) => match find_cell_index(cells, x) {
            Ok(i) => Some(i + 1),
            Err(e) => {
                return Err(e);
            },
        },
        None => None,
    };
    let from_number: Option<usize> = match cell_number {
        Some(n) => {
            if n > cells.len() {
                let mut msg = String::new();
                push_str(&mut msg, "NotebookEdit insert mode requires cell_number to be within 0..");
                let t = decimal(cells.len() as u128);
                push_str(&mut msg, t.as_str());
                push_str(&mut msg, ".");
                return Err(LiteCodeError::invalid_input(msg));
            }
            Some(n)
        },
        None => None,
    };
    match (from_id, from_number) {
        (Some(i), Some(n)) => {
            if i != n {
                return Err(
                    LiteCodeError::invalid_input(
                        "NotebookEdit insert mode received conflicting cell_id and cell_number.".to_owned(),
                    ),
                );
            }
            Ok(i)
        },
        (Some(i), None) => Ok(i),
        (None, Some(n)) => Ok(n),
        (None, None) => Ok(0),
    }
}

/// What an edit comes to: the new cells and the id of an inserted cell, or
/// an error (invalid input, or an internal failure) with its text.
pub enum EditOutcome {
    Done(Seq<Json>, Option<Seq<char>>),
    Invalid(Seq<char>),
    Internal(Seq<char>),
}

/// The error for an insert without a cell type.
pub open spec fn insert_needs_type_message() -> Seq<char> {
    "NotebookEdit insert mode requires cell_type."@
}

/// The error for a target cell that is not an object.
pub open spec fn not_object_message() -> Seq<char> {
    "Notebook cell was not an object."@
}

/// The type a replaced cell gets: the one asked for, else the one it had,
/// else code.
pub open spec fn chosen_type(given: Option<NotebookCellType>, fields: Seq<(String, JsonValue)>) -> NotebookCellType {
    match given {
        Some(t) => t,
        None => match cell_type_in(fields) {
            Some(t) => t,
            None => NotebookCellType::Code,
        },
    }
}

/// What an edit does to a notebook's cells; `new_id` is the id a new cell
/// gets.
pub open spec fn cells_edit(cells: Seq<JsonValue>, input: NotebookEditInput, new_id: Seq<char>) -> EditOutcome {
    let id = opt_text(input.cell_id);
    let number = opt_nat(input.cell_number);
    match input.edit_mode {
        NotebookEditMode::Replace => match resolve_cell(cells, id, number, "replace"@) {
            Err(m) => EditOutcome::Invalid(m),
            Ok((i, _)) => match cells[i as int] {
                JsonValue::Object(f) => EditOutcome::Done(
                    jitems(cells).update(
                        i as int,
                        Json::Object(
                            replaced_fields(
                                jfields(f@),
                                chosen_type(input.cell_type, f@),
                                input.new_source@,
                            ),
                        ),
                    ),
                    None,
                ),
                _ => EditOutcome::Internal(not_object_message()),
            },
        },
        NotebookEditMode::Insert => match input.cell_type {
            None => EditOutcome::Invalid(insert_needs_type_message()),
            Some(t) => match insert_index(cells, id, number) {
                Err(m) => EditOutcome::Invalid(m),
                Ok(i) => EditOutcome::Done(
                    jitems(cells).insert(
                        i as int,
                        Json::Object(new_cell_fields(new_id, t, input.new_source@)),
                    ),
                    Some(new_id),
                ),
            },
        },
        NotebookEditMode::Delete => match resolve_cell(cells, id, number, "delete"@) {
            Err(m) => EditOutcome::Invalid(m),
            Ok((i, _)) => EditOutcome::Done(jitems(cells).remove(i as int), None),
        },
    }
}

/// What an edit does to a notebook: to its cells, or an error where it has
/// no `cells` array.
pub open spec fn notebook_edit(nb: JsonValue, input: NotebookEditInput, new_id: Seq<char>) -> EditOutcome {
    match get_field(nb, "cells"@) {
        Some(JsonValue::Array(cells)) => cells_edit(cells@, input, new_id),
        _ => EditOutcome::Invalid(no_cells_message()),
    }
}

/// A notebook with new cells.
pub open spec fn with_cells(nb: Json, cells: Seq<Json>) -> Json {
    match nb {
        Json::Object(f) => Json::Object(jset(f, "cells"@, Json::Array(cells))),
        _ => nb,
    }
}

/// Whether `res` is what an edit of `nb` comes to, a new cell getting `new_id`.
pub open spec fn edit_result(
    res: Result<(JsonValue, NotebookEditOutput), LiteCodeError>,
    nb: JsonValue,
    input: NotebookEditInput,
    new_id: Seq<char>,
) -> bool {
    match notebook_edit(nb, input, new_id) {
        EditOutcome::Done(cells, id) => res matches Ok((nb2, out)) && jv(nb2) == with_cells(
            jv(nb),
            cells,
        ) && out.success && opt_text(out.cell_id) == id,
        EditOutcome::Invalid(m) => res matches Err(e) && is_invalid_input(e, m),
        EditOutcome::Internal(m) => res matches Err(e) && is_internal(e, m),
    }
}

/// A string option as a slice option.
fn as_opt_str(v: &Option<String>) -> (res: Option<&str>)
    ensures
        opt_str(res) == opt_text(*v),
{
    match v {
        Some(s) => Some(s.as_str()),
        None => None,
    }
}

/// Replaces the cell at `i` (see `cells_edit`).
fn replace_cell(cells: &mut Vec<JsonValue>, i: usize, input: &NotebookEditInput) -> (res: Result<
    (),
    LiteCodeError,
>)
    requires
        i < old(cells).len(),
    ensures
        match old(cells)@[i as int] {
            JsonValue::Object(f) => res is Ok && jitems(final(cells)@) == jitems(old(cells)@).update(
                i as int,
                Json::Object(
                    replaced_fields(
                        jfields(f@),
                        chosen_type(input.cell_type, f@),
                        input.new_source@,
                    ),
                ),
            ),
            _ => res matches Err(e) && is_internal(e, not_object_message()),
        },
{
    let ghost before = cells@;
    let cell = cells.remove(i);
    match cell {
        JsonValue::Object(mut f) => {
            let ghost f0 = f@;
            let t = match input.cell_type {
                Some(t) => t,
                None => match notebook_cell_type(&f) {
                    Some(t) => t,
                    None => NotebookCellType::Code,
                },
            };
            insert_field(&mut f, "cell_type", JsonValue::String(cell_type_string(t)));
            insert_field(&mut f, "source", source_value(input.new_source.as_str()));
            normalize_cell_shape(&mut f, t);
            let ghost fin = f@;
            cells.insert(i, JsonValue::Object(f));
            proof {
                lemma_jitems(before);
                lemma_jitems(cells@);
                assert(jv(cells@[i as int]) == Json::Object(jfields(fin)));
                assert(jitems(cells@) =~= jitems(before).update(
                    i as int,
                    Json::Object(
                        replaced_fields(jfields(f0), chosen_type(input.cell_type, f0), input.new_source@),
                    ),
                ));
            }
            Ok(())
        },
        other => {
            cells.insert(i, other);
            Err(LiteCodeError::internal("Notebook cell was not an object.".to_owned()))
        },
    }
}

/// Applies an edit to a notebook's cells (see `cells_edit`).
fn edit_cells(cells: &mut Vec<JsonValue>, input: &NotebookEditInput, new_id: &str) -> (res: Result<
    NotebookEditOutput,
    LiteCodeError,
>)
    ensures
        match cells_edit(old(cells)@, *input, new_id@) {
            EditOutcome::Done(c, id) => res matches Ok(o) && jitems(final(cells)@) == c && o.success
                && opt_text(o.cell_id) == id,
            EditOutcome::Invalid(m) => res matches Err(e) && is_invalid_input(e, m),
            EditOutcome::Internal(m) => res matches Err(e) && is_internal(e, m),
        },
{
    let ghost before = cells@;
    let id = as_opt_str(&input.cell_id);
    match input.edit_mode {
        NotebookEditMode::Replace => {
            let r = resolve_notebook_cell(cells, id, input.cell_number, "replace");
            proof {
                reveal_strlit("replace");
            }
            match r {
                Err(e) => Err(e),
                Ok(target) => {
                    proof {
                        lemma_first_with_id_bound(before, opt_text(input.cell_id), opt_nat(input.cell_number));
                    }
                    match replace_cell(cells, target.index, input) {
                        Ok(()) => Ok(NotebookEditOutput { success: true, cell_id: None }),
                        Err(e) => Err(e),
                    }
                },
            }
        },
        NotebookEditMode::Insert => match input.cell_type {
            None => Err(
                LiteCodeError::invalid_input("NotebookEdit insert mode requires cell_type.".to_owned()),
            ),
            Some(t) => {
                let cell = new_notebook_cell(new_id, t, input.new_source.as_str());
                match resolve_insert_index(cells, id, input.cell_number) {
                    Err(e) => Err(e),
                    Ok(i) => {
                        proof {
                            lemma_insert_index_bound(before, opt_text(input.cell_id), opt_nat(input.cell_number));
                        }
                        let ghost jc = jv(cell);
                        cells.insert(i, cell);
                        proof {
                            lemma_jitems(before);
                            lemma_jitems(cells@);
                            assert(jitems(cells@) =~= jitems(before).insert(i as int, jc));
                        }
                        Ok(NotebookEditOutput { success: true, cell_id: Some(new_id.to_owned()) })
                    },
                }
            },
        },
        NotebookEditMode::Delete => {
            let r = resolve_notebook_cell(cells, id, input.cell_number, "delete");
            proof {
                reveal_strlit("delete");
            }
            match r {
                Err(e) => Err(e),
                Ok(target) => {
                    proof {
                        lemma_first_with_id_bound(before, opt_text(input.cell_id), opt_nat(input.cell_number));
                    }
                    cells.remove(target.index);
                    proof {
                        lemma_jitems(before);
                        lemma_jitems(cells@);
                        assert(jitems(cells@) =~= jitems(before).remove(target.index as int));
                    }
                    Ok(NotebookEditOutput { success: true, cell_id: None })
                },
            }
        },
    }
}

proof fn lemma_first_with_id_in_range(cells: Seq<JsonValue>, id: Seq<char>)
    ensures
        first_with_id(cells, id) matches Some(i) ==> 0 <= i < cells.len(),
    decreases cells.len(),
{
    if cells.len() > 0 {
        lemma_first_with_id_in_range(cells.drop_last(), id);
    }
}

/// A resolved cell is in range.
proof fn lemma_first_with_id_bound(cells: Seq<JsonValue>, id: Option<Seq<char>>, number: Option<nat>)
    ensures
        forall|op: Seq<char>|
            #![trigger resolve_cell(cells, id, number, op)]
            resolve_cell(cells, id, number, op) matches Ok((i, _)) ==> i < cells.len(),
{
    match id {
        Some(x) => lemma_first_with_id_in_range(cells, x),
        None => {},
    }
}

/// An insert position is at most the number of cells.
pub proof fn lemma_insert_index_bound(cells: Seq<JsonValue>, id: Option<Seq<char>>, number: Option<nat>)
    ensures
        insert_index(cells, id, number) matches Ok(i) ==> i <= cells.len(),
{
    match id {
        Some(x) => lemma_first_with_id_in_range(cells, x),
        None => {},
    }
}

/// Applies an edit to a notebook, a new cell getting `new_cell_id` (see
/// `notebook_edit`).
pub fn apply_notebook_edit(notebook: JsonValue, input: &NotebookEditInput, new_cell_id: &str) -> (res:
    Result<(JsonValue, NotebookEditOutput), LiteCodeError>)
    ensures
        edit_result(res, notebook, *input, new_cell_id@),
{
    let ghost nb0 = notebook;
    match notebook {
        JsonValue::Object(mut fields) => {
            let ghost f0 = fields@;
            match find_field(&fields, "cells") {
                None => Err(
                    LiteCodeError::invalid_input(
                        "Notebook does not contain a cells array.".to_owned(),
                    ),
                ),
                Some(k) => {
                    let (name, value) = fields.remove(k);
                    match value {
                        JsonValue::Array(mut cells) => {
                            let ghost c0 = cells@;
                            match edit_cells(&mut cells, input, new_cell_id) {
                                Err(e) => Err(e),
                                Ok(out) => {
                                    let ghost c1 = cells@;
                                    fields.insert(k, (name, JsonValue::Array(cells)));
                                    proof {
                                        lemma_jfields(f0);
                                        lemma_jfields(fields@);
                                        crate::json::lemma_field_index_j(f0, "cells"@);
                                        crate::json::lemma_field_index_found(f0, "cells"@);
                                        assert(jv(JsonValue::Array(cells)) == Json::Array(jitems(c1)));
                                        assert(jfields(fields@) =~= jset(
                                            jfields(f0),
                                            "cells"@,
                                            Json::Array(jitems(c1)),
                                        ));
                                    }
                                    Ok((JsonValue::Object(fields), out))
                                },
                            }
                        },
                        _ => Err(
                            LiteCodeError::invalid_input(
                                "Notebook does not contain a cells array.".to_owned(),
                            ),
                        ),
                    }
                },
            }
        },
        _ => Err(
            LiteCodeError::invalid_input("Notebook does not contain a cells array.".to_owned()),
        ),
    }
}

/// Nanoseconds since the Unix epoch; 0 when the clock is set before it.
///
/// Trusted: calls `SystemTime::elapsed` on `UNIX_EPOCH` (the time between
/// the epoch and now). The value comes from the machine's clock, so nothing
/// is claimed of it.
#[verifier::external_body]
fn unix_time_nanos() -> u128 {
    match std::time::UNIX_EPOCH.elapsed() {
        Ok(d) => d.as_nanos(),
        Err(_) => 0,
    }
}

/// The id of a cell made at the given time.
pub open spec fn cell_id_at(nanos: nat) -> Seq<char> {
    "cell-"@ + dec(nanos)
}

/// The id of a new cell: `cell-` and the nanoseconds since the Unix epoch.
pub fn generated_cell_id() -> (res: String)
    ensures
        exists|n: nat| res@ == cell_id_at(n),
{
    let nanos = unix_time_nanos();
    let mut id = String::new();
    push_str(&mut id, "cell-");
    let d = decimal(nanos);
    push_str(&mut id, d.as_str());
    assert(id@ == cell_id_at(nanos as nat));
    id
}

/// Applies an edit to a notebook; a new cell gets a time-based id.
pub fn edit_notebook_json(notebook: JsonValue, input: &NotebookEditInput) -> (res: Result<
    (JsonValue, NotebookEditOutput),
    LiteCodeError,
>)
    ensures
        exists|n: nat| edit_result(res, notebook, *input, cell_id_at(n)),
{
    let id = generated_cell_id();
    let res = apply_notebook_edit(notebook, input, id.as_str());
    let ghost n = choose|n: nat| id@ == cell_id_at(n);
    assert(edit_result(res, notebook, *input, cell_id_at(n)));
    res
}

/// Applies an edit to a notebook given as text: text that is not JSON is
/// refused as invalid input; otherwise see `edit_notebook_json`.
pub fn edit_notebook_text(text: &str, input: &NotebookEditInput) -> (res: Result<
    (JsonValue, NotebookEditOutput),
    LiteCodeError,
>)
    ensures
        json_text_parsed(text@) is None ==> (res matches Err(e) && is_invalid_input(
            e,
            invalid_notebook_message(text@),
        )),
        json_text_parsed(text@) is Some ==> exists|nb: JsonValue, n: nat|
            jv(nb) == json_text_parsed(text@)->0 && #[trigger] edit_result(
                res,
                nb,
                *input,
                cell_id_at(n),
            ),
{
    match notebook_tree(text) {
        Ok(nb) => {
            let ghost nb0 = nb;
            let res = edit_notebook_json(nb, input);
            assert(exists|n: nat| edit_result(res, nb0, *input, cell_id_at(n)));
            res
        },
        Err(e) => Err(e),
    }
}

} // verus!
