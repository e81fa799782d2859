//! The file tools' state (working directory, files read so far) and the
//! decisions of Read, Write and Edit around the file-system accesses.

use vstd::prelude::*;

use crate::error::{is_invalid_input, LiteCodeError};
use crate::escapes::{decode_escapes, escape_error_message, maybe_decode_unicode_escapes, Step};
use crate::paths::{
    is_absolute, is_absolute_path, join_path, join_path_exec, path_extension,
    path_extension_exec, path_key, same_path,
};
use crate::replace::{
    count_matches, count_occurrences, replace_all, replace_all_exec, replace_first,
    replace_first_exec,
};
use crate::schema::{EditInput, EditOutput, NotebookEditInput, WriteInput, WriteOutput};
use crate::text::{
    byte_len, chars_of, dec, decimal, join, join_range, lemma_utf8_len_at_least, lines, lines_of,
    push_str, string_of, utf8_len,
};

verus! {

/// One piece of what Read returns.
#[derive(Debug, Clone, PartialEq, Eq)]
pub enum ReadContent {
    Text(String),
    Image { data: Vec<u8>, mime_type: String },
}

/// What Read returns.
#[derive(Debug, Clone, PartialEq, Eq)]
pub enum ReadFileOutput {
    Text(String),
    Image { data: Vec<u8>, mime_type: String },
    Contents(Vec<ReadContent>),
}

/// How Read treats a file, by its extension.
#[derive(Debug, Clone, PartialEq, Eq)]
pub enum ReadKind {
    Pdf,
    Image(String),
    Notebook,
    Text,
}

/// The key under which a path is remembered as read.
pub type PathKey = (bool, Seq<Seq<char>>);

/// The working directory and the files read so far.
#[derive(Debug, Clone)]
pub struct FileService {
    working_dir: String,
    read_files: Vec<String>,
}

// ---------------------------------------------------------------------------
// Messages
// ---------------------------------------------------------------------------

pub open spec fn not_absolute_message(path: Seq<char>) -> Seq<char> {
    "Expected an absolute file path, got "@ + path + "."@
}

pub open spec fn write_needs_read_message(path: Seq<char>) -> Seq<char> {
    "Write requires a prior Read for existing file "@ + path + "."@
}

pub open spec fn edit_needs_read_message(path: Seq<char>) -> Seq<char> {
    "Edit requires a prior Read for "@ + path + "."@
}

pub open spec fn not_found_message(path: Seq<char>) -> Seq<char> {
    "old_string was not found in "@ + path + "."@
}

pub open spec fn multiple_message(path: Seq<char>) -> Seq<char> {
    "old_string matched multiple locations in "@ + path
        + ". Provide more context or set replace_all=true."@
}

pub open spec fn write_message(path: Seq<char>, existed: bool, bytes: nat) -> Seq<char> {
    "Wrote "@ + path + " ("@ + (if existed {
        "overwrote existing file"@
    } else {
        "created new file"@
    }) + ", "@ + dec(bytes) + " bytes)."@
}

pub open spec fn edit_message(path: Seq<char>, replacements: nat) -> Seq<char> {
    "Edited "@ + path + " (replaced "@ + dec(replacements) + " "@ + (if replacements == 1 {
        "location"@
    } else {
        "locations"@
    }) + ")."@
}

/// The error NotebookEdit gives for a file that is not a notebook.
pub open spec fn not_notebook_message(path: Seq<char>) -> Seq<char> {
    "NotebookEdit requires an .ipynb file, got "@ + path + "."@
}

pub open spec fn empty_file_warning() -> Seq<char> {
    "Warning: file exists but is empty."@
}

/// A value decoded when `enabled`, kept as it is otherwise.
pub open spec fn decoded(enabled: bool, v: Seq<char>) -> Step<Seq<char>> {
    if enabled {
        decode_escapes(v)
    } else {
        Step::Value(v)
    }
}

/// The checks of an Edit request before the file is read: `Ok` holds the
/// path and the decoded old and new texts, `Err` the message of the
/// invalid-input error.
pub open spec fn edit_request_outcome(
    read: Set<PathKey>,
    input: EditInput,
) -> Result<(Seq<char>, Seq<char>, Seq<char>), Seq<char>> {
    let path = input.file_path@;
    match decoded(input.decode_unicode_escapes, input.old_string@) {
        Step::Value(o) => match decoded(input.decode_unicode_escapes, input.new_string@) {
            Step::Value(n) => {
                if o == n {
                    Err("new_string must differ from old_string."@)
                } else if !is_absolute(path) {
                    Err(not_absolute_message(path))
                } else if !read.contains(path_key(path)) {
                    Err(edit_needs_read_message(path))
                } else {
                    Ok((path, o, n))
                }
            },
            Step::Failure(m) => Err(escape_error_message("new_string"@, m)),
        },
        Step::Failure(m) => Err(escape_error_message("old_string"@, m)),
    }
}

/// An Edit request that passed its checks.
#[derive(Debug, Clone)]
pub struct EditRequest {
    pub path: String,
    pub old_string: String,
    pub new_string: String,
    pub replace_all: bool,
}

/// The lines `offset..offset + limit` of `text` (clamped to the text),
/// joined with newlines.
pub open spec fn window(text: Seq<char>, offset: nat, limit: nat) -> Seq<char> {
    let ls = lines(text);
    let start = if offset <= ls.len() {
        offset
    } else {
        ls.len()
    };
    let end = if start + limit <= ls.len() {
        start + limit
    } else {
        ls.len()
    };
    join(ls.subrange(start as int, end as int), seq!['\n'])
}

/// What Read shows of a text file.
pub open spec fn text_read(text: Seq<char>, offset: nat, limit: nat) -> Seq<char> {
    if text.len() == 0 {
        empty_file_warning()
    } else {
        window(text, offset, limit)
    }
}

/// `c` in ASCII lower case.
pub open spec fn ascii_lower(c: char) -> char {
    if 'A' <= c <= 'Z' {
        ((c as u32) + 32) as char
    } else {
        c
    }
}

/// Equality ignoring ASCII case.
pub open spec fn eq_ignore_ascii_case(a: Seq<char>, b: Seq<char>) -> bool {
    a.len() == b.len() && forall|i: int| 0 <= i < a.len() ==> ascii_lower(a[i]) == ascii_lower(
        b[i],
    )
}

/// The image type for an extension.
pub open spec fn image_mime(ext: Seq<char>) -> Option<Seq<char>> {
    if eq_ignore_ascii_case(ext, "png"@) {
        Some("image/png"@)
    } else if eq_ignore_ascii_case(ext, "jpg"@) || eq_ignore_ascii_case(ext, "jpeg"@) {
        Some("image/jpeg"@)
    } else if eq_ignore_ascii_case(ext, "gif"@) {
        Some("image/gif"@)
    } else if eq_ignore_ascii_case(ext, "webp"@) {
        Some("image/webp"@)
    } else if eq_ignore_ascii_case(ext, "bmp"@) {
        Some("image/bmp"@)
    } else {
        None
    }
}

/// The text of bytes read from a file, with invalid UTF-8 replaced.
pub uninterp spec fn utf8_lossy(bytes: Seq<u8>) -> Seq<char>;

/// `String::from_utf8_lossy`.
///
/// Trusted: calls `String::from_utf8_lossy`; its result is named
/// `utf8_lossy`, and for valid UTF-8 it is the decoded text, as its
/// documentation states.
#[verifier::external_body]
pub(crate) fn decode_utf8_lossy(bytes: &[u8]) -> (res: String)
    ensures
        res@ == utf8_lossy(bytes@),
        vstd::utf8::valid_utf8(bytes@) ==> res@ == vstd::utf8::decode_utf8(bytes@),
{
    String::from_utf8_lossy(bytes).into_owned()
}

impl FileService {
    /// The working directory.
    pub closed spec fn dir(&self) -> Seq<char> {
        self.working_dir@
    }

    /// The keys of the paths read so far.
    pub closed spec fn read_set(&self) -> Set<PathKey> {
        Set::new(
            |k: PathKey|
                exists|i: int|
                    0 <= i < self.read_files.len() && path_key(#[trigger] self.read_files@[i]@)
                        == k,
        )
    }

    /// A service over the given working directory that has read nothing.
    pub fn new(working_dir: String) -> (res: Self)
        ensures
            res.dir() == working_dir@,
            res.read_set() == Set::<PathKey>::empty(),
    {
        let res = FileService { working_dir, read_files: Vec::new() };
        assert(res.read_set() =~= Set::<PathKey>::empty());
        res
    }

    /// The working directory.
    pub fn working_dir(&self) -> (res: String)
        ensures
            res@ == self.dir(),
    {
        self.working_dir.clone()
    }

    /// Changes the working directory.
    pub fn set_working_dir(&mut self, dir: String)
        ensures
            final(self).dir() == dir@,
            final(self).read_set() == old(self).read_set(),
    {
        self.working_dir = dir;
    }

    /// Remembers that `path` was read.
    pub fn mark_read(&mut self, path: &str)
        ensures
            final(self).dir() == old(self).dir(),
            final(self).read_set() == old(self).read_set().insert(path_key(path@)),
    {
        let ghost before = self.read_set();
        self.read_files.push(path.to_owned());
        assert(self.read_set() =~= before.insert(path_key(path@))) by {
            let n = self.read_files.len() - 1;
            assert(self.read_files@[n as int]@ == path@);
            assert forall|k: PathKey| self.read_set().contains(k) implies before.insert(
                path_key(path@),
            ).contains(k) by {
                let i = choose|i: int|
                    0 <= i < self.read_files.len() && path_key(#[trigger] self.read_files@[i]@)
                        == k;
                if i < n {
                    assert(old(self).read_files@[i] == self.read_files@[i]);
                }
            }
            assert forall|k: PathKey| before.insert(path_key(path@)).contains(k) implies self.read_set().contains(
                k,
            ) by {
                if k != path_key(path@) {
                    let i = choose|i: int|
                        0 <= i < old(self).read_files.len() && path_key(
                            #[trigger] old(self).read_files@[i]@,
                        ) == k;
                    assert(old(self).read_files@[i] == self.read_files@[i]);
                }
            }
        }
    }

    /// Whether `path` (or a path equal to it) was read.
    pub fn has_read(&self, path: &str) -> (res: bool)
        ensures
            res == self.read_set().contains(path_key(path@)),
    {
        let mut i: usize = 0;
        while i < self.read_files.len()
            invariant
                i <= self.read_files.len(),
                forall|j: int| 0 <= j < i ==> path_key(#[trigger] self.read_files@[j]@) != path_key(
                    path@,
                ),
            decreases self.read_files.len() - i,
        {
            if same_path(self.read_files[i].as_str(), path) {
                assert(self.read_set().contains(path_key(path@))) by {
                    assert(path_key(self.read_files@[i as int]@) == path_key(path@));
                }
                return true;
            }
            i = i + 1;
        }
        false
    }

    /// `path` itself when it is absolute.
    pub fn require_absolute_file(&self, path: &str) -> (res: Result<String, LiteCodeError>)
        ensures
            is_absolute(path@) ==> (res matches Ok(p) && p@ == path@),
            !is_absolute(path@) ==> (res matches Err(e) && is_invalid_input(
                e,
                not_absolute_message(path@),
            )),
    {
        if !is_absolute_path(path) {
            let mut msg = String::new();
            push_str(&mut msg, "Expected an absolute file path, got ");
            push_str(&mut msg, path);
            push_str(&mut msg, ".");
            return Err(LiteCodeError::invalid_input(msg));
        }
        Ok(path.to_owned())
    }

    /// The path checks of a NotebookEdit: the path must be absolute and name
    /// an `.ipynb` file.
    pub fn prepare_notebook_edit(&self, input: &NotebookEditInput) -> (res: Result<
        String,
        LiteCodeError,
    >)
        ensures
            !is_absolute(input.notebook_path@) ==> (res matches Err(e) && is_invalid_input(
                e,
                not_absolute_message(input.notebook_path@),
            )),
            is_absolute(input.notebook_path@) && path_extension(input.notebook_path@) != Some(
                "ipynb"@,
            ) ==> (res matches Err(e) && is_invalid_input(
                e,
                not_notebook_message(input.notebook_path@),
            )),
            is_absolute(input.notebook_path@) && path_extension(input.notebook_path@) == Some(
                "ipynb"@,
            ) ==> (res matches Ok(p) && p@ == input.notebook_path@),
    {
        let path = match self.require_absolute_file(input.notebook_path.as_str()) {
            Ok(p) => p,
            Err(e) => {
                return Err(e);
            },
        };
        let is_notebook = match path_extension_exec(path.as_str()) {
            Some(e) => crate::text::str_eq(e.as_str(), "ipynb"),
            None => false,
        };
        if !is_notebook {
            let mut msg = String::new();
            push_str(&mut msg, "NotebookEdit requires an .ipynb file, got ");
            push_str(&mut msg, path.as_str());
            push_str(&mut msg, ".");
            return Err(LiteCodeError::invalid_input(msg));
        }
        Ok(path)
    }

    /// The path a search starts from: `path` against the working directory,
    /// or the working directory itself.
    pub fn resolve_search_path(&self, path: Option<&str>) -> (res: String)
        ensures
            res@ == match path {
                Some(p) => join_path(self.dir(), p@),
                None => self.dir(),
            },
    {
        match path {
            Some(p) => join_path_exec(self.working_dir.as_str(), p),
            None => self.working_dir.clone(),
        }
    }

    /// The first checks of a Write: the path must be absolute, and escapes
    /// in the content are decoded when asked for.
    pub fn prepare_write(&self, input: &WriteInput) -> (res: Result<
        (String, String),
        LiteCodeError,
    >)
        ensures
            !is_absolute(input.file_path@) ==> (res matches Err(e) && is_invalid_input(
                e,
                not_absolute_message(input.file_path@),
            )),
            is_absolute(input.file_path@) ==> match decoded(
                input.decode_unicode_escapes,
                input.content@,
            ) {
                Step::Value(c) => res matches Ok((p, content)) && p@ == input.file_path@
                    && content@ == c,
                Step::Failure(m) => res matches Err(e) && is_invalid_input(
                    e,
                    escape_error_message("content"@, m),
                ),
            },
    {
        let path = self.require_absolute_file(input.file_path.as_str())?;
        let content = maybe_decode_unicode_escapes(
            input.decode_unicode_escapes,
            input.content.as_str(),
            "content",
        )?;
        Ok((path, content))
    }

    /// Write refuses to overwrite an existing file that was not read.
    pub fn check_write_allowed(&self, path: &str, file_exists: bool) -> (res: Result<
        (),
        LiteCodeError,
    >)
        ensures
            res is Ok <==> !(file_exists && !self.read_set().contains(path_key(path@))),
            res matches Err(e) ==> is_invalid_input(e, write_needs_read_message(path@)),
    {
        if file_exists && !self.has_read(path) {
            let mut msg = String::new();
            push_str(&mut msg, "Write requires a prior Read for existing file ");
            push_str(&mut msg, path);
            push_str(&mut msg, ".");
            return Err(LiteCodeError::invalid_input(msg));
        }
        Ok(())
    }

    /// After a successful write: the file counts as read, and the summary.
    pub fn finish_write(&mut self, path: &str, content: &str, existed: bool) -> (res: WriteOutput)
        ensures
            final(self).dir() == old(self).dir(),
            final(self).read_set() == old(self).read_set().insert(path_key(path@)),
            res.success,
            res.message@ == write_message(path@, existed, utf8_len(content@)),
    {
        self.mark_read(path);
        let bytes = byte_len(content);
        let mut msg = String::new();
        push_str(&mut msg, "Wrote ");
        push_str(&mut msg, path);
        push_str(&mut msg, " (");
        if existed {
            push_str(&mut msg, "overwrote existing file");
        } else {
            push_str(&mut msg, "created new file");
        }
        push_str(&mut msg, ", ");
        let d = decimal(bytes as u128);
        push_str(&mut msg, d.as_str());
        push_str(&mut msg, " bytes).");
        WriteOutput { success: true, message: msg }
    }

    /// The checks of an Edit before the file is read.
    pub fn prepare_edit(&self, input: &EditInput) -> (res: Result<EditRequest, LiteCodeError>)
        ensures
            match edit_request_outcome(self.read_set(), *input) {
                Ok((p, o, n)) => res matches Ok(r) && r.path@ == p && r.old_string@ == o
                    && r.new_string@ == n && r.replace_all == input.replace_all,
                Err(m) => res matches Err(e) && is_invalid_input(e, m),
            },
    {
        let old_string = maybe_decode_unicode_escapes(
            input.decode_unicode_escapes,
            input.old_string.as_str(),
            "old_string",
        )?;
        let new_string = maybe_decode_unicode_escapes(
            input.decode_unicode_escapes,
            input.new_string.as_str(),
            "new_string",
        )?;
        let o = chars_of(old_string.as_str());
        let n = chars_of(new_string.as_str());
        if crate::paths::chars_eq(&o, &n) {
            let mut msg = String::new();
            push_str(&mut msg, "new_string must differ from old_string.");
            return Err(LiteCodeError::invalid_input(msg));
        }
        let path = self.require_absolute_file(input.file_path.as_str())?;
        if !self.has_read(path.as_str()) {
            let mut msg = String::new();
            push_str(&mut msg, "Edit requires a prior Read for ");
            push_str(&mut msg, path.as_str());
            push_str(&mut msg, ".");
            return Err(LiteCodeError::invalid_input(msg));
        }
        Ok(EditRequest { path, old_string, new_string, replace_all: input.replace_all })
    }

    /// After a successful edit: the file counts as read, and the summary.
    pub fn finish_edit(&mut self, path: &str, replacements: usize) -> (res: EditOutput)
        ensures
            final(self).dir() == old(self).dir(),
            final(self).read_set() == old(self).read_set().insert(path_key(path@)),
            res.success,
            res.message@ == edit_message(path@, replacements as nat),
    {
        self.mark_read(path);
        let mut msg = String::new();
        push_str(&mut msg, "Edited ");
        push_str(&mut msg, path);
        push_str(&mut msg, " (replaced ");
        let d = decimal(replacements as u128);
        push_str(&mut msg, d.as_str());
        push_str(&mut msg, " ");
        if replacements == 1 {
            push_str(&mut msg, "location");
        } else {
            push_str(&mut msg, "locations");
        }
        push_str(&mut msg, ").");
        EditOutput { success: true, message: msg }
    }
}

/// The replacement an Edit makes in the file's text: the updated text and
/// the number of replacements, or why the edit is refused.
pub fn apply_edit(request: &EditRequest, current: &str) -> (res: Result<
    (String, usize),
    LiteCodeError,
>)
    ensures
        ({
            let n = count_matches(current@, request.old_string@);
            let path = request.path@;
            &&& n == 0 ==> (res matches Err(e) && is_invalid_input(e, not_found_message(path)))
            &&& (n > 1 && !request.replace_all) ==> (res matches Err(e) && is_invalid_input(
                e,
                multiple_message(path),
            ))
            &&& (n == 1 || (n > 1 && request.replace_all)) ==> (res matches Ok((updated, count))
                && updated@ == (if request.replace_all {
                replace_all(current@, request.old_string@, request.new_string@)
            } else {
                replace_first(current@, request.old_string@, request.new_string@)
            }) && count == (if request.replace_all {
                n
            } else {
                1
            }))
        }),
{
    let _ = byte_len(current);
    let text = chars_of(current);
    proof {
        lemma_utf8_len_at_least(current@);
    }
    let pattern = chars_of(request.old_string.as_str());
    let occurrences = count_occurrences(&text, &pattern);
    if occurrences == 0 {
        let mut msg = String::new();
        push_str(&mut msg, "old_string was not found in ");
        push_str(&mut msg, request.path.as_str());
        push_str(&mut msg, ".");
        return Err(LiteCodeError::invalid_input(msg));
    }
    if occurrences > 1 && !request.replace_all {
        let mut msg = String::new();
        push_str(&mut msg, "old_string matched multiple locations in ");
        push_str(&mut msg, request.path.as_str());
        push_str(&mut msg, ". Provide more context or set replace_all=true.");
        return Err(LiteCodeError::invalid_input(msg));
    }
    let updated = if request.replace_all {
        replace_all_exec(&text, &pattern, request.new_string.as_str())
    } else {
        replace_first_exec(&text, &pattern, request.new_string.as_str())
    };
    let replacements = if request.replace_all {
        occurrences
    } else {
        1
    };
    Ok((updated, replacements))
}

/// The error Read gives for a directory.
pub fn directory_read_error() -> (res: LiteCodeError)
    ensures
        is_invalid_input(res, "Read can only be used with files, not directories."@),
{
    LiteCodeError::invalid_input("Read can only be used with files, not directories.".to_owned())
}

/// The error Write gives when a path has no parent directory.
pub fn no_parent_error(path: &str) -> (res: LiteCodeError)
    ensures
        is_invalid_input(res, "Cannot determine parent directory for "@ + path@ + "."@),
{
    let mut msg = String::new();
    push_str(&mut msg, "Cannot determine parent directory for ");
    push_str(&mut msg, path);
    push_str(&mut msg, ".");
    LiteCodeError::invalid_input(msg)
}

/// The error Write gives when the parent directory is missing.
pub fn missing_parent_error(path: &str) -> (res: LiteCodeError)
    ensures
        is_invalid_input(res, "Parent directory does not exist for "@ + path@ + "."@),
{
    let mut msg = String::new();
    push_str(&mut msg, "Parent directory does not exist for ");
    push_str(&mut msg, path);
    push_str(&mut msg, ".");
    LiteCodeError::invalid_input(msg)
}

/// The error Glob gives when its root is not a directory.
pub fn not_a_directory_error(root: &str) -> (res: LiteCodeError)
    ensures
        is_invalid_input(res, "Search path "@ + root@ + " is not a directory."@),
{
    let mut msg = String::new();
    push_str(&mut msg, "Search path ");
    push_str(&mut msg, root);
    push_str(&mut msg, " is not a directory.");
    LiteCodeError::invalid_input(msg)
}

/// The error Grep gives when its target does not exist.
pub fn missing_search_path_error(target: &str) -> (res: LiteCodeError)
    ensures
        is_invalid_input(res, "Search path "@ + target@ + " does not exist."@),
{
    let mut msg = String::new();
    push_str(&mut msg, "Search path ");
    push_str(&mut msg, target);
    push_str(&mut msg, " does not exist.");
    LiteCodeError::invalid_input(msg)
}

fn ascii_lower_exec(c: char) -> (res: char)
    ensures
        res == ascii_lower(c),
{
    if 'A' <= c && c <= 'Z' {
        (((c as u32) + 32) as u8) as char
    } else {
        c
    }
}

/// Equality ignoring ASCII case.
fn eq_ignore_ascii_case_exec(a: &Vec<char>, b: &str) -> (res: bool)
    ensures
        res == eq_ignore_ascii_case(a@, b@),
{
    let bc = chars_of(b);
    if a.len() != bc.len() {
        return false;
    }
    let mut i: usize = 0;
    while i < a.len()
        invariant
            a.len() == bc.len(),
            bc@ == b@,
            i <= a.len(),
            forall|k: int| 0 <= k < i ==> ascii_lower(a@[k]) == ascii_lower(bc@[k]),
        decreases a.len() - i,
    {
        if ascii_lower_exec(a[i]) != ascii_lower_exec(bc[i]) {
            return false;
        }
        i = i + 1;
    }
    true
}

/// The image type for an extension.
pub fn detect_image_mime_type(ext: &str) -> (res: Option<String>)
    ensures
        res matches Some(m) ==> image_mime(ext@) == Some(m@),
        res is None ==> image_mime(ext@) is None,
{
    let e = chars_of(ext);
    if eq_ignore_ascii_case_exec(&e, "png") {
        Some("image/png".to_owned())
    } else if eq_ignore_ascii_case_exec(&e, "jpg") || eq_ignore_ascii_case_exec(&e, "jpeg") {
        Some("image/jpeg".to_owned())
    } else if eq_ignore_ascii_case_exec(&e, "gif") {
        Some("image/gif".to_owned())
    } else if eq_ignore_ascii_case_exec(&e, "webp") {
        Some("image/webp".to_owned())
    } else if eq_ignore_ascii_case_exec(&e, "bmp") {
        Some("image/bmp".to_owned())
    } else {
        None
    }
}

/// How Read treats a path: PDFs first (extension `pdf`), then images (by
/// extension, ignoring ASCII case), then notebooks (`ipynb`), then text.
pub fn read_kind(path: &str) -> (res: ReadKind)
    ensures
        path_extension(path@) == Some("pdf"@) ==> res == ReadKind::Pdf,
        path_extension(path@) != Some("pdf"@) ==> match path_extension(path@) {
            Some(e) => match image_mime(e) {
                Some(m) => res matches ReadKind::Image(s) && s@ == m,
                None => if e == "ipynb"@ {
                    res == ReadKind::Notebook
                } else {
                    res == ReadKind::Text
                },
            },
            None => res == ReadKind::Text,
        },
{
    match path_extension_exec(path) {
        None => ReadKind::Text,
        Some(e) => {
            let ec = chars_of(e.as_str());
            let pdf = chars_of("pdf");
            let ipynb = chars_of("ipynb");
            if crate::paths::chars_eq(&ec, &pdf) {
                return ReadKind::Pdf;
            }
            match detect_image_mime_type(e.as_str()) {
                Some(m) => ReadKind::Image(m),
                None => {
                    if crate::paths::chars_eq(&ec, &ipynb) {
                        ReadKind::Notebook
                    } else {
                        ReadKind::Text
                    }
                },
            }
        },
    }
}

/// The lines `offset..offset + limit` of `content`, joined with newlines.
pub fn window_file_content(content: &str, offset: usize, limit: usize) -> (res: String)
    ensures
        res@ == window(content@, offset as nat, limit as nat),
{
    let c = chars_of(content);
    let ls = lines_of(&c);
    let ghost lv = ls@.map_values(|p: Vec<char>| p@);
    assert(lv.len() == ls.len());
    let start = if offset <= ls.len() {
        offset
    } else {
        ls.len()
    };
    let end = if limit <= ls.len() - start {
        start + limit
    } else {
        ls.len()
    };
    let sep: Vec<char> = vec!['\n'];
    assert(sep@ =~= seq!['\n']);
    let joined = join_range(&ls, start, end, &sep);
    string_of(&joined)
}

/// What Read shows of a text file: a warning when it is empty, otherwise
/// the requested lines (offset 0 and 2000 lines by default).
pub fn render_text_read(text: &str, offset: Option<usize>, limit: Option<usize>) -> (res:
    ReadFileOutput)
    ensures
        res matches ReadFileOutput::Text(t) && t@ == text_read(
            text@,
            offset.unwrap_or(0) as nat,
            limit.unwrap_or(2000) as nat,
        ),
{
    let c = chars_of(text);
    if c.len() == 0 {
        return ReadFileOutput::Text("Warning: file exists but is empty.".to_owned());
    }
    let o = match offset {
        Some(v) => v,
        None => 0,
    };
    let l = match limit {
        Some(v) => v,
        None => 2000,
    };
    ReadFileOutput::Text(window_file_content(text, o, l))
}

/// What Read shows of a text file given as bytes (invalid UTF-8 replaced).
pub fn read_text_file(raw: &Vec<u8>, offset: Option<usize>, limit: Option<usize>) -> (res:
    ReadFileOutput)
    ensures
        res matches ReadFileOutput::Text(t) && t@ == text_read(
            utf8_lossy(raw@),
            offset.unwrap_or(0) as nat,
            limit.unwrap_or(2000) as nat,
        ),
{
    let text = decode_utf8_lossy(raw.as_slice());
    render_text_read(text.as_str(), offset, limit)
}

} // verus!
