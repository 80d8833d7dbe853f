//! The `read` tool. Text is scanned as a stream, so reading a page of a huge file costs no
//! more memory than the page itself.

use crate::json;
use crate::json::{no_fields, no_items, put, put_item, Json};
use crate::strings;
use crate::strings::{number, text_from_utf8};
use crate::tools;
use crate::tools::errors;
use crate::tools::errors::{node, OsError};
use crate::tools::path;
use crate::tools::path::resolve;
use crate::tools::text;
use crate::tools::text::{
    format_size, truncate_head, Truncation, TruncatedBy, DEFAULT_MAX_BYTES, DEFAULT_MAX_LINES,
};
use crate::tools::{property, schema, string_arg, Content, ToolInfo, ToolOutput};
use base64::Engine;
use vstd::prelude::*;

verus! {

/// Images larger than this are refused rather than sent.
pub const MAX_IMAGE_BYTES: u64 = 20971520;

/// A line is kept only up to just past the byte limit.
pub const LINE_LIMIT: usize = 51201;

pub struct Read;

pub open spec fn about() -> Seq<char> {
    "Read the contents of a file. Supports text files and images (jpg, png, gif, webp, bmp). Images are sent as attachments. For text files, output is truncated to "@
        + strings::decimal(DEFAULT_MAX_LINES as nat) + " lines or "@ + strings::decimal(
        DEFAULT_MAX_BYTES as nat / 1024,
    )
        + "KB (whichever is hit first). Use offset/limit for large files. When you need the full file, continue with offset until complete."@
}

pub open spec fn parameters_of() -> json::JsonView {
    tools::schema_of(
        seq![
            ("path"@, tools::property_of("string"@, "Path to the file to read (relative or absolute)"@)),
            ("offset"@, tools::property_of("number"@, "Line number to start reading from (1-indexed)"@)),
            ("limit"@, tools::property_of("number"@, "Maximum number of lines to read"@)),
        ],
        seq![json::JsonView::Text("path"@)],
    )
}

pub open spec fn info_of() -> tools::InfoView {
    tools::InfoView {
        name: "read"@,
        description: about(),
        parameters: parameters_of(),
        snippet: "Read file contents"@,
        guidelines: seq!["Use read to examine files instead of cat or sed."@],
    }
}

impl Read {
    pub fn name(&self) -> (name: &'static str)
        ensures
            name@ == info_of().name,
    {
        "read"
    }

    pub fn description(&self) -> (description: String)
        ensures
            description@ == info_of().description,
    {
        let mut description = "Read the contents of a file. Supports text files and images (jpg, png, gif, webp, bmp). Images are sent as attachments. For text files, output is truncated to ".to_owned();
        description.append(number(DEFAULT_MAX_LINES as u128).as_str());
        description.append(" lines or ");
        description.append(number((DEFAULT_MAX_BYTES / 1024) as u128).as_str());
        description.append(
            "KB (whichever is hit first). Use offset/limit for large files. When you need the full file, continue with offset until complete.",
        );
        description
    }

    pub fn parameters(&self) -> (parameters: Json)
        ensures
            parameters@ == info_of().parameters,
    {
        let mut properties = no_fields();
        put(
            &mut properties,
            "path",
            property("string", "Path to the file to read (relative or absolute)"),
        );
        put(
            &mut properties,
            "offset",
            property("number", "Line number to start reading from (1-indexed)"),
        );
        put(&mut properties, "limit", property("number", "Maximum number of lines to read"));
        let mut required = no_items();
        put_item(&mut required, json::text("path"));
        proof {
            let wanted = parameters_of()->Object_0;
            assert(json::field_views(properties@) =~= wanted[1].1->Object_0);
            assert(json::views(required@) =~= wanted[2].1->List_0);
        }
        schema(properties, required)
    }

    pub fn snippet(&self) -> (snippet: &'static str)
        ensures
            snippet@ == info_of().snippet,
    {
        "Read file contents"
    }

    pub fn guidelines(&self) -> (guidelines: Vec<String>)
        ensures
            strings::texts(guidelines@) == info_of().guidelines,
    {
        let guidelines: Vec<String> = vec![
            "Use read to examine files instead of cat or sed.".to_owned(),
        ];
        assert(strings::texts(guidelines@) =~= info_of().guidelines);
        guidelines
    }

    pub fn info(&self) -> (info: ToolInfo)
        ensures
            info@ == info_of(),
    {
        ToolInfo {
            name: self.name().to_owned(),
            description: self.description(),
            parameters: self.parameters(),
            snippet: self.snippet().to_owned(),
            guidelines: self.guidelines(),
        }
    }
}

// ---- What a call asks for ----

/// A file to read: what the call named it, and where it is.
#[derive(Clone, Debug, PartialEq, Eq)]
pub struct Plan {
    pub path: String,
    pub absolute: String,
}

pub fn plan(args: &Json, cwd: &str, home: &str) -> (result: Result<Plan, String>)
    ensures
        match tools::wanted_text(args@, "path"@) {
            None => result matches Err(error) && error@ == tools::missing_argument("path"@),
            Some(path) => result matches Ok(plan) && plan.path@ == path && plan.absolute@
                == path::resolved(path, cwd@, home@),
        },
{
    match string_arg(args, "path") {
        Ok(path) => {
            let absolute = resolve(path, cwd, home);
            Ok(Plan { path: path.to_owned(), absolute })
        },
        Err(error) => Err(error),
    }
}

pub open spec fn directory_error() -> Seq<char> {
    errors::worded(
        errors::before(errors::errno_text(21), ":"@),
        "illegal operation on a directory"@,
        "read"@,
        Seq::empty(),
    )
}

/// Only regular files are read.
pub fn check_kind(path: &str, is_dir: bool, is_file: bool) -> (result: Result<(), String>)
    ensures
        is_dir ==> (result matches Err(error) && error@ == directory_error()),
        !is_dir && !is_file ==> (result matches Err(error) && error@ == "Not a regular file: "@
            + path@),
        !is_dir && is_file ==> result is Ok,
{
    if is_dir {
        let error = OsError { errno: Some(21), text: String::new() };
        proof {
            reveal_strlit("");
            assert(""@ =~= Seq::<char>::empty());
        }
        return Err(node(&error, "read", ""));
    }
    if !is_file {
        let mut error = "Not a regular file: ".to_owned();
        error.append(path);
        return Err(error);
    }
    Ok(())
}

// ---- Images ----

/// Whether `head` begins with `mark`.
pub open spec fn begins(head: Seq<u8>, mark: Seq<u8>) -> bool {
    mark.len() <= head.len() && head.take(mark.len() as int) == mark
}

/// The type of the image that a file beginning with `head` is.
pub open spec fn image_of(head: Seq<u8>) -> Option<Seq<char>> {
    if begins(head, seq![0x89u8, 0x50u8, 0x4Eu8, 0x47u8, 0x0Du8, 0x0Au8, 0x1Au8, 0x0Au8]) {
        Some("image/png"@)
    } else if begins(head, seq![0xFFu8, 0xD8u8, 0xFFu8]) {
        Some("image/jpeg"@)
    } else if begins(head, seq![0x47u8, 0x49u8, 0x46u8, 0x38u8, 0x37u8, 0x61u8]) || begins(
        head,
        seq![0x47u8, 0x49u8, 0x46u8, 0x38u8, 0x39u8, 0x61u8],
    ) {
        Some("image/gif"@)
    } else if begins(head, seq![0x52u8, 0x49u8, 0x46u8, 0x46u8]) && head.len() >= 12
        && head.subrange(8, 12) == seq![0x57u8, 0x45u8, 0x42u8, 0x50u8] {
        Some("image/webp"@)
    } else if begins(head, seq![0x42u8, 0x4Du8]) && head.len() >= 14 {
        Some("image/bmp"@)
    } else {
        None
    }
}

/// Images are known by their beginning, whatever follows it.
pub proof fn law_images_are_known_by_their_beginning(size: Seq<u8>, rest: Seq<u8>)
    requires
        size.len() == 4,
    ensures
        image_of(seq![137u8, 80u8, 78u8, 71u8, 13u8, 10u8, 26u8, 10u8] + rest) == Some(
            "image/png"@,
        ),
        image_of(seq![255u8, 216u8, 255u8] + rest) == Some("image/jpeg"@),
        image_of(seq![71u8, 73u8, 70u8, 56u8, 55u8, 97u8] + rest) == Some("image/gif"@),
        image_of(seq![71u8, 73u8, 70u8, 56u8, 57u8, 97u8] + rest) == Some("image/gif"@),
        image_of(
            seq![82u8, 73u8, 70u8, 70u8] + size + seq![87u8, 69u8, 66u8, 80u8] + rest,
        ) == Some("image/webp"@),
        rest.len() >= 12 ==> image_of(seq![66u8, 77u8] + rest) == Some("image/bmp"@),
        rest.len() > 0 && rest[0] != 137 && rest[0] != 255 && rest[0] != 71 && rest[0] != 82
            && rest[0] != 66 ==> image_of(rest) is None,
        image_of(Seq::empty()) is None,
{
    let png = seq![0x89u8, 0x50u8, 0x4Eu8, 0x47u8, 0x0Du8, 0x0Au8, 0x1Au8, 0x0Au8];
    let jpeg = seq![0xFFu8, 0xD8u8, 0xFFu8];
    let gif87 = seq![0x47u8, 0x49u8, 0x46u8, 0x38u8, 0x37u8, 0x61u8];
    let gif89 = seq![0x47u8, 0x49u8, 0x46u8, 0x38u8, 0x39u8, 0x61u8];
    let riff = seq![0x52u8, 0x49u8, 0x46u8, 0x46u8];
    let webp = seq![0x57u8, 0x45u8, 0x42u8, 0x50u8];
    let bmp = seq![0x42u8, 0x4Du8];
    let sound = riff + size + webp + rest;
    lemma_begins(png, rest);
    lemma_begins(jpeg, rest);
    lemma_begins(gif87, rest);
    lemma_begins(gif89, rest);
    lemma_begins(riff, size + webp + rest);
    lemma_begins(bmp, rest);
    assert(riff + (size + webp + rest) =~= sound);
    assert(sound.subrange(8, 12) =~= webp);
    lemma_first_byte(jpeg + rest, png);
    lemma_first_byte(gif87 + rest, png);
    lemma_first_byte(gif87 + rest, jpeg);
    lemma_first_byte(gif89 + rest, png);
    lemma_first_byte(gif89 + rest, jpeg);
    lemma_first_byte(sound, png);
    lemma_first_byte(sound, jpeg);
    lemma_first_byte(sound, gif87);
    lemma_first_byte(sound, gif89);
    lemma_first_byte(bmp + rest, png);
    lemma_first_byte(bmp + rest, jpeg);
    lemma_first_byte(bmp + rest, gif87);
    lemma_first_byte(bmp + rest, gif89);
    lemma_first_byte(bmp + rest, riff);
    lemma_first_byte(rest, png);
    lemma_first_byte(rest, jpeg);
    lemma_first_byte(rest, gif87);
    lemma_first_byte(rest, gif89);
    lemma_first_byte(rest, riff);
    lemma_first_byte(rest, bmp);
}

proof fn lemma_begins(mark: Seq<u8>, rest: Seq<u8>)
    ensures
        begins(mark + rest, mark),
{
    assert((mark + rest).take(mark.len() as int) =~= mark);
}

proof fn lemma_first_byte(head: Seq<u8>, mark: Seq<u8>)
    requires
        mark.len() > 0,
    ensures
        begins(head, mark) ==> head[0] == mark[0],
{
    if begins(head, mark) {
        assert(head.take(mark.len() as int)[0] == head[0]);
    }
}

/// Whether `mark` stands in `head` at `at`.
fn has_at(head: &[u8], at: usize, mark: &Vec<u8>) -> (found: bool)
    ensures
        found == (at + mark@.len() <= head@.len() && head@.subrange(at as int, at + mark@.len())
            == mark@),
{
    if at > head.len() || mark.len() > head.len() - at {
        return false;
    }
    let length: usize = head.len();
    let mut i: usize = 0;
    while i < mark.len()
        invariant
            i <= mark@.len(),
            at + mark@.len() <= head@.len() == length,
            forall|k: int| #![trigger mark@[k]] 0 <= k < i ==> head@[at + k] == mark@[k],
        decreases mark@.len() - i,
    {
        if head[at + i] != mark[i] {
            assert(head@.subrange(at as int, at + mark@.len())[i as int] != mark@[i as int]);
            return false;
        }
        i += 1;
    }
    assert(head@.subrange(at as int, at + mark@.len()) =~= mark@);
    true
}

fn begins_with(head: &[u8], mark: Vec<u8>) -> (found: bool)
    ensures
        found == begins(head@, mark@),
{
    let found = has_at(head, 0, &mark);
    assert(head@.subrange(0, mark@.len() as int) =~= head@.take(mark@.len() as int));
    found
}

pub fn image_type(head: &[u8]) -> (mime: Option<&'static str>)
    ensures
        match mime {
            Some(mime) => image_of(head@) == Some(mime@),
            None => image_of(head@) is None,
        },
{
    let png: Vec<u8> = vec![0x89, 0x50, 0x4E, 0x47, 0x0D, 0x0A, 0x1A, 0x0A];
    assert(png@ =~= seq![0x89u8, 0x50u8, 0x4Eu8, 0x47u8, 0x0Du8, 0x0Au8, 0x1Au8, 0x0Au8]);
    let jpeg: Vec<u8> = vec![0xFF, 0xD8, 0xFF];
    assert(jpeg@ =~= seq![0xFFu8, 0xD8u8, 0xFFu8]);
    let gif87: Vec<u8> = vec![0x47, 0x49, 0x46, 0x38, 0x37, 0x61];
    assert(gif87@ =~= seq![0x47u8, 0x49u8, 0x46u8, 0x38u8, 0x37u8, 0x61u8]);
    let gif89: Vec<u8> = vec![0x47, 0x49, 0x46, 0x38, 0x39, 0x61];
    assert(gif89@ =~= seq![0x47u8, 0x49u8, 0x46u8, 0x38u8, 0x39u8, 0x61u8]);
    let riff: Vec<u8> = vec![0x52, 0x49, 0x46, 0x46];
    assert(riff@ =~= seq![0x52u8, 0x49u8, 0x46u8, 0x46u8]);
    let webp: Vec<u8> = vec![0x57, 0x45, 0x42, 0x50];
    assert(webp@ =~= seq![0x57u8, 0x45u8, 0x42u8, 0x50u8]);
    let bmp: Vec<u8> = vec![0x42, 0x4D];
    assert(bmp@ =~= seq![0x42u8, 0x4Du8]);
    if begins_with(head, png) {
        Some("image/png")
    } else if begins_with(head, jpeg) {
        Some("image/jpeg")
    } else if begins_with(head, gif87) || begins_with(head, gif89) {
        Some("image/gif")
    } else if begins_with(head, riff) && has_at(head, 8, &webp) {
        Some("image/webp")
    } else if begins_with(head, bmp) && head.len() >= 14 {
        Some("image/bmp")
    } else {
        None
    }
}

pub open spec fn too_large(path: Seq<char>, size: nat) -> Seq<char> {
    "Image "@ + path + " is "@ + text::size_text(size) + ", larger than the "@ + text::size_text(
        MAX_IMAGE_BYTES as nat,
    ) + " limit."@
}

/// An image that is refused is named with its size and the limit, twenty megabytes.
pub proof fn law_a_refused_image_tells_its_size(path: Seq<char>, size: nat)
    ensures
        too_large(path, size) == "Image "@ + path + " is "@ + text::size_text(size)
            + ", larger than the "@ + text::size_text(20 * 1024 * 1024) + " limit."@,
{
}

/// Refuses an image of more than the limit.
pub fn check_image(path: &str, size: usize) -> (result: Result<(), String>)
    ensures
        size > MAX_IMAGE_BYTES ==> (result matches Err(error) && error@ == too_large(
            path@,
            size as nat,
        )),
        size <= MAX_IMAGE_BYTES ==> result is Ok,
{
    if size as u64 > MAX_IMAGE_BYTES {
        let mut error = "Image ".to_owned();
        error.append(path);
        error.append(" is ");
        error.append(format_size(size).as_str());
        error.append(", larger than the ");
        error.append(format_size(MAX_IMAGE_BYTES as usize).as_str());
        error.append(" limit.");
        return Err(error);
    }
    Ok(())
}

/// Bytes in the standard base64 alphabet, padded.
pub uninterp spec fn base64_text(bytes: Seq<u8>) -> Seq<char>;

/// `base64`'s standard engine: the base64 text of bytes, with padding. Nothing is said here of
/// its characters.
#[verifier::external_body]
fn encode_base64(bytes: &Vec<u8>) -> (data: String)
    ensures
        data@ == base64_text(bytes@),
{
    base64::engine::general_purpose::STANDARD.encode(bytes)
}

pub open spec fn image_output_of(mime: Seq<char>, data: Seq<char>) -> tools::OutputView {
    tools::OutputView {
        content: seq![
            tools::ContentView::Text("Read image file ["@ + mime + "]"@),
            tools::ContentView::Image { mime, data },
        ],
        is_error: false,
        details: json::JsonView::Null,
        delivers: None,
    }
}

/// An image is attached as it is, under its own type, after a note that names the type.
pub proof fn law_an_image_is_attached_under_its_type(mime: Seq<char>, data: Seq<char>)
    ensures
        ({
            let output = image_output_of(mime, data);
            &&& !output.is_error && output.delivers is None
            &&& output.content.len() == 2
            &&& output.content[0] == tools::ContentView::Text("Read image file ["@ + mime + "]"@)
            &&& output.content[1] == (tools::ContentView::Image { mime, data })
        }),
{
}

/// An image as an attachment.
pub fn attached(mime: &str, data: String) -> (output: ToolOutput)
    ensures
        output@ == image_output_of(mime@, data@),
{
    let mut note = "Read image file [".to_owned();
    note.append(mime);
    note.append("]");
    let content: Vec<Content> = vec![
        Content::Text(note),
        Content::Image { mime: mime.to_owned(), data },
    ];
    assert(tools::content_views(content@) =~= image_output_of(mime@, data@).content);
    ToolOutput::new(content)
}

/// What reading an image answers.
pub fn image_output(mime: &str, bytes: &Vec<u8>) -> (output: ToolOutput)
    ensures
        output@ == image_output_of(mime@, base64_text(bytes@)),
{
    attached(mime, encode_base64(bytes))
}

// ---- Scanning ----

/// The selected lines, kept only up to just past the output limits.
#[derive(Clone, Debug, PartialEq, Eq)]
pub struct Page {
    pub lines: Vec<Vec<u8>>,
    /// Every line in the file, counting the empty one after a trailing newline.
    pub total_lines: usize,
    pub first_line_bytes: usize,
}

pub ghost struct PageView {
    pub lines: Seq<Seq<u8>>,
    pub total_lines: nat,
    pub first_line_bytes: nat,
}

pub open spec fn byte_lines(lines: Seq<Vec<u8>>) -> Seq<Seq<u8>> {
    lines.map_values(|line: Vec<u8>| line@)
}

impl View for Page {
    type V = PageView;

    open spec fn view(&self) -> PageView {
        PageView {
            lines: byte_lines(self.lines@),
            total_lines: self.total_lines as nat,
            first_line_bytes: self.first_line_bytes as nat,
        }
    }
}

pub open spec fn line_feed() -> Seq<u8> {
    seq![10u8]
}

/// The lines of a file: one more than it has line feeds.
pub open spec fn file_lines(bytes: Seq<u8>) -> Seq<Seq<u8>> {
    strings::split_on(bytes, 10u8)
}

/// Whether line `index` is one of `wanted` lines from `start` on.
pub open spec fn is_selected(index: int, start: nat, wanted: Option<usize>) -> bool {
    start <= index && (wanted matches Some(count) ==> index < start + count)
}

/// The selected ones among the first lines of a file.
pub open spec fn selection(lines: Seq<Seq<u8>>, start: nat, wanted: Option<usize>) -> Seq<Seq<u8>>
    decreases lines.len(),
{
    if lines.len() == 0 {
        Seq::empty()
    } else {
        let before = selection(lines.drop_last(), start, wanted);
        if is_selected(lines.len() - 1, start, wanted) {
            before.push(lines.last())
        } else {
            before
        }
    }
}

/// The beginning of a line that is kept.
pub open spec fn kept_part(line: Seq<u8>) -> Seq<u8> {
    if line.len() > LINE_LIMIT {
        line.take(LINE_LIMIT as int)
    } else {
        line
    }
}

/// Past either limit the page is certainly truncated; the rest need only be counted.
pub open spec fn is_full(kept: Seq<Seq<u8>>) -> bool {
    kept.len() > DEFAULT_MAX_LINES + 1 || strings::join(kept, line_feed()).len() > DEFAULT_MAX_BYTES
        + 1
}

/// The lines that are kept of the selected ones.
pub open spec fn kept_lines(selected: Seq<Seq<u8>>) -> Seq<Seq<u8>>
    decreases selected.len(),
{
    if selected.len() == 0 {
        Seq::empty()
    } else {
        let before = kept_lines(selected.drop_last());
        if is_full(before) {
            before
        } else {
            before.push(kept_part(selected.last()))
        }
    }
}

pub open spec fn length_of_line(lines: Seq<Seq<u8>>, index: nat) -> nat {
    if index < lines.len() {
        lines[index as int].len()
    } else {
        0
    }
}

/// The page of a file that holds `bytes`.
pub open spec fn page_of(bytes: Seq<u8>, start: nat, wanted: Option<usize>) -> PageView {
    let lines = file_lines(bytes);
    PageView {
        lines: kept_lines(selection(lines, start, wanted)),
        total_lines: lines.len(),
        first_line_bytes: length_of_line(lines, start),
    }
}

/// Reads a file chunk by chunk and keeps a page of it.
pub struct Scanner {
    page: Page,
    current: Vec<u8>,
    current_len: usize,
    stored_bytes: usize,
    storing: bool,
    start: usize,
    wanted: Option<usize>,
    taken: usize,
    seen: Ghost<Seq<u8>>,
}

impl Scanner {
    /// The bytes that were fed so far.
    pub closed spec fn seen(self) -> Seq<u8> {
        self.seen@
    }

    pub closed spec fn start(self) -> nat {
        self.start as nat
    }

    pub closed spec fn wanted(self) -> Option<usize> {
        self.wanted
    }

    /// What is held belongs to the bytes that were fed.
    pub closed spec fn well_formed(self) -> bool {
        let lines = file_lines(self.seen@);
        let done = lines.drop_last();
        let kept = kept_lines(selection(done, self.start as nat, self.wanted));
        &&& lines.len() >= 1
        &&& self.taken == self.seen@.len()
        &&& self.page.total_lines == done.len()
        &&& done.len() <= self.taken
        &&& self.page.first_line_bytes == length_of_line(done, self.start as nat)
        &&& byte_lines(self.page.lines@) == kept
        &&& self.stored_bytes == strings::join(kept, line_feed()).len()
        &&& self.storing == !is_full(kept)
        &&& self.current_len == lines.last().len()
        &&& self.current_len <= self.taken
        &&& self.current@ == if self.storing && is_selected(
            done.len() as int,
            self.start as nat,
            self.wanted,
        ) {
            kept_part(lines.last())
        } else {
            Seq::empty()
        }
    }

    pub fn new(start: usize, wanted: Option<usize>) -> (scanner: Self)
        ensures
            scanner.well_formed(),
            scanner.seen() == Seq::<u8>::empty(),
            scanner.start() == start,
            scanner.wanted() == wanted,
    {
        let lines: Vec<Vec<u8>> = Vec::new();
        proof {
            let none = file_lines(Seq::<u8>::empty());
            assert(none =~= seq![Seq::<u8>::empty()]);
            assert(none.drop_last() =~= Seq::<Seq<u8>>::empty());
            assert(byte_lines(lines@) =~= Seq::<Seq<u8>>::empty());
            assert(strings::join(Seq::<Seq<u8>>::empty(), line_feed()) =~= Seq::<u8>::empty());
        }
        Self {
            page: Page { lines, total_lines: 0, first_line_bytes: 0 },
            current: Vec::new(),
            current_len: 0,
            stored_bytes: 0,
            storing: true,
            start,
            wanted,
            taken: 0,
            seen: Ghost(Seq::empty()),
        }
    }

    /// How many bytes were fed so far.
    pub fn taken(&self) -> (taken: usize)
        requires
            self.well_formed(),
        ensures
            taken == self.seen().len(),
    {
        self.taken
    }

    fn selected(&self) -> (selected: bool)
        ensures
            selected == is_selected(
                self.page.total_lines as int,
                self.start as nat,
                self.wanted,
            ),
    {
        let index: usize = self.page.total_lines;
        index >= self.start && match self.wanted {
            Some(count) => index - self.start < count,
            None => true,
        }
    }

    /// Ends the current line.
    fn finish_line(&mut self)
        requires
            old(self).well_formed(),
            old(self).taken < usize::MAX,
        ensures
            ({
                let lines = file_lines(old(self).seen@);
                let kept = kept_lines(selection(lines, old(self).start as nat, old(self).wanted));
                &&& final(self).page.total_lines == lines.len()
                &&& final(self).page.first_line_bytes == length_of_line(
                    lines,
                    old(self).start as nat,
                )
                &&& byte_lines(final(self).page.lines@) == kept
                &&& final(self).stored_bytes == strings::join(kept, line_feed()).len()
                &&& final(self).storing == !is_full(kept)
            }),
            final(self).current@ == Seq::<u8>::empty(),
            final(self).current_len == 0,
            final(self).start == old(self).start,
            final(self).wanted == old(self).wanted,
            final(self).taken == old(self).taken,
            final(self).seen@ == old(self).seen@,
    {
        let ghost lines = file_lines(self.seen@);
        let ghost done = lines.drop_last();
        let ghost before = kept_lines(selection(done, self.start as nat, self.wanted));
        let selected = self.selected();
        if self.page.total_lines == self.start {
            self.page.first_line_bytes = self.current_len;
        }
        proof {
            assert(lines =~= done.push(lines.last()));
            let picked = selection(done, self.start as nat, self.wanted);
            assert(picked.push(lines.last()).drop_last() =~= picked);
            if (self.start as nat) < done.len() {
                assert(done[self.start as int] == lines[self.start as int]);
            }
        }
        let mut line: Vec<u8> = Vec::new();
        std::mem::swap(&mut line, &mut self.current);
        if selected && self.storing {
            let ghost now = before.push(kept_part(lines.last()));
            proof {
                assert(now.drop_last() =~= before);
                lemma_full(before, lines.last());
            }
            let gap: usize = if self.page.lines.len() > 0 {
                1
            } else {
                0
            };
            self.stored_bytes = self.stored_bytes + line.len() + gap;
            let ghost held = self.page.lines@;
            self.page.lines.push(line);
            proof {
                assert(byte_lines(self.page.lines@) =~= byte_lines(held).push(line@));
            }
            if self.page.lines.len() > DEFAULT_MAX_LINES + 1 || self.stored_bytes
                > DEFAULT_MAX_BYTES + 1 {
                self.storing = false;
            }
        }
        self.current_len = 0;
        self.page.total_lines = self.page.total_lines + 1;
    }

    /// Takes one more byte of the file.
    fn take(&mut self, byte: u8)
        requires
            old(self).well_formed(),
            old(self).taken < usize::MAX - 1,
        ensures
            final(self).well_formed(),
            final(self).seen@ == old(self).seen@.push(byte),
            final(self).start == old(self).start,
            final(self).wanted == old(self).wanted,
    {
        let ghost before = self.seen@;
        let ghost lines = file_lines(before);
        let ghost after = before.push(byte);
        proof {
            assert(after.drop_last() =~= before);
            assert(after.last() == byte);
        }
        if byte == 10 {
            self.finish_line();
            proof {
                assert(file_lines(after) == lines.push(Seq::<u8>::empty()));
                assert(file_lines(after).drop_last() =~= lines);
            }
        } else {
            let selected = self.selected();
            proof {
                let now = file_lines(after);
                assert(now == lines.drop_last().push(lines.last().push(byte)));
                assert(now.drop_last() =~= lines.drop_last());
                if lines.last().len() >= LINE_LIMIT {
                    assert(lines.last().push(byte).take(LINE_LIMIT as int) =~= lines.last().take(
                        LINE_LIMIT as int,
                    ));
                    assert(lines.last().take(LINE_LIMIT as int) =~= kept_part(lines.last()));
                }
            }
            if selected && self.storing && self.current.len() < LINE_LIMIT {
                self.current.push(byte);
            }
            self.current_len = self.current_len + 1;
        }
        self.taken = self.taken + 1;
        self.seen = Ghost(after);
    }

    /// Takes the next bytes of the file.
    pub fn feed(&mut self, chunk: &[u8])
        requires
            old(self).well_formed(),
            old(self).seen().len() + chunk@.len() < usize::MAX,
        ensures
            final(self).well_formed(),
            final(self).seen() == old(self).seen() + chunk@,
            final(self).start() == old(self).start(),
            final(self).wanted() == old(self).wanted(),
    {
        let ghost before = self.seen@;
        let ghost from = *self;
        let length: usize = chunk.len();
        let mut at: usize = 0;
        assert(before + chunk@.take(0) =~= before);
        while at < length
            invariant
                at <= length == chunk@.len(),
                self.well_formed(),
                before.len() + chunk@.len() < usize::MAX,
                self.seen@ == before + chunk@.take(at as int),
                self.start == from.start,
                self.wanted == from.wanted,
            decreases length - at,
        {
            assert(self.taken == before.len() + at);
            self.take(chunk[at]);
            assert((before + chunk@.take(at as int)).push(chunk@[at as int]) =~= before
                + chunk@.take(at + 1));
            at += 1;
        }
        assert(chunk@.take(at as int) =~= chunk@);
    }

    /// The page, once the whole file was fed.
    pub fn finish(self) -> (page: Page)
        requires
            self.well_formed(),
            self.seen().len() < usize::MAX,
        ensures
            page@ == page_of(self.seen(), self.start(), self.wanted()),
    {
        let mut scanner = self;
        scanner.finish_line();
        scanner.page
    }
}

/// What is kept grows by one line at a time, and stays within twice the limit.
proof fn lemma_full(kept: Seq<Seq<u8>>, line: Seq<u8>)
    requires
        !is_full(kept),
    ensures
        strings::join(kept.push(kept_part(line)), line_feed()).len() == strings::join(
            kept,
            line_feed(),
        ).len() + kept_part(line).len() + if kept.len() > 0 {
            1int
        } else {
            0int
        },
        kept_part(line).len() <= LINE_LIMIT,
{
    let now = kept.push(kept_part(line));
    assert(now.drop_last() =~= kept);
}

/// What is kept is the beginning of the selection, line by line, and more than the limits ask
/// for where anything is left out.
pub proof fn law_page_is_a_beginning(selected: Seq<Seq<u8>>)
    ensures
        kept_lines(selected).len() <= selected.len(),
        forall|i: int| #![trigger kept_lines(selected)[i]]
            0 <= i < kept_lines(selected).len() ==> kept_lines(selected)[i] == kept_part(
                selected[i],
            ),
        kept_lines(selected).len() < selected.len() ==> is_full(kept_lines(selected)),
    decreases selected.len(),
{
    if selected.len() > 0 {
        let rest = selected.drop_last();
        law_page_is_a_beginning(rest);
        let before = kept_lines(rest);
        let now = kept_lines(selected);
        assert forall|i: int| #![trigger now[i]] 0 <= i < now.len() implies now[i] == kept_part(
            selected[i],
        ) by {
            if i < before.len() {
                assert(now[i] == before[i]);
                assert(rest[i] == selected[i]);
            }
        }
    }
}

/// A page holds no more lines and bytes than just past the limits, however large the file is.
pub proof fn law_page_is_bounded(selected: Seq<Seq<u8>>)
    ensures
        kept_lines(selected).len() <= DEFAULT_MAX_LINES + 2,
        strings::join(kept_lines(selected), line_feed()).len() <= 2 * DEFAULT_MAX_BYTES + 3,
    decreases selected.len(),
{
    if selected.len() == 0 {
        assert(strings::join(Seq::<Seq<u8>>::empty(), line_feed()) =~= Seq::<u8>::empty());
    } else {
        let before = kept_lines(selected.drop_last());
        law_page_is_bounded(selected.drop_last());
        if !is_full(before) {
            lemma_full(before, selected.last());
        }
    }
}

/// The selected lines are those from `start` on, at most as many as wanted.
pub proof fn law_selection(lines: Seq<Seq<u8>>, start: nat, wanted: Option<usize>)
    ensures
        ({
            let end = match wanted {
                Some(count) => if start + count < lines.len() {
                    (start + count) as int
                } else {
                    lines.len() as int
                },
                None => lines.len() as int,
            };
            selection(lines, start, wanted) == if start <= end {
                lines.subrange(start as int, end)
            } else {
                Seq::empty()
            }
        }),
    decreases lines.len(),
{
    if lines.len() > 0 {
        let rest = lines.drop_last();
        law_selection(rest, start, wanted);
        let picked = selection(lines, start, wanted);
        let before = selection(rest, start, wanted);
        if is_selected(lines.len() - 1, start, wanted) {
            assert(before =~= rest.subrange(start as int, rest.len() as int));
            assert(picked =~= lines.subrange(start as int, lines.len() as int));
        } else if start < lines.len() {
            let end = start + wanted->0;
            assert(picked =~= lines.subrange(start as int, end));
        } else {
            assert(picked =~= Seq::<Seq<u8>>::empty());
            if start == lines.len() {
                assert(lines.subrange(start as int, start as int) =~= Seq::<Seq<u8>>::empty());
            }
        }
    }
}

// ---- Answering ----

pub open spec fn bytes_note() -> Seq<char> {
    " ("@ + text::size_text(DEFAULT_MAX_BYTES as nat) + " limit)"@
}

/// What a page answers, from the truncation of its content.
pub open spec fn shown(
    path: Seq<char>,
    start: nat,
    wanted: Option<usize>,
    total: nat,
    first_line_bytes: nat,
    head: Truncation,
) -> Seq<char> {
    let kept = head.content@;
    let first = strings::decimal(start + 1);
    if head.first_line_exceeds_limit {
        "[Line "@ + first + " is "@ + text::size_text(first_line_bytes) + ", exceeds "@
            + text::size_text(DEFAULT_MAX_BYTES as nat) + " limit. Use bash: sed -n '"@ + first
            + "p' "@ + path + " | head -c "@ + strings::decimal(DEFAULT_MAX_BYTES as nat) + "]"@
    } else if head.truncated_by is Some {
        let last = (start + head.output_lines) as nat;
        kept + "\n\n[Showing lines "@ + first + "-"@ + strings::decimal(last) + " of "@
            + strings::decimal(total) + (if head.truncated_by == Some(TruncatedBy::Bytes) {
            bytes_note()
        } else {
            Seq::empty()
        }) + ". Use offset="@ + strings::decimal(last + 1) + " to continue.]"@
    } else {
        match wanted {
            Some(count) => {
                let next = if start + count < total {
                    (start + count) as nat
                } else {
                    total
                };
                if next < total {
                    kept + "\n\n["@ + strings::decimal((total - next) as nat)
                        + " more lines in file. Use offset="@ + strings::decimal(next + 1)
                        + " to continue.]"@
                } else {
                    kept
                }
            },
            None => kept,
        }
    }
}

/// Whether `answer` is what a page with this content answers.
pub open spec fn is_shown(
    answer: Seq<char>,
    path: Seq<char>,
    start: nat,
    wanted: Option<usize>,
    total: nat,
    first_line_bytes: nat,
    content: Seq<char>,
) -> bool {
    exists|head: Truncation|
        #![trigger shown(path, start, wanted, total, first_line_bytes, head)]
        text::is_head(content, DEFAULT_MAX_LINES as nat, DEFAULT_MAX_BYTES as nat, head) && answer
            == shown(path, start, wanted, total, first_line_bytes, head)
}

/// A page in words: its content within the output limits, and how to go on where there is more.
pub fn format_content(
    path: &str,
    start: usize,
    wanted: Option<usize>,
    total_lines: usize,
    first_line_bytes: usize,
    content: &str,
) -> (answer: String)
    requires
        start < total_lines,
    ensures
        is_shown(
            answer@,
            path@,
            start as nat,
            wanted,
            total_lines as nat,
            first_line_bytes as nat,
            content@,
        ),
{
    let head = truncate_head(content, DEFAULT_MAX_LINES, DEFAULT_MAX_BYTES);
    let ghost truncation = head;
    let ghost wording = shown(
        path@,
        start as nat,
        wanted,
        total_lines as nat,
        first_line_bytes as nat,
        truncation,
    );
    let first = number(start as u128 + 1);
    if head.first_line_exceeds_limit {
        let mut answer = "[Line ".to_owned();
        answer.append(first.as_str());
        answer.append(" is ");
        answer.append(format_size(first_line_bytes).as_str());
        answer.append(", exceeds ");
        answer.append(format_size(DEFAULT_MAX_BYTES).as_str());
        answer.append(" limit. Use bash: sed -n '");
        answer.append(first.as_str());
        answer.append("p' ");
        answer.append(path);
        answer.append(" | head -c ");
        answer.append(number(DEFAULT_MAX_BYTES as u128).as_str());
        answer.append("]");
        assert(answer@ == wording);
        return answer;
    }
    let mut answer = head.content;
    match head.truncated_by {
        Some(by) => {
            let last: u128 = start as u128 + head.output_lines as u128;
            answer.append("\n\n[Showing lines ");
            answer.append(first.as_str());
            answer.append("-");
            answer.append(number(last).as_str());
            answer.append(" of ");
            answer.append(number(total_lines as u128).as_str());
            let ghost so_far = answer@;
            if by == TruncatedBy::Bytes {
                let mut note = " (".to_owned();
                note.append(format_size(DEFAULT_MAX_BYTES).as_str());
                note.append(" limit)");
                answer.append(note.as_str());
                assert(answer@ == so_far + bytes_note());
            } else {
                assert(answer@ =~= so_far + Seq::<char>::empty());
            }
            answer.append(". Use offset=");
            answer.append(number(last + 1).as_str());
            answer.append(" to continue.]");
            assert(answer@ == wording);
        },
        None => {
            match wanted {
                Some(count) => {
                    let left: usize = total_lines - start;
                    if count < left {
                        let next: usize = start + count;
                        answer.append("\n\n[");
                        answer.append(number((total_lines - next) as u128).as_str());
                        answer.append(" more lines in file. Use offset=");
                        answer.append(number(next as u128 + 1).as_str());
                        answer.append(" to continue.]");
                    }
                },
                None => {},
            }
            assert(answer@ == wording);
        },
    }
    answer
}

pub open spec fn decoded(lines: Seq<Seq<u8>>) -> Seq<Seq<char>> {
    lines.map_values(|line: Seq<u8>| strings::lossy(line))
}

/// Lines are read one by one, each as UTF-8 by itself.
pub proof fn law_lines_are_read_one_by_one(lines: Seq<Seq<u8>>, i: int)
    requires
        0 <= i < lines.len(),
    ensures
        decoded(lines).len() == lines.len(),
        decoded(lines)[i] == strings::lossy(lines[i]),
{
}

/// The text of a page: its lines, each read as UTF-8 by itself.
pub open spec fn page_content(page: PageView) -> Seq<char> {
    strings::join(decoded(page.lines), text::newline())
}

pub fn format_page(path: &str, start: usize, wanted: Option<usize>, page: &Page) -> (answer: String)
    requires
        start < page.total_lines,
    ensures
        is_shown(
            answer@,
            path@,
            start as nat,
            wanted,
            page@.total_lines,
            page@.first_line_bytes,
            page_content(page@),
        ),
{
    let ghost lines = decoded(byte_lines(page.lines@));
    let mut content = String::new();
    let mut at: usize = 0;
    assert(strings::join(lines.take(0), text::newline()) =~= Seq::<char>::empty());
    while at < page.lines.len()
        invariant
            at <= page.lines@.len(),
            lines == decoded(byte_lines(page.lines@)),
            content@ == strings::join(lines.take(at as int), text::newline()),
        decreases page.lines@.len() - at,
    {
        let ghost now = lines.take(at + 1);
        assert(now.drop_last() =~= lines.take(at as int));
        if at > 0 {
            content.push('\n');
        }
        let line = text_from_utf8(&page.lines[at]);
        assert(now.last() == line@);
        content.append(line.as_str());
        assert(content@ =~= strings::join(now, text::newline()));
        at += 1;
    }
    assert(lines.take(at as int) =~= lines);
    format_content(
        path,
        start,
        wanted,
        page.total_lines,
        page.first_line_bytes,
        content.as_str(),
    )
}

pub open spec fn beyond_error(offset: Seq<char>, total: nat) -> Seq<char> {
    "Offset "@ + offset + " is beyond end of file ("@ + strings::decimal(total) + " lines total)"@
}

/// An offset past the end is named, as it was given, with how many lines there are.
pub proof fn law_an_offset_past_the_end_is_named(offset: Seq<char>, total: nat)
    ensures
        beyond_error(offset, total) == "Offset "@ + offset + " is beyond end of file ("@
            + strings::decimal(total) + " lines total)"@,
{
}

/// What reading a page of text answers. `offset` is the offset as the call gave it.
pub fn answer(
    path: &str,
    offset: &str,
    start: usize,
    wanted: Option<usize>,
    page: &Page,
) -> (result: Result<ToolOutput, String>)
    ensures
        match result {
            Ok(output) => start < page@.total_lines && exists|said: Seq<char>|
                is_shown(
                    said,
                    path@,
                    start as nat,
                    wanted,
                    page@.total_lines,
                    page@.first_line_bytes,
                    page_content(page@),
                ) && output@ == #[trigger] tools::said(said, false),
            Err(error) => start >= page@.total_lines && error@ == beyond_error(
                offset@,
                page@.total_lines,
            ),
        },
{
    if start >= page.total_lines {
        let mut error = "Offset ".to_owned();
        error.append(offset);
        error.append(" is beyond end of file (");
        error.append(number(page.total_lines as u128).as_str());
        error.append(" lines total)");
        return Err(error);
    }
    let said = format_page(path, start, wanted, page);
    Ok(ToolOutput::text(said))
}

// ---- A page and its file ----

/// A line that reads as one line, and as no fewer bytes than it has.
pub open spec fn reads_well(line: Seq<u8>) -> bool {
    !strings::lossy(line).contains('\n') && strings::byte_len(strings::lossy(line)) >= line.len()
}

proof fn lemma_decoded_bytes(lines: Seq<Seq<u8>>)
    requires
        forall|i: int| #![trigger lines[i]] 0 <= i < lines.len() ==> reads_well(lines[i]),
    ensures
        strings::byte_len(strings::join(decoded(lines), text::newline())) >= strings::join(
            lines,
            line_feed(),
        ).len(),
    decreases lines.len(),
{
    if lines.len() == 0 {
        assert(strings::join(lines, line_feed()) =~= Seq::<u8>::empty());
    } else {
        let rest = lines.drop_last();
        assert(lines[lines.len() - 1] == lines.last());
        assert(decoded(lines).drop_last() =~= decoded(rest));
        assert(decoded(lines).last() == strings::lossy(lines.last()));
        if rest.len() > 0 {
            assert forall|i: int| #![trigger rest[i]] 0 <= i < rest.len() implies reads_well(
                rest[i],
            ) by {
                assert(rest[i] == lines[i]);
            }
            lemma_decoded_bytes(rest);
            let before = strings::join(decoded(rest), text::newline());
            text::lemma_newline_is_one_byte();
            strings::lemma_byte_len_concat(before + text::newline(), decoded(lines).last());
            strings::lemma_byte_len_concat(before, text::newline());
        }
    }
}

/// A page shows what the whole selection would show, though only its beginning is kept.
pub proof fn law_pages_show_what_the_file_holds(
    selected: Seq<Seq<u8>>,
    part: Truncation,
    whole: Truncation,
)
    requires
        forall|i: int| #![trigger selected[i]]
            0 <= i < selected.len() ==> reads_well(selected[i]) && reads_well(
                kept_part(selected[i]),
            ),
        text::is_head(
            strings::join(decoded(kept_lines(selected)), text::newline()),
            DEFAULT_MAX_LINES as nat,
            DEFAULT_MAX_BYTES as nat,
            part,
        ),
        text::is_head(
            strings::join(decoded(selected), text::newline()),
            DEFAULT_MAX_LINES as nat,
            DEFAULT_MAX_BYTES as nat,
            whole,
        ),
    ensures
        part.content@ == whole.content@,
        part.truncated_by == whole.truncated_by,
        part.output_lines == whole.output_lines,
        part.first_line_exceeds_limit == whole.first_line_exceeds_limit,
{
    let raw = kept_lines(selected);
    let kept = decoded(raw);
    let lines = decoded(selected);
    law_page_is_a_beginning(selected);
    assert forall|i: int| #![trigger raw[i]] 0 <= i < raw.len() implies reads_well(raw[i]) by {
        assert(raw[i] == kept_part(selected[i]));
    }
    lemma_decoded_bytes(raw);
    assert forall|i: int| #![trigger kept[i]] 0 <= i < kept.len() implies !kept[i].contains('\n')
        && (kept[i] == lines[i] || (strings::byte_len(kept[i]) > DEFAULT_MAX_BYTES
        && strings::byte_len(lines[i]) > DEFAULT_MAX_BYTES)) by {
        assert(raw[i] == kept_part(selected[i]));
        assert(reads_well(raw[i]) && reads_well(selected[i]));
    }
    assert forall|i: int| #![trigger lines[i]] 0 <= i < lines.len() implies !lines[i].contains(
        '\n',
    ) by {
        assert(reads_well(selected[i]));
    }
    text::law_head_needs_only_the_beginning(
        kept,
        lines,
        DEFAULT_MAX_LINES as nat,
        DEFAULT_MAX_BYTES as nat,
        part,
        whole,
    );
}

proof fn lemma_limit_in_words()
    ensures
        text::size_text(51200) == "50.0KB"@,
        strings::decimal(51200) == "51200"@,
{
    reveal_with_fuel(strings::decimal, 5);
    reveal_strlit("50.0KB");
    reveal_strlit("KB");
    reveal_strlit(".");
    reveal_strlit("51200");
    assert(text::double_gap(51200) == 1);
    assert(text::half_even(51200, 1) == 51200);
    assert(text::half_even(512000, 1024) == 500);
    assert(text::size_text(51200) =~= "50.0KB"@);
    assert(strings::decimal(51200) =~= "51200"@);
}

/// A page of more than is shown shows its first lines, as many as fit, and names the line after
/// the last one shown to go on from: where line `start` is the first of the page, counted from
/// zero, and some number of lines are shown, the offset that it names, counted from one, is that
/// of the first line that was not shown.
pub proof fn law_a_cut_page_names_the_first_line_not_shown(
    answer: Seq<char>,
    path: Seq<char>,
    start: nat,
    wanted: Option<usize>,
    total: nat,
    first_line_bytes: nat,
    lines: Seq<Seq<char>>,
)
    requires
        lines.len() > 0,
        forall|i: int| #![trigger lines[i]] 0 <= i < lines.len() ==> !lines[i].contains('\n'),
        strings::byte_len(lines[0]) <= 51200,
        strings::byte_len(strings::join(lines, seq!['\n'])) > 51200 || lines.len() > 2001 || (
        lines.len() == 2001 && lines.last().len() > 0),
        is_shown(
            answer,
            path,
            start,
            wanted,
            total,
            first_line_bytes,
            strings::join(lines, seq!['\n']),
        ),
    ensures
        exists|shown: nat|
            #![trigger lines.take(shown as int)]
            {
                &&& 0 < shown < lines.len() && shown <= 2000
                &&& strings::byte_len(strings::join(lines.take(shown as int), seq!['\n'])) <= 51200
                &&& shown == 2000 || strings::byte_len(
                    strings::join(lines.take(shown as int + 1), seq!['\n']),
                ) > 51200
                &&& answer == strings::join(lines.take(shown as int), seq!['\n'])
                    + "\n\n[Showing lines "@ + strings::decimal(start + 1) + "-"@ + strings::decimal(
                    start + shown,
                ) + " of "@ + strings::decimal(total) + (if shown < 2000 && (shown + 1
                    < lines.len() || lines.last().len() > 0) {
                    " ("@ + "50.0KB"@ + " limit)"@
                } else {
                    Seq::empty()
                }) + ". Use offset="@ + strings::decimal(start + shown + 1) + " to continue.]"@
            },
{
    lemma_limit_in_words();
    let content = strings::join(lines, seq!['\n']);
    let head = choose|head: Truncation|
        #![trigger shown(path, start, wanted, total, first_line_bytes, head)]
        text::is_head(content, DEFAULT_MAX_LINES as nat, DEFAULT_MAX_BYTES as nat, head) && answer
            == shown(path, start, wanted, total, first_line_bytes, head);
    text::law_head_keeps_the_most_lines(lines, 2000, 51200, head);
    let count = head.output_lines as nat;
    assert(head.content@ == strings::join(lines.take(count as int), seq!['\n']));
}

/// A page that fits is shown whole. Where fewer lines are wanted than the file goes on with, it
/// says how many are left and names the line after the last one wanted to go on from.
pub proof fn law_a_page_that_fits_is_shown_whole(
    answer: Seq<char>,
    path: Seq<char>,
    start: nat,
    wanted: Option<usize>,
    total: nat,
    first_line_bytes: nat,
    lines: Seq<Seq<char>>,
)
    requires
        0 < lines.len() <= 2000,
        forall|i: int| #![trigger lines[i]] 0 <= i < lines.len() ==> !lines[i].contains('\n'),
        strings::byte_len(strings::join(lines, seq!['\n'])) <= 51200,
        is_shown(
            answer,
            path,
            start,
            wanted,
            total,
            first_line_bytes,
            strings::join(lines, seq!['\n']),
        ),
    ensures
        match wanted {
            Some(count) if start + count < total => answer == strings::join(lines, seq!['\n'])
                + "\n\n["@ + strings::decimal((total - start - count) as nat)
                + " more lines in file. Use offset="@ + strings::decimal(
                (start + count + 1) as nat,
            ) + " to continue.]"@,
            _ => answer == strings::join(lines, seq!['\n']),
        },
{
    let content = strings::join(lines, seq!['\n']);
    let head = choose|head: Truncation|
        #![trigger shown(path, start, wanted, total, first_line_bytes, head)]
        text::is_head(content, DEFAULT_MAX_LINES as nat, DEFAULT_MAX_BYTES as nat, head) && answer
            == shown(path, start, wanted, total, first_line_bytes, head);
    lemma_first_within(lines);
    text::law_head_keeps_the_most_lines(lines, 2000, 51200, head);
}

proof fn lemma_first_within(lines: Seq<Seq<char>>)
    requires
        lines.len() > 0,
    ensures
        strings::byte_len(lines[0]) <= strings::byte_len(strings::join(lines, text::newline())),
{
    if lines.len() > 1 {
        strings::lemma_join_parts(lines, text::newline(), 1);
        let rest = strings::join(lines.skip(1), text::newline());
        assert(lines.take(1) =~= seq![lines[0]]);
        assert(strings::join(seq![lines[0]], text::newline()) == lines[0]);
        strings::lemma_byte_len_concat(lines[0] + text::newline(), rest);
        strings::lemma_byte_len_concat(lines[0], text::newline());
    } else {
        assert(strings::join(lines, text::newline()) == lines[0]);
    }
}

/// A page whose first line alone is too long shows nothing of it: it tells the line, its size and
/// the command that shows the beginning of that line.
pub proof fn law_a_line_that_is_too_long_is_named(
    answer: Seq<char>,
    path: Seq<char>,
    start: nat,
    wanted: Option<usize>,
    total: nat,
    first_line_bytes: nat,
    lines: Seq<Seq<char>>,
)
    requires
        lines.len() > 0,
        forall|i: int| #![trigger lines[i]] 0 <= i < lines.len() ==> !lines[i].contains('\n'),
        strings::byte_len(lines[0]) > 51200,
        is_shown(
            answer,
            path,
            start,
            wanted,
            total,
            first_line_bytes,
            strings::join(lines, seq!['\n']),
        ),
    ensures
        answer == "[Line "@ + strings::decimal(start + 1) + " is "@ + text::size_text(
            first_line_bytes,
        ) + ", exceeds "@ + "50.0KB"@ + " limit. Use bash: sed -n '"@ + strings::decimal(start + 1)
            + "p' "@ + path + " | head -c "@ + "51200"@ + "]"@,
{
    lemma_limit_in_words();
    let content = strings::join(lines, seq!['\n']);
    let head = choose|head: Truncation|
        #![trigger shown(path, start, wanted, total, first_line_bytes, head)]
        text::is_head(content, DEFAULT_MAX_LINES as nat, DEFAULT_MAX_BYTES as nat, head) && answer
            == shown(path, start, wanted, total, first_line_bytes, head);
    text::law_head_keeps_the_most_lines(lines, 2000, 51200, head);
}

/// Pages read one after the other by the offsets that they name show every line of a file once.
/// A page from line `start` on, counted from zero, shows either every line that is left or some
/// of them, at least one. Then the offset that it names, counted from one, is that of a page that
/// begins with the first line that was not shown.
pub proof fn law_pages_follow_each_other(
    bytes: Seq<u8>,
    start: nat,
    path: Seq<char>,
    answer: Seq<char>,
)
    requires
        start < strings::split_on(bytes, 10u8).len(),
        forall|i: int| #![trigger strings::split_on(bytes, 10u8)[i]]
            start <= i < strings::split_on(bytes, 10u8).len() ==> reads_well(
                strings::split_on(bytes, 10u8)[i],
            ) && reads_well(kept_part(strings::split_on(bytes, 10u8)[i])),
        strings::byte_len(strings::lossy(strings::split_on(bytes, 10u8)[start as int])) <= 51200,
        is_shown(
            answer,
            path,
            start,
            None,
            page_of(bytes, start, None).total_lines,
            page_of(bytes, start, None).first_line_bytes,
            page_content(page_of(bytes, start, None)),
        ),
    ensures
        ({
            let lines = strings::split_on(bytes, 10u8);
            ||| answer == strings::join(decoded(lines.skip(start as int)), seq!['\n'])
            ||| exists|next: nat|
                #![trigger lines.subrange(start as int, next as int)]
                {
                    &&& start < next < lines.len()
                    &&& exists|note: Seq<char>|
                        answer == #[trigger] (strings::join(
                            decoded(lines.subrange(start as int, next as int)),
                            seq!['\n'],
                        ) + "\n\n[Showing lines "@ + strings::decimal(start + 1) + "-"@
                            + strings::decimal(next) + " of "@ + strings::decimal(lines.len())
                            + note) + ". Use offset="@ + strings::decimal(next + 1)
                            + " to continue.]"@
                    &&& page_of(bytes, next, None).lines.len() > 0
                    &&& page_of(bytes, next, None).lines[0] == kept_part(lines[next as int])
                    &&& page_of(bytes, next, None).first_line_bytes == lines[next as int].len()
                    &&& lines.subrange(start as int, next as int) + lines.skip(next as int)
                        == lines.skip(start as int)
                }
        }),
{
    let lines = strings::split_on(bytes, 10u8);
    let selected = lines.skip(start as int);
    let page = page_of(bytes, start, None);
    let total = page.total_lines;
    law_selection(lines, start, None);
    assert(selection(lines, start, None) =~= selected);
    let content = page_content(page);
    let part = choose|head: Truncation|
        #![trigger shown(path, start, None, total, page.first_line_bytes, head)]
        text::is_head(content, DEFAULT_MAX_LINES as nat, DEFAULT_MAX_BYTES as nat, head) && answer
            == shown(path, start, None, total, page.first_line_bytes, head);
    assert forall|i: int| #![trigger selected[i]] 0 <= i < selected.len() implies reads_well(
        selected[i],
    ) && reads_well(kept_part(selected[i])) by {
        assert(selected[i] == lines[start + i]);
    }
    let read = decoded(selected);
    assert forall|i: int| #![trigger read[i]] 0 <= i < read.len() implies !read[i].contains(
        '\n',
    ) by {
        assert(reads_well(selected[i]));
    }
    assert(read[0] == strings::lossy(lines[start as int]));
    lemma_shown_of_whole(selected, part);
    let kept = part.output_lines as int;
    if part.truncated_by is Some {
        let next = (start + kept) as nat;
        let seen = lines.subrange(start as int, next as int);
        assert(read.take(kept) =~= decoded(seen));
        law_selection(lines, next, None);
        assert(selection(lines, next, None) =~= lines.skip(next as int));
        law_page_is_a_beginning(lines.skip(next as int));
        lemma_something_is_kept(lines.skip(next as int));
        assert(page_of(bytes, next, None).lines[0] == kept_part(lines.skip(next as int)[0]));
        assert(seen + lines.skip(next as int) =~= selected);
        let note = if part.truncated_by == Some(TruncatedBy::Bytes) {
            bytes_note()
        } else {
            Seq::empty()
        };
        assert(answer == (strings::join(decoded(seen), seq!['\n']) + "\n\n[Showing lines "@
            + strings::decimal(start + 1) + "-"@ + strings::decimal(next) + " of "@
            + strings::decimal(lines.len()) + note) + ". Use offset="@ + strings::decimal(next + 1)
            + " to continue.]"@);
    }
}

proof fn lemma_something_is_kept(selected: Seq<Seq<u8>>)
    requires
        selected.len() > 0,
    ensures
        kept_lines(selected).len() > 0,
    decreases selected.len(),
{
    let none = Seq::<Seq<u8>>::empty();
    assert(strings::join(none, line_feed()) =~= Seq::<u8>::empty());
    if selected.len() > 1 {
        lemma_something_is_kept(selected.drop_last());
    } else {
        assert(selected.drop_last() =~= none);
    }
}

/// What is shown of a page that keeps only the beginning of the lines, told of all of them.
proof fn lemma_shown_of_whole(selected: Seq<Seq<u8>>, part: Truncation)
    requires
        selected.len() > 0,
        forall|i: int| #![trigger selected[i]]
            0 <= i < selected.len() ==> reads_well(selected[i]) && reads_well(
                kept_part(selected[i]),
            ),
        strings::byte_len(decoded(selected)[0]) <= 51200,
        text::is_head(
            strings::join(decoded(kept_lines(selected)), text::newline()),
            DEFAULT_MAX_LINES as nat,
            DEFAULT_MAX_BYTES as nat,
            part,
        ),
    ensures
        !part.first_line_exceeds_limit,
        part.truncated_by is None ==> part.content@ == strings::join(
            decoded(selected),
            text::newline(),
        ),
        part.truncated_by is Some ==> 0 < part.output_lines < selected.len() && part.content@
            == strings::join(decoded(selected).take(part.output_lines as int), text::newline()),
{
    let raw = kept_lines(selected);
    let kept = decoded(raw);
    let lines = decoded(selected);
    law_page_is_a_beginning(selected);
    lemma_something_is_kept(selected);
    assert forall|i: int| #![trigger raw[i]] 0 <= i < raw.len() implies reads_well(raw[i]) by {
        assert(raw[i] == kept_part(selected[i]));
    }
    assert forall|i: int| #![trigger kept[i]] 0 <= i < kept.len() implies !kept[i].contains('\n')
        && (strings::byte_len(kept[i]) <= 51200 ==> kept[i] == lines[i]) by {
        assert(raw[i] == kept_part(selected[i]));
        assert(reads_well(raw[i]));
    }
    lemma_decoded_bytes(raw);
    assert(reads_well(selected[0]));
    assert(raw[0] == selected[0]);
    assert(kept[0] == lines[0]);
    text::law_head_keeps_the_most_lines(kept, 2000, 51200, part);
    if part.truncated_by is None {
        assert forall|i: int| 0 <= i < kept.len() implies kept[i] == lines[i] by {
            text::lemma_line_within(kept, i);
        }
        assert(kept =~= lines);
    } else {
        let count = part.output_lines as int;
        assert forall|i: int| 0 <= i < count implies kept.take(count)[i] == lines.take(count)[i] by {
            text::lemma_line_within(kept.take(count), i);
            assert(kept.take(count)[i] == kept[i]);
        }
        assert(kept.take(count) =~= lines.take(count));
    }
}

} // verus!
