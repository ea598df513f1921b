//! Splitting file names, and deciding whether a file is binary and how to describe it.
use vstd::prelude::*;
use vstd::string::*;
use vstd::utf8::*;
use crate::text::{str_eq};
use crate::types::FileStats;

verus! {

/// How many leading bytes of a file are searched for a zero byte.
pub const SNIFF_LEN: usize = 8192;

/// Index of the last occurrence of `c` in `s`, or -1.
pub open spec fn last_index_of(s: Seq<char>, c: char) -> int
    decreases s.len(),
{
    if s.len() == 0 {
        -1
    } else if s.last() == c {
        s.len() - 1
    } else {
        last_index_of(s.drop_last(), c)
    }
}

/// The final component of a `/`-separated path.
pub open spec fn file_name_of(p: Seq<char>) -> Seq<char> {
    p.subrange(last_index_of(p, '/') + 1, p.len() as int)
}

/// The name has an extension: a `.` that is not its first character, and it is not `..`.
pub open spec fn has_extension(name: Seq<char>) -> bool {
    last_index_of(name, '.') > 0 && name != ".."@
}

/// The part of a file name after its final `.`, when it has an extension.
pub open spec fn extension_of(name: Seq<char>) -> Option<Seq<char>> {
    if has_extension(name) {
        Some(name.subrange(last_index_of(name, '.') + 1, name.len() as int))
    } else {
        None
    }
}

/// The part of a file name before its extension; the whole name when it has none.
pub open spec fn stem_of(name: Seq<char>) -> Seq<char> {
    if has_extension(name) {
        name.subrange(0, last_index_of(name, '.'))
    } else {
        name
    }
}

/// What `str::to_lowercase` makes of a string.
pub uninterp spec fn lower_of(s: Seq<char>) -> Seq<char>;

/// What `str::to_uppercase` makes of a string.
pub uninterp spec fn upper_of(s: Seq<char>) -> Seq<char>;

/// The lower-cased extension of the final component of `path`.
pub open spec fn lowered_extension(path: Seq<char>) -> Option<Seq<char>> {
    match extension_of(file_name_of(path)) {
        Some(e) => Some(lower_of(e)),
        None => None,
    }
}

/// Extensions of documents, images, audio, video, archives, executables and
/// raw data formats, which are binary whatever their content.
pub open spec fn is_binary_ext(e: Seq<char>) -> bool {
    e == "pdf"@
        || e == "doc"@
        || e == "docx"@
        || e == "xls"@
        || e == "xlsx"@
        || e == "ppt"@
        || e == "pptx"@
        || e == "odt"@
        || e == "ods"@
        || e == "odp"@
        || e == "jpg"@
        || e == "jpeg"@
        || e == "png"@
        || e == "gif"@
        || e == "bmp"@
        || e == "tiff"@
        || e == "tif"@
        || e == "svg"@
        || e == "ico"@
        || e == "webp"@
        || e == "mp3"@
        || e == "wav"@
        || e == "flac"@
        || e == "ogg"@
        || e == "aac"@
        || e == "m4a"@
        || e == "wma"@
        || e == "mp4"@
        || e == "avi"@
        || e == "mov"@
        || e == "wmv"@
        || e == "flv"@
        || e == "webm"@
        || e == "mkv"@
        || e == "m4v"@
        || e == "zip"@
        || e == "rar"@
        || e == "7z"@
        || e == "tar"@
        || e == "gz"@
        || e == "bz2"@
        || e == "xz"@
        || e == "exe"@
        || e == "dll"@
        || e == "so"@
        || e == "dylib"@
        || e == "bin"@
        || e == "dat"@
        || e == "db"@
        || e == "sqlite"@
        || e == "sqlite3"@
}

/// The path's extension is one of the binary ones.
pub open spec fn binary_by_extension(path: Seq<char>) -> bool {
    match lowered_extension(path) {
        Some(e) => is_binary_ext(e),
        None => false,
    }
}

/// A zero byte occurs among the first `SNIFF_LEN` bytes.
pub open spec fn has_zero_prefix(b: Seq<u8>) -> bool {
    exists|i: int| 0 <= i < b.len() && i < SNIFF_LEN && b[i] == 0
}

/// The description of a known lower-case extension.
pub open spec fn known_label(e: Seq<char>) -> Option<Seq<char>> {
    if e == "pdf"@ {
        Some("PDF Document"@)
    } else if e == "doc"@ {
        Some("Word Document"@)
    } else if e == "docx"@ {
        Some("Word Document"@)
    } else if e == "xls"@ {
        Some("Excel Spreadsheet"@)
    } else if e == "xlsx"@ {
        Some("Excel Spreadsheet"@)
    } else if e == "ppt"@ {
        Some("PowerPoint Presentation"@)
    } else if e == "pptx"@ {
        Some("PowerPoint Presentation"@)
    } else if e == "py"@ {
        Some("Python Script"@)
    } else if e == "js"@ {
        Some("JavaScript File"@)
    } else if e == "html"@ {
        Some("HTML File"@)
    } else if e == "css"@ {
        Some("CSS Stylesheet"@)
    } else if e == "json"@ {
        Some("JSON Data"@)
    } else if e == "txt"@ {
        Some("Text File"@)
    } else if e == "md"@ {
        Some("Markdown File"@)
    } else if e == "csv"@ {
        Some("CSV Data"@)
    } else if e == "jpg"@ {
        Some("JPEG Image"@)
    } else if e == "jpeg"@ {
        Some("JPEG Image"@)
    } else if e == "png"@ {
        Some("PNG Image"@)
    } else if e == "gif"@ {
        Some("GIF Image"@)
    } else if e == "svg"@ {
        Some("SVG Image"@)
    } else if e == "zip"@ {
        Some("ZIP Archive"@)
    } else if e == "rar"@ {
        Some("RAR Archive"@)
    } else if e == "7z"@ {
        Some("7-Zip Archive"@)
    } else {
        None
    }
}

/// The description of a lower-case extension: the known one, else the
/// upper-cased extension followed by ` File`.
pub open spec fn type_label(e: Seq<char>) -> Seq<char> {
    match known_label(e) {
        Some(l) => l,
        None => upper_of(e) + " File"@,
    }
}

/// The description of the file at `path`.
pub open spec fn description_of(path: Seq<char>) -> Seq<char> {
    match lowered_extension(path) {
        Some(e) => type_label(e),
        None => "Unknown File"@,
    }
}

/// The starting content of a new file with the given lower-case extension.
pub open spec fn template_for(e: Seq<char>) -> Seq<char> {
    if e == "py"@ {
        "# Python script\n\ndef main():\n    print(\"Hello, World!\")\n\nif __name__ == \"__main__\":\n    main()\n"@
    } else if e == "js"@ {
        "// JavaScript file\nconsole.log('Hello, World!');\n"@
    } else if e == "md"@ {
        "# Document Title\n\nYour content here...\n"@
    } else if e == "txt"@ {
        "Your text content here...\n"@
    } else if e == "json"@ {
        "{\n  \"example\": \"data\"\n}\n"@
    } else if e == "html"@ {
        "<!DOCTYPE html>\n<html>\n<head>\n  <title>Document</title>\n</head>\n<body>\n  <h1>Hello, World!</h1>\n</body>\n</html>\n"@
    } else if e == "css"@ {
        "/* CSS Styles */\nbody {\n  font-family: Arial, sans-serif;\n}\n"@
    } else {
        ""@
    }
}

/// The text shown in place of a file whose content is not displayable.
pub open spec fn binary_placeholder() -> Seq<char> {
    "[Binary file - content not displayable]"@
}

/// The bytes are binary: a zero byte among the first ones, or not UTF-8.
pub open spec fn content_binary(b: Seq<u8>) -> bool {
    has_zero_prefix(b) || !valid_utf8(b)
}

/// The result of classifying a file.
#[derive(Clone, Debug)]
pub struct Classification {
    pub is_binary: bool,
    pub type_label: String,
}

proof fn lemma_last_index_bounds(s: Seq<char>, c: char)
    ensures
        -1 <= last_index_of(s, c) < s.len(),
        last_index_of(s, c) >= 0 ==> s[last_index_of(s, c)] == c,
    decreases s.len(),
{
    if s.len() > 0 && s.last() != c {
        lemma_last_index_bounds(s.drop_last(), c);
    }
}

/// Position of the last `c` in `s`.
pub fn find_last(s: &str, c: char) -> (r: Option<usize>)
    ensures
        match r {
            Some(k) => k as int == last_index_of(s@, c) && k < s@.len(),
            None => last_index_of(s@, c) == -1,
        },
{
    proof {
        lemma_last_index_bounds(s@, c);
    }
    let mut i = s.unicode_len();
    assert(s@.subrange(0, i as int) =~= s@);
    while i > 0
        invariant
            i <= s@.len(),
            last_index_of(s@, c) == last_index_of(s@.subrange(0, i as int), c),
        decreases i,
    {
        assert(s@.subrange(0, i as int).drop_last() =~= s@.subrange(0, i - 1));
        if s.get_char(i - 1) == c {
            return Some(i - 1);
        }
        i -= 1;
    }
    None
}

/// The final component of a `/`-separated path.
pub fn file_name(path: &str) -> (r: &str)
    ensures
        r@ == file_name_of(path@),
{
    proof {
        lemma_last_index_bounds(path@, '/');
    }
    let n = path.unicode_len();
    match find_last(path, '/') {
        Some(k) => path.substring_char(k + 1, n),
        None => path.substring_char(0, n),
    }
}

/// Splits a file name into its stem and its extension.
pub fn split_name(name: &str) -> (r: (&str, Option<&str>))
    ensures
        r.0@ == stem_of(name@),
        match r.1 {
            Some(e) => extension_of(name@) == Some(e@),
            None => extension_of(name@) is None,
        },
{
    proof {
        lemma_last_index_bounds(name@, '.');
    }
    let n = name.unicode_len();
    match find_last(name, '.') {
        Some(k) => {
            if k == 0 || str_eq(name, "..") {
                (name, None)
            } else {
                (name.substring_char(0, k), Some(name.substring_char(k + 1, n)))
            }
        },
        None => (name, None),
    }
}

/// Relies on `str::to_lowercase`: its result depends on the characters alone.
#[verifier::external_body]
fn lowercase(s: &str) -> (r: String)
    ensures
        r@ == lower_of(s@),
{
    s.to_lowercase()
}

/// Relies on `str::to_uppercase`: its result depends on the characters alone.
#[verifier::external_body]
pub(crate) fn uppercase(s: &str) -> (r: String)
    ensures
        r@ == upper_of(s@),
{
    s.to_uppercase()
}

/// Relies on `std::str::from_utf8`: it accepts exactly the well-formed UTF-8
/// byte sequences, and the text then holds the characters they encode.
#[verifier::external_body]
fn utf8_text(bytes: &[u8]) -> (r: Option<&str>)
    ensures
        r.is_some() == valid_utf8(bytes@),
        r matches Some(t) ==> t@ == decode_utf8(bytes@),
{
    std::str::from_utf8(bytes).ok()
}

/// The lower-cased extension of the final component of `path`.
pub fn get_file_extension(path: &str) -> (r: Option<String>)
    ensures
        match r {
            Some(e) => lowered_extension(path@) == Some(e@),
            None => lowered_extension(path@) is None,
        },
{
    let (_, ext) = split_name(file_name(path));
    match ext {
        Some(e) => Some(lowercase(e)),
        None => None,
    }
}

/// Whether a lower-case extension is one of the binary ones.
pub fn is_binary_extension(ext: &str) -> (r: bool)
    ensures
        r == is_binary_ext(ext@),
{
    str_eq(ext, "pdf")
        || str_eq(ext, "doc")
        || str_eq(ext, "docx")
        || str_eq(ext, "xls")
        || str_eq(ext, "xlsx")
        || str_eq(ext, "ppt")
        || str_eq(ext, "pptx")
        || str_eq(ext, "odt")
        || str_eq(ext, "ods")
        || str_eq(ext, "odp")
        || str_eq(ext, "jpg")
        || str_eq(ext, "jpeg")
        || str_eq(ext, "png")
        || str_eq(ext, "gif")
        || str_eq(ext, "bmp")
        || str_eq(ext, "tiff")
        || str_eq(ext, "tif")
        || str_eq(ext, "svg")
        || str_eq(ext, "ico")
        || str_eq(ext, "webp")
        || str_eq(ext, "mp3")
        || str_eq(ext, "wav")
        || str_eq(ext, "flac")
        || str_eq(ext, "ogg")
        || str_eq(ext, "aac")
        || str_eq(ext, "m4a")
        || str_eq(ext, "wma")
        || str_eq(ext, "mp4")
        || str_eq(ext, "avi")
        || str_eq(ext, "mov")
        || str_eq(ext, "wmv")
        || str_eq(ext, "flv")
        || str_eq(ext, "webm")
        || str_eq(ext, "mkv")
        || str_eq(ext, "m4v")
        || str_eq(ext, "zip")
        || str_eq(ext, "rar")
        || str_eq(ext, "7z")
        || str_eq(ext, "tar")
        || str_eq(ext, "gz")
        || str_eq(ext, "bz2")
        || str_eq(ext, "xz")
        || str_eq(ext, "exe")
        || str_eq(ext, "dll")
        || str_eq(ext, "so")
        || str_eq(ext, "dylib")
        || str_eq(ext, "bin")
        || str_eq(ext, "dat")
        || str_eq(ext, "db")
        || str_eq(ext, "sqlite")
        || str_eq(ext, "sqlite3")
}

/// Whether the file at `path` is binary by its extension.
pub fn is_binary_file(path: &str) -> (r: bool)
    ensures
        r == binary_by_extension(path@),
{
    match get_file_extension(path) {
        Some(e) => is_binary_extension(e.as_str()),
        None => false,
    }
}

/// Whether a zero byte occurs among the first `SNIFF_LEN` bytes of `content`.
pub fn is_content_binary(content: &[u8]) -> (r: bool)
    ensures
        r == has_zero_prefix(content@),
{
    let limit: usize = if content.len() < SNIFF_LEN { content.len() } else { SNIFF_LEN };
    let mut i: usize = 0;
    while i < limit
        invariant
            limit <= content@.len(),
            limit <= SNIFF_LEN,
            limit == content@.len() || limit == SNIFF_LEN,
            i <= limit,
            forall|j: int| 0 <= j < i ==> content@[j] != 0,
        decreases limit - i,
    {
        if content[i] == 0 {
            assert(content@[i as int] == 0 && (i as int) < SNIFF_LEN);
            return true;
        }
        i += 1;
    }
    false
}

/// The description of a known lower-case extension.
fn known_label_of(lowered: &str) -> (r: Option<&'static str>)
    ensures
        match r {
            Some(l) => known_label(lowered@) == Some(l@),
            None => known_label(lowered@) is None,
        },
{
    if str_eq(lowered, "pdf") {
        Some("PDF Document")
    } else if str_eq(lowered, "doc") {
        Some("Word Document")
    } else if str_eq(lowered, "docx") {
        Some("Word Document")
    } else if str_eq(lowered, "xls") {
        Some("Excel Spreadsheet")
    } else if str_eq(lowered, "xlsx") {
        Some("Excel Spreadsheet")
    } else if str_eq(lowered, "ppt") {
        Some("PowerPoint Presentation")
    } else if str_eq(lowered, "pptx") {
        Some("PowerPoint Presentation")
    } else if str_eq(lowered, "py") {
        Some("Python Script")
    } else if str_eq(lowered, "js") {
        Some("JavaScript File")
    } else if str_eq(lowered, "html") {
        Some("HTML File")
    } else if str_eq(lowered, "css") {
        Some("CSS Stylesheet")
    } else if str_eq(lowered, "json") {
        Some("JSON Data")
    } else if str_eq(lowered, "txt") {
        Some("Text File")
    } else if str_eq(lowered, "md") {
        Some("Markdown File")
    } else if str_eq(lowered, "csv") {
        Some("CSV Data")
    } else if str_eq(lowered, "jpg") {
        Some("JPEG Image")
    } else if str_eq(lowered, "jpeg") {
        Some("JPEG Image")
    } else if str_eq(lowered, "png") {
        Some("PNG Image")
    } else if str_eq(lowered, "gif") {
        Some("GIF Image")
    } else if str_eq(lowered, "svg") {
        Some("SVG Image")
    } else if str_eq(lowered, "zip") {
        Some("ZIP Archive")
    } else if str_eq(lowered, "rar") {
        Some("RAR Archive")
    } else if str_eq(lowered, "7z") {
        Some("7-Zip Archive")
    } else {
        None
    }
}

/// The description of a lower-case extension.
pub fn describe_extension(lowered: &str) -> (r: String)
    ensures
        r@ == type_label(lowered@),
{
    match known_label_of(lowered) {
        Some(l) => String::from_str(l),
        None => {
            let upper = uppercase(lowered);
            upper.concat(" File")
        },
    }
}

/// The description of the file at `path`: by its extension, `Unknown File` without one.
pub fn get_file_type_description(path: &str) -> (r: String)
    ensures
        r@ == description_of(path@),
{
    match get_file_extension(path) {
        Some(e) => describe_extension(e.as_str()),
        None => String::from_str("Unknown File"),
    }
}

/// The starting content of a new file with the given lower-case extension.
pub fn default_content_for_extension(lowered: &str) -> (r: &'static str)
    ensures
        r@ == template_for(lowered@),
{
    if str_eq(lowered, "py") {
        "# Python script\n\ndef main():\n    print(\"Hello, World!\")\n\nif __name__ == \"__main__\":\n    main()\n"
    } else if str_eq(lowered, "js") {
        "// JavaScript file\nconsole.log('Hello, World!');\n"
    } else if str_eq(lowered, "md") {
        "# Document Title\n\nYour content here...\n"
    } else if str_eq(lowered, "txt") {
        "Your text content here...\n"
    } else if str_eq(lowered, "json") {
        "{\n  \"example\": \"data\"\n}\n"
    } else if str_eq(lowered, "html") {
        "<!DOCTYPE html>\n<html>\n<head>\n  <title>Document</title>\n</head>\n<body>\n  <h1>Hello, World!</h1>\n</body>\n</html>\n"
    } else if str_eq(lowered, "css") {
        "/* CSS Styles */\nbody {\n  font-family: Arial, sans-serif;\n}\n"
    } else {
        ""
    }
}

/// The starting content of a new file called `filename`; empty for an unknown extension.
pub fn get_default_file_content(filename: &str) -> (r: &'static str)
    ensures
        r@ == match lowered_extension(filename@) {
            Some(e) => template_for(e),
            None => ""@,
        },
{
    match get_file_extension(filename) {
        Some(e) => default_content_for_extension(e.as_str()),
        None => "",
    }
}

/// Whether a byte sample is binary: a zero byte among its first bytes, or not UTF-8.
pub fn is_sample_binary(sample: &[u8]) -> (r: bool)
    ensures
        r == content_binary(sample@),
{
    is_content_binary(sample) || utf8_text(sample).is_none()
}

/// Classifies the file at `path`: binary by its extension, or by the sample of
/// its content when one is given; and its description.
pub fn classify(path: &str, sample: Option<&[u8]>) -> (r: Classification)
    ensures
        r.is_binary == (binary_by_extension(path@) || match sample {
            Some(b) => content_binary(b@),
            None => false,
        }),
        r.type_label@ == description_of(path@),
{
    let by_ext = is_binary_file(path);
    let is_binary = if by_ext {
        true
    } else {
        match sample {
            Some(b) => is_sample_binary(b),
            None => false,
        }
    };
    Classification { is_binary, type_label: get_file_type_description(path) }
}

/// The text to show for a file's content: the decoded text, or a placeholder
/// when the file is binary by its extension or its bytes.
pub fn displayable_content(path: &str, bytes: &[u8]) -> (r: String)
    ensures
        binary_by_extension(path@) || content_binary(bytes@) ==> r@ == binary_placeholder(),
        !(binary_by_extension(path@) || content_binary(bytes@)) ==> r@ == decode_utf8(bytes@),
{
    if is_binary_file(path) || is_content_binary(bytes) {
        return String::from_str("[Binary file - content not displayable]");
    }
    match utf8_text(bytes) {
        Some(t) => String::from_str(t),
        None => String::from_str("[Binary file - content not displayable]"),
    }
}

/// Refuses to overwrite a file that is binary by its extension.
pub fn check_text_target(path: &str) -> (r: Result<(), String>)
    ensures
        r is Err <==> binary_by_extension(path@),
        r matches Err(e) ==> e@ == "Cannot save content to binary file"@,
{
    if is_binary_file(path) {
        Err(String::from_str("Cannot save content to binary file"))
    } else {
        Ok(())
    }
}

/// Size, times and classification of the file at `path`.
pub fn file_stats(path: &str, size: u64, modified: i64, created: i64) -> (r: FileStats)
    ensures
        r.size == size,
        r.modified == modified,
        r.created == created,
        r.is_binary == binary_by_extension(path@),
        r.file_type@ == description_of(path@),
{
    FileStats {
        size,
        modified,
        created,
        is_binary: is_binary_file(path),
        file_type: get_file_type_description(path),
    }
}

} // verus!
