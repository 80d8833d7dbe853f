//! Filesystem errors in the form `ENOENT: no such file or directory, open '/x'`, which models
//! are used to reacting to.

use crate::strings;
use crate::strings::{chars_of, position, text_between};
use vstd::prelude::*;

verus! {

/// An error of the operating system: its number, where it has one, and its own text.
#[derive(Clone, Debug, PartialEq, Eq)]
pub struct OsError {
    pub errno: Option<i32>,
    pub text: String,
}

/// The text of an error number, its symbol first.
pub uninterp spec fn errno_text(errno: i32) -> Seq<char>;

/// `nix`'s `Errno::from_raw`, printed: the symbol of the error number, a colon and a
/// description. Nothing is said here of which symbol a number has.
#[verifier::external_body]
fn errno_display(errno: i32) -> (text: String)
    ensures
        text@ == errno_text(errno),
{
    nix::errno::Errno::from_raw(errno).to_string()
}

/// A text in lower case.
pub uninterp spec fn lowercased(text: Seq<char>) -> Seq<char>;

pub open spec fn ascii_lower(c: char) -> char {
    if 'A' <= c <= 'Z' {
        ((c as u32) + 32) as char
    } else {
        c
    }
}

/// `str::to_lowercase`: the lower case of a text by Unicode's rules. ASCII text is mapped
/// letter by letter; of other text nothing is said here but that it is a function of the text.
#[verifier::external_body]
fn to_lowercase(text: &str) -> (lower: String)
    ensures
        lower@ == lowercased(text@),
        (forall|i: int| #![trigger text@[i]] 0 <= i < text@.len() ==> text@[i] <= '\u{7F}')
            ==> lower@ == text@.map_values(|c: char| ascii_lower(c)),
{
    text.to_lowercase()
}

/// The part of `text` before the first `mark`; all of it where there is none.
pub open spec fn before(text: Seq<char>, mark: Seq<char>) -> Seq<char> {
    match strings::find(text, mark) {
        Some(at) => text.take(at),
        None => text,
    }
}

/// What stands before a mark is everything up to the first place where the mark stands.
pub proof fn law_a_part_ends_at_the_first_mark(text: Seq<char>, mark: Seq<char>, at: int)
    ensures
        strings::stands_at(text, mark, at) && (forall|k: int|
            0 <= k < at ==> !#[trigger] strings::stands_at(text, mark, k)) ==> before(text, mark)
            == text.take(at),
        (forall|k: int| 0 <= k ==> !#[trigger] strings::stands_at(text, mark, k)) ==> before(
            text,
            mark,
        ) == text,
{
    strings::lemma_find_from(text, mark, 0);
}

pub fn text_before(text: &str, mark: &str) -> (part: String)
    ensures
        part@ == before(text@, mark@),
{
    let chars = chars_of(text);
    let wanted = chars_of(mark);
    match position(&chars, &wanted) {
        Some(at) => {
            let part = text_between(&chars, 0, at);
            assert(part@ =~= text@.take(at as int));
            part
        },
        None => text.to_owned(),
    }
}

/// How a known error number is described.
pub open spec fn known(errno: Option<i32>) -> Option<Seq<char>> {
    match errno {
        Some(errno) => match errno {
            2 => Some("no such file or directory"@),
            13 => Some("permission denied"@),
            21 => Some("illegal operation on a directory"@),
            20 => Some("not a directory"@),
            40 => Some("too many symbolic links encountered"@),
            36 => Some("name too long"@),
            30 => Some("read-only file system"@),
            28 => Some("no space left on device"@),
            1 => Some("operation not permitted"@),
            17 => Some("file already exists"@),
            16 => Some("resource busy or locked"@),
            26 => Some("text file is busy"@),
            27 => Some("file too large"@),
            24 => Some("too many open files"@),
            5 => Some("i/o error"@),
            _ => None,
        },
        None => None,
    }
}

fn known_description(errno: Option<i32>) -> (description: Option<&'static str>)
    ensures
        match description {
            Some(text) => known(errno) == Some(text@),
            None => known(errno) is None,
        },
{
    match errno {
        Some(errno) => match errno {
            2 => Some("no such file or directory"),
            13 => Some("permission denied"),
            21 => Some("illegal operation on a directory"),
            20 => Some("not a directory"),
            40 => Some("too many symbolic links encountered"),
            36 => Some("name too long"),
            30 => Some("read-only file system"),
            28 => Some("no space left on device"),
            1 => Some("operation not permitted"),
            17 => Some("file already exists"),
            16 => Some("resource busy or locked"),
            26 => Some("text file is busy"),
            27 => Some("file too large"),
            24 => Some("too many open files"),
            5 => Some("i/o error"),
            _ => None,
        },
        None => None,
    }
}

/// The symbol of an error.
pub open spec fn symbol(error: OsError) -> Seq<char> {
    match error.errno {
        Some(errno) => before(errno_text(errno), ":"@),
        None => "EIO"@,
    }
}

pub fn code(error: &OsError) -> (code: String)
    ensures
        code@ == symbol(*error),
{
    match error.errno {
        Some(errno) => {
            let text = errno_display(errno);
            text_before(text.as_str(), ":")
        },
        None => "EIO".to_owned(),
    }
}

/// How an error is described: known numbers in fixed words, others by the error's own text.
pub open spec fn described(error: OsError) -> Seq<char> {
    match known(error.errno) {
        Some(text) => text,
        None => lowercased(before(error.text@, " (os error"@)),
    }
}

fn description(error: &OsError) -> (description: String)
    ensures
        description@ == described(*error),
{
    match known_description(error.errno) {
        Some(text) => text.to_owned(),
        None => {
            let own = text_before(error.text.as_str(), " (os error");
            to_lowercase(own.as_str())
        },
    }
}

/// `CODE: description, syscall 'path'`, or without the path where it is empty.
pub open spec fn worded(
    code: Seq<char>,
    description: Seq<char>,
    syscall: Seq<char>,
    path: Seq<char>,
) -> Seq<char> {
    let base = code + ": "@ + description + ", "@ + syscall;
    if path.len() == 0 {
        base
    } else {
        base + " '"@ + path + "'"@
    }
}

/// An error tells its code, what it means, the call that failed and, where there is one, the path.
pub proof fn law_an_error_tells_code_words_call_and_path(
    code: Seq<char>,
    description: Seq<char>,
    syscall: Seq<char>,
    path: Seq<char>,
)
    ensures
        worded(code, description, syscall, Seq::empty()) == code + ": "@ + description + ", "@
            + syscall,
        path.len() > 0 ==> worded(code, description, syscall, path) == code + ": "@ + description
            + ", "@ + syscall + " '"@ + path + "'"@,
{
}

pub fn message(code: &str, description: &str, syscall: &str, path: &str) -> (message: String)
    ensures
        message@ == worded(code@, description@, syscall@, path@),
{
    let mut message = code.to_owned();
    message.append(": ");
    message.append(description);
    message.append(", ");
    message.append(syscall);
    if !path.is_empty() {
        message.append(" '");
        message.append(path);
        message.append("'");
    }
    message
}

/// `CODE: description, syscall 'path'`, or without the path where it is empty.
pub fn node(error: &OsError, syscall: &str, path: &str) -> (text: String)
    ensures
        text@ == worded(symbol(*error), described(*error), syscall@, path@),
{
    let symbol = code(error);
    let words = description(error);
    message(symbol.as_str(), words.as_str(), syscall, path)
}

} // verus!
