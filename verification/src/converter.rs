//! What is asked of paths before files are read or written: no way out of
//! the directory, no absolute path, no null byte; and which files are notes.

use crate::errors::{PublishError, PublishErrorView};
use crate::outline::{ends_with, markdown_suffix, md_suffix};
use crate::text::{contains_part, has_part, has_prefix, stands_at, starts_with, to_chars};
use vstd::prelude::*;

verus! {

/// The error for a directory path that is not accepted; none for one that
/// is.
pub open spec fn input_path_error(path: Seq<char>) -> Option<PublishErrorView> {
    if path.len() == 0 {
        Some(PublishErrorView::InvalidInput("Input directory path cannot be empty"@))
    } else if contains_part(path, ".."@) {
        Some(PublishErrorView::InvalidInput("Path traversal not allowed: path contains '..'"@))
    } else if starts_with(path, "/"@) && !starts_with(path, "/home/"@) && !starts_with(path, "/tmp/"@) {
        Some(
            PublishErrorView::InvalidInput(
                "Absolute paths outside allowed directories are not permitted"@,
            ),
        )
    } else {
        None
    }
}

/// The error for a file path that is not accepted; none for one that is.
pub open spec fn file_path_error(path: Seq<char>) -> Option<PublishErrorView> {
    if path.len() == 0 {
        Some(PublishErrorView::InvalidInput("File path cannot be empty"@))
    } else if contains_part(path, ".."@) {
        Some(
            PublishErrorView::InvalidInput(
                "Path traversal not allowed in file path: '"@ + path + "'"@,
            ),
        )
    } else if contains_part(path, "\0"@) {
        Some(
            PublishErrorView::InvalidInput("Null bytes not allowed in file path: '"@ + path + "'"@),
        )
    } else if starts_with(path, "/"@) || starts_with(path, "\\"@) {
        Some(PublishErrorView::InvalidInput("Absolute file paths not allowed: '"@ + path + "'"@))
    } else {
        None
    }
}

/// Whether a path names a note file: it ends with `.md` or `.markdown`.
pub open spec fn is_markdown(path: Seq<char>) -> bool {
    ends_with(path, md_suffix()) || ends_with(path, markdown_suffix())
}

/// Whether `s` ends with `suffix`.
pub fn has_suffix(s: &Vec<char>, suffix: &Vec<char>) -> (r: bool)
    ensures
        r == ends_with(s@, suffix@),
{
    if s.len() < suffix.len() {
        return false;
    }
    let at: usize = s.len() - suffix.len();
    proof {
        assert(s@.subrange(at as int, at + suffix.len()) =~= s@.skip(s.len() - suffix.len()));
    }
    stands_at(s, at, suffix)
}

/// `before`, then `path`, then a closing quote.
fn quoted(before: &str, path: &str) -> (s: String)
    ensures
        s@ == before@ + path@ + "'"@,
{
    let mut s = String::from_str(before);
    s.append(path);
    s.append("'");
    s
}

/// Accepts the path of a directory to read from or write to. It must not be
/// empty, hold `..`, or be absolute outside `/home/` and `/tmp/`.
pub fn validate_input_path(path: &str) -> (r: Result<(), PublishError>)
    ensures
        match r {
            Ok(_) => input_path_error(path@) is None,
            Err(e) => input_path_error(path@) == Some(e@),
        },
{
    let chars = to_chars(path);
    if chars.len() == 0 {
        return Err(PublishError::invalid_input("Input directory path cannot be empty"));
    }
    if has_part(&chars, "..") {
        return Err(PublishError::invalid_input("Path traversal not allowed: path contains '..'"));
    }
    if has_prefix(&chars, "/") && !has_prefix(&chars, "/home/") && !has_prefix(&chars, "/tmp/") {
        return Err(
            PublishError::invalid_input("Absolute paths outside allowed directories are not permitted"),
        );
    }
    Ok(())
}

/// Accepts the path of a file below the directory. It must not be empty,
/// hold `..` or a null byte, or begin with a slash or a backslash.
pub fn validate_file_path(path: &str) -> (r: Result<(), PublishError>)
    ensures
        match r {
            Ok(_) => file_path_error(path@) is None,
            Err(e) => file_path_error(path@) == Some(e@),
        },
{
    let chars = to_chars(path);
    if chars.len() == 0 {
        return Err(PublishError::invalid_input("File path cannot be empty"));
    }
    if has_part(&chars, "..") {
        let message = quoted("Path traversal not allowed in file path: '", path);
        return Err(PublishError::invalid_input(message.as_str()));
    }
    if has_part(&chars, "\0") {
        let message = quoted("Null bytes not allowed in file path: '", path);
        return Err(PublishError::invalid_input(message.as_str()));
    }
    if has_prefix(&chars, "/") || has_prefix(&chars, "\\") {
        let message = quoted("Absolute file paths not allowed: '", path);
        return Err(PublishError::invalid_input(message.as_str()));
    }
    Ok(())
}

/// Whether `path` names a note file.
pub fn is_markdown_path(path: &str) -> (r: bool)
    ensures
        r == is_markdown(path@),
{
    let chars = to_chars(path);
    let md: Vec<char> = vec!['.', 'm', 'd'];
    let markdown: Vec<char> = vec!['.', 'm', 'a', 'r', 'k', 'd', 'o', 'w', 'n'];
    assert(md@ =~= md_suffix());
    assert(markdown@ =~= markdown_suffix());
    has_suffix(&chars, &md) || has_suffix(&chars, &markdown)
}

/// Where the file at `path` below the directory `output_dir` is written:
/// the directory, a slash, and the path. Fails where the path is not
/// accepted.
pub fn output_path(output_dir: &str, path: &str) -> (r: Result<String, PublishError>)
    ensures
        match r {
            Ok(full) => file_path_error(path@) is None && full@ == output_dir@ + "/"@ + path@,
            Err(e) => file_path_error(path@) == Some(e@),
        },
{
    match validate_file_path(path) {
        Ok(_) => {
            let mut full = String::from_str(output_dir);
            full.append("/");
            full.append(path);
            Ok(full)
        },
        Err(e) => Err(e),
    }
}

} // verus!
