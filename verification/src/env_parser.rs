//! The `.env` reader used when loading a project's variables: lines are
//! taken as they are, without trimming them first.
use vstd::prelude::*;

use crate::env::{env_text, parse_text};
use crate::env_map::EnvMap;
use crate::error::FyrerError;

verus! {

/// Parses `.env` text: blank lines and lines starting with `#` are skipped
/// (a line is not trimmed first); other lines are `NAME=value`, split at the
/// first `=`, both halves trimmed, and lines without a `=` or with a blank
/// name are ignored. A later line setting the same name wins.
pub fn parse_env(content: &str) -> (r: EnvMap)
    ensures
        r.wf(),
        r@ == env_text(content@, false),
{
    parse_text(content, false)
}

/// The variables of the `.env` file at `path`, given its text, or `None`
/// when the file does not exist (an error naming the path).
pub fn load_env_from_file(path: &str, content: Option<&str>) -> (r: Result<EnvMap, FyrerError>)
    ensures
        match content {
            Some(text) => r matches Ok(m) && m.wf() && m@ == env_text(text@, false),
            None => r matches Err(FyrerError::FileNotFound(p)) && p@ == path@,
        },
{
    match content {
        Some(text) => Ok(parse_env(text)),
        None => Err(FyrerError::FileNotFound(String::from_str(path))),
    }
}

} // verus!
