//! Where a query reads the repository from: the index, the work tree, or a commit.
use vstd::prelude::*;

use crate::text::{chars_eq, chars_of, concat2, copy_str, starts_with, starts_with_chars, string_of, sub_chars, trim, trim_str, Chars};

verus! {

#[derive(Clone, Debug, PartialEq, Eq)]
pub enum DiffSource {
    Staged,
    Worktree,
    Commit(String),
}

#[derive(Clone, Copy, Debug, PartialEq, Eq, Structural)]
pub enum DiffSourceParseError {
    Empty,
    Unknown,
    MissingCommit,
}

/// A diff source as the contracts see it.
pub enum DiffSourceSpec {
    Staged,
    Worktree,
    Commit(Chars),
}

impl View for DiffSource {
    type V = DiffSourceSpec;

    open spec fn view(&self) -> DiffSourceSpec {
        match self {
            DiffSource::Staged => DiffSourceSpec::Staged,
            DiffSource::Worktree => DiffSourceSpec::Worktree,
            DiffSource::Commit(sha) => DiffSourceSpec::Commit(sha@),
        }
    }
}

/// What `DiffSource::parse` accepts: `staged`, `worktree` or `commit:<sha>`,
/// surrounded by white space or not.
pub open spec fn parse_diff_source(input: Chars) -> Result<DiffSourceSpec, DiffSourceParseError> {
    let t = trim(input);
    if t.len() == 0 {
        Err(DiffSourceParseError::Empty)
    } else if t == "staged"@ {
        Ok(DiffSourceSpec::Staged)
    } else if t == "worktree"@ {
        Ok(DiffSourceSpec::Worktree)
    } else if starts_with(t, "commit:"@) {
        if t.len() == "commit:"@.len() {
            Err(DiffSourceParseError::MissingCommit)
        } else {
            Ok(DiffSourceSpec::Commit(t.skip("commit:"@.len() as int)))
        }
    } else {
        Err(DiffSourceParseError::Unknown)
    }
}

/// How a diff source is written back (`commit:` followed by the sha for a commit).
pub open spec fn display_text(d: DiffSourceSpec) -> Chars {
    match d {
        DiffSourceSpec::Staged => "staged"@,
        DiffSourceSpec::Worktree => "worktree"@,
        DiffSourceSpec::Commit(sha) => "commit:"@ + sha,
    }
}

impl DiffSource {
    pub fn parse(input: &str) -> (r: Result<DiffSource, DiffSourceParseError>)
        ensures
            r matches Ok(d) ==> parse_diff_source(input@) == Ok::<DiffSourceSpec, DiffSourceParseError>(d@),
            r matches Err(e) ==> parse_diff_source(input@) == Err::<DiffSourceSpec, DiffSourceParseError>(e),
    {
        let t = trim_str(input);
        if t.len() == 0 {
            return Err(DiffSourceParseError::Empty);
        }
        let staged = chars_of("staged");
        if chars_eq(t.as_slice(), staged.as_slice()) {
            return Ok(DiffSource::Staged);
        }
        let worktree = chars_of("worktree");
        if chars_eq(t.as_slice(), worktree.as_slice()) {
            return Ok(DiffSource::Worktree);
        }
        let prefix = chars_of("commit:");
        if !starts_with_chars(t.as_slice(), prefix.as_slice()) {
            return Err(DiffSourceParseError::Unknown);
        }
        if t.len() == prefix.len() {
            return Err(DiffSourceParseError::MissingCommit);
        }
        let sha = sub_chars(t.as_slice(), prefix.len(), t.len());
        assert(sha@ =~= t@.skip(prefix@.len() as int));
        Ok(DiffSource::Commit(string_of(sha.as_slice())))
    }

    pub fn as_selector(&self) -> (s: &str)
        ensures
            s@ == (match self@ {
                DiffSourceSpec::Staged => "staged"@,
                DiffSourceSpec::Worktree => "worktree"@,
                DiffSourceSpec::Commit(_) => "commit:<sha>"@,
            }),
    {
        match self {
            DiffSource::Staged => "staged",
            DiffSource::Worktree => "worktree",
            DiffSource::Commit(_) => "commit:<sha>",
        }
    }

    pub fn as_git_spec(&self) -> (s: Option<&str>)
        ensures
            match self@ {
                DiffSourceSpec::Commit(sha) => s matches Some(x) && x@ == sha,
                _ => s is None,
            },
    {
        match self {
            DiffSource::Commit(sha) => Some(sha.as_str()),
            _ => None,
        }
    }

    pub fn as_display(&self) -> (s: String)
        ensures
            s@ == display_text(self@),
    {
        match self {
            DiffSource::Staged => copy_str("staged"),
            DiffSource::Worktree => copy_str("worktree"),
            DiffSource::Commit(sha) => concat2("commit:", sha.as_str()),
        }
    }

    /// A copy of this diff source.
    pub fn duplicate(&self) -> (r: DiffSource)
        ensures
            r@ == self@,
    {
        match self {
            DiffSource::Staged => DiffSource::Staged,
            DiffSource::Worktree => DiffSource::Worktree,
            DiffSource::Commit(sha) => DiffSource::Commit(copy_str(sha.as_str())),
        }
    }
}

} // verus!

verus! {

/// The error a diff source that does not parse is reported with.
pub open spec fn diff_source_error_view(err: DiffSourceParseError, input: Chars) -> crate::error::KbErrorView {
    match err {
        DiffSourceParseError::Empty => crate::error::invalid_with("diff_source must not be empty"@, "diff_source"@, input),
        DiffSourceParseError::Unknown => crate::error::invalid_with(
            "diff_source must be one of: staged, worktree, commit:<sha>"@,
            "diff_source"@,
            input,
        ),
        DiffSourceParseError::MissingCommit => crate::error::invalid_with("commit sha is required"@, "diff_source"@, input),
    }
}

/// Reports a diff source that does not parse.
pub fn diff_source_error(err: DiffSourceParseError, input: &str) -> (e: crate::error::KbError)
    ensures
        e@ == diff_source_error_view(err, input@),
{
    match err {
        DiffSourceParseError::Empty => crate::error::KbError::invalid_with_detail("diff_source must not be empty", "diff_source", input),
        DiffSourceParseError::Unknown => crate::error::KbError::invalid_with_detail(
            "diff_source must be one of: staged, worktree, commit:<sha>",
            "diff_source",
            input,
        ),
        DiffSourceParseError::MissingCommit => crate::error::KbError::invalid_with_detail("commit sha is required", "diff_source", input),
    }
}

} // verus!

verus! {

/// A diff source written out with `as_display` parses back to itself, for
/// every commit whose sha is not empty and does not end in white space.
pub proof fn law_display_parse_round_trip(d: DiffSourceSpec)
    requires
        d matches DiffSourceSpec::Commit(sha) ==> sha.len() > 0 && !crate::text::is_ws(sha.last()),
    ensures
        parse_diff_source(display_text(d)) == Ok::<DiffSourceSpec, DiffSourceParseError>(d),
{
    reveal_strlit("staged");
    reveal_strlit("worktree");
    reveal_strlit("commit:");
    let t = display_text(d);
    assert(!crate::text::is_ws(t[0]));
    assert(!crate::text::is_ws(t.last()));
    assert(crate::text::trim_start(t) == t);
    assert(crate::text::trim_end(t) == t);
    match d {
        DiffSourceSpec::Commit(sha) => {
            assert(t.take(7) =~= "commit:"@);
            assert(t.skip(7) =~= sha);
            assert(t != "staged"@);
            assert(t != "worktree"@);
        },
        _ => {},
    }
}

} // verus!
