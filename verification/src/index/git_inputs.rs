//! The file list an index is built from: what git tracks, less the tool's own
//! output directories and, for the worktree, what was deleted or renamed away.
use vstd::prelude::*;

use crate::error::{error_with, ErrorCode, KbError, KbErrorView};
use crate::order::{sort_dedup, views};
use crate::repo::diff::{nul_fields, parse_name_status, split_nul_fields, NameStatusEntry};
use crate::repo::diff_source::DiffSource;
use crate::text::{
    contains_str, decode_utf8_bytes, starts_with, starts_with_lit, string_of, utf8_error_text,
    Chars,
};

verus! {

/// Paths under the tool's generated, cache and scratch directories.
pub open spec fn is_excluded(p: Chars) -> bool {
    starts_with(p, "kb/gen/"@) || starts_with(p, "kb/cache/"@) || starts_with(p, "kb/.tmp/"@)
}

/// Whether a path lies under a directory the index never lists.
pub fn is_excluded_path(path: &str) -> (b: bool)
    ensures
        b == is_excluded(path@),
{
    let v = crate::text::chars_of(path);
    starts_with_lit(v.as_slice(), "kb/gen/") || starts_with_lit(v.as_slice(), "kb/cache/")
        || starts_with_lit(v.as_slice(), "kb/.tmp/")
}

/// The error for output that is not UTF-8.
pub open spec fn not_utf8_error(bytes: Seq<u8>) -> KbErrorView {
    error_with(ErrorCode::BackendFailed, "git output is not valid utf-8"@, "cause"@, utf8_error_text(bytes))
}

/// The paths of a NUL-terminated listing such as `git ls-files -z`.
pub open spec fn listed_paths(bytes: Seq<u8>) -> Seq<Chars> {
    nul_fields(vstd::utf8::decode_utf8(bytes))
}

/// Splits a NUL-terminated listing into paths.
pub fn split_nul_terminated_paths(bytes: &[u8]) -> (r: Result<Vec<String>, KbError>)
    ensures
        r is Ok <==> vstd::utf8::valid_utf8(bytes@),
        r matches Ok(v) ==> views(v@) == listed_paths(bytes@),
        r matches Err(e) ==> e@ == not_utf8_error(bytes@),
{
    let text = match decode_utf8_bytes(bytes) {
        Ok(t) => t,
        Err(cause) => {
            return Err(
                KbError::coded_with(
                    ErrorCode::BackendFailed,
                    "git output is not valid utf-8",
                    "cause",
                    cause.as_str(),
                ),
            );
        },
    };
    let parts = split_nul_fields(text);
    let ghost fields = parts@.map_values(|p: Vec<char>| p@);
    let mut out: Vec<String> = Vec::new();
    let mut i: usize = 0;
    while i < parts.len()
        invariant
            i <= parts@.len(),
            fields == parts@.map_values(|p: Vec<char>| p@),
            views(out@) == fields.take(i as int),
        decreases parts@.len() - i,
    {
        let ghost prev = views(out@);
        out.push(string_of(parts[i].as_slice()));
        assert(views(out@) =~= prev.push(fields[i as int]));
        assert(fields.take(i + 1) =~= fields.take(i as int).push(fields[i as int]));
        i += 1;
    }
    assert(fields.take(parts@.len() as int) =~= fields);
    Ok(out)
}

/// Parses `git diff --name-status -z` output into (status, paths) entries; the
/// index reads the worktree diff with it.
pub fn parse_name_status_z(bytes: &[u8]) -> (r: Result<Vec<(String, Vec<String>)>, KbError>)
    ensures
        r matches Ok(v) ==> parse_name_status(bytes@) == Ok::<Seq<NameStatusEntry>, KbErrorView>(
            crate::repo::diff::entries_view(v@),
        ),
        r matches Err(e) ==> parse_name_status(bytes@) == Err::<Seq<NameStatusEntry>, KbErrorView>(e@),
{
    crate::repo::diff::parse_name_status_z(bytes)
}

/// The entry at `i` deletes `p` or renames it away.
pub open spec fn removes_at(entries: Seq<NameStatusEntry>, i: int, p: Chars) -> bool {
    &&& 0 <= i < entries.len()
    &&& entries[i].0.len() > 0
    &&& (entries[i].0[0] == 'D' || entries[i].0[0] == 'R')
    &&& entries[i].1.len() > 0
    &&& entries[i].1[0] == p
}

/// Some entry deletes `p` or renames it away.
pub open spec fn removed_by(entries: Seq<NameStatusEntry>, p: Chars) -> bool {
    exists|i: int| removes_at(entries, i, p)
}

/// The paths that a worktree diff deletes or renames away, sorted, once each.
pub fn deleted_paths_in_worktree(name_status: &[u8]) -> (r: Result<Vec<String>, KbError>)
    ensures
        r matches Ok(v) ==> parse_name_status(name_status@) matches Ok(entries) && strictly_sorted_views(v@)
            && forall|p: Chars| #[trigger] views(v@).contains(p) <==> removed_by(entries, p),
        r matches Err(e) ==> parse_name_status(name_status@) == Err::<Seq<NameStatusEntry>, KbErrorView>(e@),
{
    let entries = crate::repo::diff::parse_name_status_z(name_status)?;
    let ghost ev = crate::repo::diff::entries_view(entries@);
    let mut deleted: Vec<String> = Vec::new();
    let mut i: usize = 0;
    while i < entries.len()
        invariant
            i <= entries@.len(),
            ev == crate::repo::diff::entries_view(entries@),
            forall|p: Chars| #[trigger] views(deleted@).contains(p) <==> exists|k: int| 0 <= k < i && removes_at(ev, k, p),
        decreases entries@.len() - i,
    {
        let status = &entries[i].0;
        let paths = &entries[i].1;
        let sv = crate::text::chars_of(status.as_str());
        let ghost prev = views(deleted@);
        if sv.len() > 0 && (sv[0] == 'D' || sv[0] == 'R') && paths.len() > 0 {
            deleted.push(paths[0].clone());
            assert(views(deleted@) =~= prev.push(paths@[0]@));
            assert forall|p: Chars| #[trigger] views(deleted@).contains(p) <==> exists|k: int| 0 <= k < i + 1 && removes_at(ev, k, p) by {
                if views(deleted@).contains(p) {
                    if p != paths@[0]@ {
                        let j = choose|j: int| 0 <= j < views(deleted@).len() && views(deleted@)[j] == p;
                        assert(prev[j] == p);
                        assert(prev.contains(p));
                    } else {
                        assert(removes_at(ev, i as int, p));
                    }
                }
                if exists|k: int| 0 <= k < i + 1 && removes_at(ev, k, p) {
                    let k = choose|k: int| 0 <= k < i + 1 && removes_at(ev, k, p);
                    if k < i {
                        assert(prev.contains(p));
                        let j = choose|j: int| 0 <= j < prev.len() && prev[j] == p;
                        assert(views(deleted@)[j] == p);
                    } else {
                        assert(views(deleted@)[prev.len() as int] == p);
                    }
                }
            }
        } else {
            assert forall|p: Chars| #[trigger] views(deleted@).contains(p) <==> exists|k: int| 0 <= k < i + 1 && removes_at(ev, k, p) by {
                if exists|k: int| 0 <= k < i + 1 && removes_at(ev, k, p) {
                    let k = choose|k: int| 0 <= k < i + 1 && removes_at(ev, k, p);
                    if k == i {
                        assert(ev[k].0 == sv@);
                        assert(ev[k].1.len() == paths@.len());
                    }
                }
            }
        }
        i += 1;
    }
    let sorted = sort_dedup(deleted);
    proof {
        assert forall|p: Chars| #[trigger] views(sorted@).contains(p) <==> removed_by(ev, p) by {
            if removed_by(ev, p) {
                let k = choose|k: int| removes_at(ev, k, p);
                assert(0 <= k < entries@.len());
            }
        }
    }
    Ok(sorted)
}

/// Strings strictly increase along `v`.
pub open spec fn strictly_sorted_views(v: Seq<String>) -> bool {
    crate::order::strictly_sorted(views(v))
}

/// A path that the index keeps: listed, outside the excluded directories, and
/// not removed by the worktree diff (when there is one).
pub open spec fn kept_path(listing: Seq<u8>, removed: Option<Seq<NameStatusEntry>>, p: Chars) -> bool {
    &&& listed_paths(listing).contains(p)
    &&& !is_excluded(p)
    &&& match removed {
        Some(entries) => !removed_by(entries, p),
        None => true,
    }
}

/// The git command that lists the files of a diff source: `ls-tree` of the
/// commit, else `ls-files`.
pub fn listing_git_args(diff_source: &DiffSource) -> (args: Vec<String>)
    ensures
        diff_source matches DiffSource::Commit(sha) ==> views(args@) == seq!["ls-tree"@, "-r"@, "--name-only"@, "-z"@, sha@],
        !(diff_source is Commit) ==> views(args@) == seq!["ls-files"@, "-z"@],
{
    let mut args: Vec<String> = Vec::new();
    match diff_source {
        DiffSource::Commit(sha) => {
            args.push(crate::text::copy_str("ls-tree"));
            args.push(crate::text::copy_str("-r"));
            args.push(crate::text::copy_str("--name-only"));
            args.push(crate::text::copy_str("-z"));
            args.push(sha.clone());
        },
        _ => {
            args.push(crate::text::copy_str("ls-files"));
            args.push(crate::text::copy_str("-z"));
        },
    }
    assert(views(args@) =~= views(args@));
    args
}

/// The bytes of an optional slice.
pub open spec fn opt_bytes(b: Option<&[u8]>) -> Option<Seq<u8>> {
    match b {
        Some(x) => Some(x@),
        None => None,
    }
}

/// The entries of the worktree diff, when there is one and it parses.
pub open spec fn removed_entries(diff: Option<Seq<u8>>) -> Option<Seq<NameStatusEntry>> {
    match diff {
        Some(b) => match parse_name_status(b) {
            Ok(entries) => Some(entries),
            Err(_) => None,
        },
        None => None,
    }
}

/// There is no worktree diff, or it parses.
pub open spec fn diff_parses(diff: Option<Seq<u8>>) -> bool {
    match diff {
        Some(b) => parse_name_status(b) is Ok,
        None => true,
    }
}

/// The error of a worktree diff that does not parse.
pub open spec fn diff_error(diff: Option<Seq<u8>>) -> KbErrorView {
    match diff {
        Some(b) => match parse_name_status(b) {
            Err(e) => e,
            Ok(_) => arbitrary(),
        },
        None => arbitrary(),
    }
}

/// The tracked files of a diff source, from the NUL-terminated `listing` and,
/// for the worktree, the `git diff --name-status -z --find-renames` output:
/// sorted, once each, without excluded and removed paths.
pub fn list_tracked_file_paths(listing: &[u8], worktree_diff: Option<&[u8]>) -> (r: Result<Vec<String>, KbError>)
    ensures
        r is Ok <==> (vstd::utf8::valid_utf8(listing@) && diff_parses(opt_bytes(worktree_diff))),
        r matches Err(e) ==> (if !vstd::utf8::valid_utf8(listing@) {
            e@ == not_utf8_error(listing@)
        } else {
            e@ == diff_error(opt_bytes(worktree_diff))
        }),
        r matches Ok(v) ==> crate::order::strictly_sorted(views(v@)),
        r matches Ok(v) ==> forall|p: Chars| #[trigger] views(v@).contains(p)
            <==> kept_path(listing@, removed_entries(opt_bytes(worktree_diff)), p),
{
    let paths = split_nul_terminated_paths(listing)?;
    let deleted: Option<Vec<String>> = match worktree_diff {
        Some(b) => Some(deleted_paths_in_worktree(b)?),
        None => None,
    };
    let ghost removed: Option<Seq<NameStatusEntry>> = removed_entries(opt_bytes(worktree_diff));
    let ghost listed = views(paths@);
    let mut kept: Vec<String> = Vec::new();
    let mut i: usize = 0;
    while i < paths.len()
        invariant
            i <= paths@.len(),
            listed == views(paths@),
            listed == listed_paths(listing@),
            deleted is Some <==> removed is Some,
            deleted matches Some(d) ==> forall|p: Chars| #[trigger] views(d@).contains(p) <==> removed_by(removed.unwrap(), p),
            forall|p: Chars| #[trigger] views(kept@).contains(p) <==> (listed.take(i as int).contains(p) && kept_path(listing@, removed, p)),
        decreases paths@.len() - i,
    {
        let p = &paths[i];
        let keep = !is_excluded_path(p.as_str()) && match &deleted {
            Some(d) => !contains_str(d, p.as_str()),
            None => true,
        };
        let ghost prev = views(kept@);
        proof {
            assert(listed[i as int] == p@);
            assert(listed.contains(p@));
            if deleted is Some {
                assert(views(deleted.unwrap()@).contains(p@) <==> removed_by(removed.unwrap(), p@));
            }
            assert(keep == kept_path(listing@, removed, p@));
        }
        if keep {
            kept.push(p.clone());
            assert(views(kept@) =~= prev.push(p@));
        }
        assert forall|q: Chars| #[trigger] views(kept@).contains(q) <==> (listed.take(i + 1).contains(q) && kept_path(listing@, removed, q)) by {
            assert(listed[i as int] == p@);
            assert(listed.take(i + 1) =~= listed.take(i as int) + seq![p@]);
            crate::text::lemma_contains_concat(listed.take(i as int), seq![p@], q);
            if keep {
                crate::text::lemma_contains_concat(prev, seq![p@], q);
                assert(views(kept@) =~= prev + seq![p@]);
            }
            assert(listed.contains(p@)) by {
                assert(listed[i as int] == p@);
            }
        }
        i += 1;
    }
    assert(listed.take(paths@.len() as int) =~= listed);
    let sorted = sort_dedup(kept);
    proof {
        assert forall|p: Chars| #[trigger] views(sorted@).contains(p) <==> kept_path(listing@, removed, p) by {
            if kept_path(listing@, removed, p) {
                assert(listed.contains(p));
            }
        }
    }
    Ok(sorted)
}

} // verus!
