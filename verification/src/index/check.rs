//! Whether the generated index is up to date: regenerate it aside and
//! compare, file by file.
use vstd::prelude::*;

use crate::error::{ErrorCode, KbError, KbErrorView};
use crate::order::{sorted_key_set_of, views};
use crate::repo::path::{parse_repo_path, RepoPath};
use crate::text::{copy_str, Chars};

verus! {

/// How much of the index a regeneration rewrites.
#[derive(Clone, Copy, Debug, PartialEq, Eq, Structural)]
pub enum IndexScope {
    All,
    Changed,
}

/// The generated files, under `kb/gen/`, in the order they are compared.
pub open spec fn gen_files() -> Seq<Chars> {
    seq!["kb_meta.json"@, "tree.jsonl"@, "symbols.jsonl"@, "deps.jsonl"@]
}

/// The generated files, under `kb/gen/`, in the order they are compared.
pub fn gen_file_names() -> (v: Vec<String>)
    ensures
        views(v@) == gen_files(),
{
    let mut v: Vec<String> = Vec::new();
    v.push(copy_str("kb_meta.json"));
    v.push(copy_str("tree.jsonl"));
    v.push(copy_str("symbols.jsonl"));
    v.push(copy_str("deps.jsonl"));
    assert(views(v@) =~= gen_files());
    v
}

/// One comparison: the bytes regenerated and those committed (none when
/// they cannot be read), or the error reading the regenerated file.
pub open spec fn comparison_view(c: Result<(Vec<u8>, Option<Vec<u8>>), KbError>) -> Result<(Seq<u8>, Option<Seq<u8>>), KbErrorView> {
    match c {
        Err(e) => Err(e@),
        Ok((t, x)) => Ok(
            (
                t@,
                match x {
                    Some(b) => Some(b@),
                    None => None,
                },
            ),
        ),
    }
}

/// The generated files that differ, in order: the first error (reading a
/// regenerated file; a path that is not a repository path); else the paths
/// `kb/gen/<file>` whose committed bytes are missing or differ.
pub open spec fn stale_paths(cmp: Seq<Result<(Seq<u8>, Option<Seq<u8>>), KbErrorView>>, files: Seq<Chars>) -> Result<Seq<Chars>, KbErrorView>
    decreases files.len(),
{
    if files.len() == 0 {
        Ok(Seq::empty())
    } else {
        match stale_paths(cmp, files.drop_last()) {
            Err(e) => Err(e),
            Ok(d) => match cmp[files.len() - 1] {
                Err(e) => Err(e),
                Ok((tmp, expected)) => {
                    let rel = "kb/gen/"@ + files.last();
                    match parse_repo_path(rel) {
                        Err(e) => Err(e),
                        Ok(_) => if expected matches Some(b) && b == tmp { Ok(d) } else { Ok(d.push(rel)) },
                    }
                },
            },
        }
    }
}

proof fn lemma_stale_error_stays(cmp: Seq<Result<(Seq<u8>, Option<Seq<u8>>), KbErrorView>>, files: Seq<Chars>, n: int, e: KbErrorView)
    requires
        0 <= n <= files.len(),
        stale_paths(cmp, files.take(n)) == Err::<Seq<Chars>, KbErrorView>(e),
    ensures
        stale_paths(cmp, files) == Err::<Seq<Chars>, KbErrorView>(e),
    decreases files.len() - n,
{
    if n < files.len() {
        assert(files.take(n + 1).drop_last() =~= files.take(n));
        lemma_stale_error_stays(cmp, files, n + 1, e);
    } else {
        assert(files.take(n) =~= files);
    }
}

fn bytes_eq(a: &[u8], b: &[u8]) -> (r: bool)
    ensures
        r == (a@ == b@),
{
    if a.len() != b.len() {
        return false;
    }
    let mut i: usize = 0;
    while i < a.len()
        invariant
            i <= a@.len(),
            a@.len() == b@.len(),
            forall|k: int| 0 <= k < i ==> a@[k] == b@[k],
        decreases a@.len() - i,
    {
        if a[i] != b[i] {
            return false;
        }
        i += 1;
    }
    assert(a@ =~= b@);
    true
}

/// The details of a staleness error: one `diff` per stale path.
pub open spec fn diff_details(d: Seq<Chars>) -> Seq<Seq<Chars>> {
    d.map_values(|p: Chars| seq!["diff"@, p])
}

/// Compares regenerated files with the committed ones (`comparisons[i]` for
/// the i-th of `gen_file_names`): the first error; else success when none
/// differs, or an invalid-argument error listing the stale paths as `diff`
/// details.
pub fn check_gen_comparisons(comparisons: &Vec<Result<(Vec<u8>, Option<Vec<u8>>), KbError>>) -> (r: Result<(), KbError>)
    requires
        comparisons@.len() == 4,
    ensures
        match stale_paths(comparisons@.map_values(|c: Result<(Vec<u8>, Option<Vec<u8>>), KbError>| comparison_view(c)), gen_files()) {
            Err(e) => r matches Err(e2) && e2@ == e,
            Ok(d) => if d.len() == 0 {
                r is Ok
            } else {
                r matches Err(e) && e@.code == ErrorCode::InvalidArgument && e@.message == "kb/gen artifacts are stale"@
                    && sorted_key_set_of(e@.details, diff_details(d))
            },
        },
{
    let ghost cv = comparisons@.map_values(|c: Result<(Vec<u8>, Option<Vec<u8>>), KbError>| comparison_view(c));
    let files = gen_file_names();
    let ghost fv = views(files@);
    let mut diffs: Vec<String> = Vec::new();
    let mut i: usize = 0;
    assert(fv.take(0) =~= Seq::<Chars>::empty());
    assert(views(diffs@) =~= Seq::<Chars>::empty());
    while i < 4
        invariant
            i <= 4,
            files@.len() == 4,
            comparisons@.len() == 4,
            fv == views(files@),
            fv == gen_files(),
            cv == comparisons@.map_values(|c: Result<(Vec<u8>, Option<Vec<u8>>), KbError>| comparison_view(c)),
            stale_paths(cv, fv.take(i as int)) == Ok::<Seq<Chars>, KbErrorView>(views(diffs@)),
        decreases 4 - i,
    {
        assert(fv.take(i + 1).drop_last() =~= fv.take(i as int));
        assert(fv.take(i + 1).last() == files@[i as int]@);
        assert(cv[i as int] == comparison_view(comparisons@[i as int]));
        match &comparisons[i] {
            Err(e) => {
                let e2 = e.duplicate();
                proof {
                    lemma_stale_error_stays(cv, fv, i + 1, e2@);
                }
                return Err(e2);
            },
            Ok((tmp, expected)) => {
                let rel = crate::text::concat2("kb/gen/", files[i].as_str());
                match RepoPath::parse(rel.as_str()) {
                    Err(e) => {
                        proof {
                            lemma_stale_error_stays(cv, fv, i + 1, e@);
                        }
                        return Err(e);
                    },
                    Ok(_) => {},
                }
                let same = match expected {
                    Some(b) => bytes_eq(b.as_slice(), tmp.as_slice()),
                    None => false,
                };
                if !same {
                    let ghost prev = views(diffs@);
                    diffs.push(rel);
                    assert(views(diffs@) =~= prev.push("kb/gen/"@ + fv[i as int]));
                }
            },
        }
        i += 1;
    }
    assert(fv.take(4) =~= fv);
    if diffs.len() == 0 {
        return Ok(());
    }
    let mut err = KbError::invalid_argument("kb/gen artifacts are stale");
    let ghost dv = views(diffs@);
    let mut j: usize = 0;
    proof {
        crate::error::lemma_no_details_sorted();
        assert(diff_details(dv).take(0) =~= Seq::<Seq<Chars>>::empty());
        assert(err@.details =~= Seq::<Seq<Chars>>::empty());
    }
    while j < diffs.len()
        invariant
            j <= diffs@.len(),
            dv == views(diffs@),
            err@.code == ErrorCode::InvalidArgument,
            err@.message == "kb/gen artifacts are stale"@,
            sorted_key_set_of(err@.details, diff_details(dv).take(j as int)),
        decreases diffs@.len() - j,
    {
        let ghost before = err@.details;
        err = err.with_detail("diff", diffs[j].as_str());
        proof {
            crate::error::lemma_details_grow(err@.details, before, diff_details(dv).take(j as int), "diff"@, dv[j as int]);
            assert(diff_details(dv).take(j as int).push(seq!["diff"@, dv[j as int]]) =~= diff_details(dv).take(j + 1));
        }
        j += 1;
    }
    assert(diff_details(dv).take(diffs@.len() as int) =~= diff_details(dv));
    Err(err)
}

} // verus!

verus! {

/// A plain file name under `kb/gen/` is a repository path.
proof fn lemma_gen_path_parses(f: Chars)
    requires
        f.len() > 0,
        f[0] != '.',
        !crate::text::is_ws(f.last()),
        forall|k: int| 0 <= k < f.len() ==> {
            let c = #[trigger] f[k];
            c != '/' && c != '\\' && c != '\0' && c != '\n' && c != '\r'
        },
    ensures
        parse_repo_path("kb/gen/"@ + f) is Ok,
{
    reveal_strlit("kb/gen/");
    let t = "kb/gen/"@ + f;
    let parts = seq![seq!['k', 'b'], seq!['g', 'e', 'n'], f];
    assert(crate::text::join(parts, seq!['/']) =~= t) by {
        reveal_with_fuel(crate::text::join, 3);
        assert(parts.drop_last().drop_last() =~= seq![seq!['k', 'b']]);
        assert(parts.drop_last() =~= seq![seq!['k', 'b'], seq!['g', 'e', 'n']]);
    }
    assert(!crate::text::is_ws(t[0]));
    assert(t.last() == f.last());
    assert(crate::text::trim_start(t) == t);
    assert(crate::text::trim_end(t) == t);
    assert forall|k: int| 0 <= k < t.len() implies {
        let c = #[trigger] t[k];
        c != '\\' && c != '\0' && c != '\n' && c != '\r'
    } by {
        if k >= 7 {
            assert(t[k] == f[k - 7]);
        }
    }
    assert(!t.contains('\0') && !t.contains('\n') && !t.contains('\r'));
    assert(crate::text::replace_char(t, '\\', '/') =~= t);
    assert forall|i: int| 0 <= i < parts.len() implies !(#[trigger] parts[i]).contains('/') by {
        if i == 2 {
            if f.contains('/') {
                let k = choose|k: int| 0 <= k < f.len() && f[k] == '/';
                assert(f[k] == '/');
            }
        }
    }
    crate::text::lemma_split_join(parts, '/');
    assert(crate::repo::path::raw_segments(t) == parts);
    assert(parts[0] != crate::repo::path::dot_dot());
    assert(parts[1] != crate::repo::path::dot_dot());
    assert(parts[2] != crate::repo::path::dot_dot());
    assert(!parts.contains(crate::repo::path::dot_dot()));
}

/// Every generated file name under `kb/gen/` is a repository path.
proof fn lemma_gen_files_parse()
    ensures
        forall|i: int| 0 <= i < gen_files().len() ==> parse_repo_path(#[trigger] ("kb/gen/"@ + gen_files()[i])) is Ok,
{
    reveal_strlit("kb_meta.json");
    reveal_strlit("tree.jsonl");
    reveal_strlit("symbols.jsonl");
    reveal_strlit("deps.jsonl");
    lemma_gen_path_parses("kb_meta.json"@);
    lemma_gen_path_parses("tree.jsonl"@);
    lemma_gen_path_parses("symbols.jsonl"@);
    lemma_gen_path_parses("deps.jsonl"@);
}

} // verus!

verus! {

/// A committed `kb/gen/` whose files all equal the regenerated ones is not
/// stale: `check_gen_comparisons` succeeds right after a regeneration.
pub proof fn law_fresh_index_passes_check(pairs: Seq<Result<(Seq<u8>, Option<Seq<u8>>), KbErrorView>>)
    requires
        pairs.len() == gen_files().len(),
        forall|i: int| 0 <= i < pairs.len() ==> (#[trigger] pairs[i] matches Ok((t, Some(b))) && b == t),
    ensures
        stale_paths(pairs, gen_files()) == Ok::<Seq<Chars>, KbErrorView>(Seq::empty()),
{
    lemma_gen_files_parse();
    lemma_fresh_prefix(pairs, gen_files(), 4);
    assert(gen_files().take(4) =~= gen_files());
}

proof fn lemma_fresh_prefix(pairs: Seq<Result<(Seq<u8>, Option<Seq<u8>>), KbErrorView>>, files: Seq<Chars>, n: int)
    requires
        0 <= n <= files.len(),
        files.len() <= pairs.len(),
        forall|i: int| 0 <= i < pairs.len() ==> (#[trigger] pairs[i] matches Ok((t, Some(b))) && b == t),
        forall|i: int| 0 <= i < files.len() ==> parse_repo_path(#[trigger] ("kb/gen/"@ + files[i])) is Ok,
    ensures
        stale_paths(pairs, files.take(n)) == Ok::<Seq<Chars>, KbErrorView>(Seq::empty()),
    decreases n,
{
    if n > 0 {
        lemma_fresh_prefix(pairs, files, n - 1);
        let fs = files.take(n);
        assert(fs.drop_last() =~= files.take(n - 1));
        assert(fs.last() == files[n - 1]);
        assert(parse_repo_path("kb/gen/"@ + files[n - 1]) is Ok);
        assert(pairs[n - 1] matches Ok((t, Some(b))) && b == t);
    }
}

} // verus!

verus! {

/// A generated file whose committed bytes differ from the regenerated ones,
/// or are missing, is listed as stale (when every file could be
/// regenerated): `check_gen_comparisons` then fails with its `diff` detail.
pub proof fn law_changed_file_is_stale(pairs: Seq<Result<(Seq<u8>, Option<Seq<u8>>), KbErrorView>>, i: int)
    requires
        pairs.len() == gen_files().len(),
        forall|k: int| 0 <= k < pairs.len() ==> #[trigger] pairs[k] is Ok,
        0 <= i < pairs.len(),
        !(pairs[i] matches Ok((t, Some(b))) && b == t),
    ensures
        stale_paths(pairs, gen_files()) matches Ok(d) && d.contains("kb/gen/"@ + gen_files()[i]),
{
    lemma_gen_files_parse();
    lemma_stale_prefix(pairs, gen_files(), 4, i);
    assert(gen_files().take(4) =~= gen_files());
}

proof fn lemma_stale_prefix(pairs: Seq<Result<(Seq<u8>, Option<Seq<u8>>), KbErrorView>>, files: Seq<Chars>, n: int, i: int)
    requires
        0 <= n <= files.len(),
        files.len() <= pairs.len(),
        forall|k: int| 0 <= k < pairs.len() ==> #[trigger] pairs[k] is Ok,
        forall|k: int| 0 <= k < files.len() ==> parse_repo_path(#[trigger] ("kb/gen/"@ + files[k])) is Ok,
    ensures
        stale_paths(pairs, files.take(n)) is Ok,
        0 <= i < n && !(pairs[i] matches Ok((t, Some(b))) && b == t) ==> stale_paths(pairs, files.take(n))->Ok_0.contains(
            "kb/gen/"@ + files[i],
        ),
    decreases n,
{
    if n > 0 {
        lemma_stale_prefix(pairs, files, n - 1, i);
        let fs = files.take(n);
        assert(fs.drop_last() =~= files.take(n - 1));
        assert(fs.last() == files[n - 1]);
        assert(parse_repo_path("kb/gen/"@ + files[n - 1]) is Ok);
        assert(pairs[n - 1] is Ok);
        let d = stale_paths(pairs, files.take(n - 1))->Ok_0;
        let d2 = stale_paths(pairs, fs)->Ok_0;
        if 0 <= i < n - 1 && !(pairs[i] matches Ok((t, Some(b))) && b == t) {
            let k = choose|k: int| 0 <= k < d.len() && d[k] == "kb/gen/"@ + files[i];
            assert(d2[k] == d[k]);
        }
        if i == n - 1 && !(pairs[i] matches Ok((t, Some(b))) && b == t) {
            assert(d2[d2.len() - 1] == "kb/gen/"@ + files[i]);
        }
    }
}

} // verus!
