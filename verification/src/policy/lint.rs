//! Repository lint: the configs, the generated index and the overlays must
//! parse and follow the knowledge base's rules.
use vstd::prelude::*;

use crate::error::{invalid, invalid_with, invalid_with2, lemma_keys_ordered, KbError, KbErrorView};
use crate::index::artifacts::{dep_views, symbol_views, tree_views, DepEdge, DepEdgeView, SymbolRecord, SymbolRecordView, TreeRecord, TreeRecordView};
use crate::order::{chars_lt, key_lt, views, SortKey};
use crate::overlay::check_view;
use crate::text::{chars_of, ends_with, find_first, starts_with, Chars};

verus! {

// ---------------------------------------------------------------------------
// Paths in generated records
// ---------------------------------------------------------------------------

/// `needle` occurs in `s`.
pub open spec fn has_sub(s: Chars, needle: Chars) -> bool {
    find_first(s, needle) is Some
}

/// Checking a path of a generated record, of kind `dir` or `file`: not
/// absolute, `/` separators, no `..` segment, and a file path not ending in `/`.
pub open spec fn repo_path_check(path: Chars, kind: Chars) -> Result<(), KbErrorView> {
    if starts_with(path, seq!['/']) {
        Err(invalid_with("absolute paths are not allowed"@, "path"@, path))
    } else if path.contains('\\') {
        Err(invalid_with("paths must use '/' separators"@, "path"@, path))
    } else if has_sub(path, "/../"@) || starts_with(path, "../"@) || path == ".."@ {
        Err(invalid_with("path must not contain '..'"@, "path"@, path))
    } else if kind == "file"@ && ends_with(path, seq!['/']) {
        Err(invalid_with("file path must not end with '/'"@, "path"@, path))
    } else {
        Ok(())
    }
}

fn first_is(v: &[char], c: char) -> (b: bool)
    ensures
        b == starts_with(v@, seq![c]),
{
    let b = v.len() > 0 && v[0] == c;
    proof {
        if v@.len() > 0 {
            assert(v@.subrange(0, 1) =~= seq![v@[0]]);
            if starts_with(v@, seq![c]) {
                assert(v@.subrange(0, 1)[0] == c);
            }
        }
    }
    b
}

fn last_is(v: &[char], c: char) -> (b: bool)
    ensures
        b == ends_with(v@, seq![c]),
{
    let b = v.len() > 0 && v[v.len() - 1] == c;
    proof {
        if v@.len() > 0 {
            assert(v@.subrange(v@.len() - 1, v@.len() as int) =~= seq![v@.last()]);
            if ends_with(v@, seq![c]) {
                assert(v@.subrange(v@.len() - 1, v@.len() as int)[0] == c);
            }
        }
    }
    b
}

/// Checks a path of a generated record (see `repo_path_check`).
pub fn validate_repo_path(path: &str, kind: &str) -> (r: Result<(), KbError>)
    ensures
        check_view(r) == repo_path_check(path@, kind@),
{
    let v = chars_of(path);
    if first_is(v.as_slice(), '/') {
        return Err(KbError::invalid_with_detail("absolute paths are not allowed", "path", path));
    }
    if crate::text::contains_char(v.as_slice(), '\\') {
        return Err(KbError::invalid_with_detail("paths must use '/' separators", "path", path));
    }
    let dd = chars_of("/../");
    let lead = chars_of("../");
    if crate::text::find_first_exec(v.as_slice(), dd.as_slice()).is_some() || crate::text::starts_with_chars(
        v.as_slice(),
        lead.as_slice(),
    ) || crate::text::str_eq(path, "..") {
        return Err(KbError::invalid_with_detail("path must not contain '..'", "path", path));
    }
    if crate::text::str_eq(kind, "file") && last_is(v.as_slice(), '/') {
        return Err(KbError::invalid_with_detail("file path must not end with '/'", "path", path));
    }
    Ok(())
}

// ---------------------------------------------------------------------------
// Tree records
// ---------------------------------------------------------------------------

/// No element is smaller than one before it.
pub open spec fn nondecreasing(t: Seq<Chars>) -> bool {
    forall|i: int, j: int| 0 <= i < j < t.len() ==> !chars_lt(#[trigger] t[j], #[trigger] t[i])
}

proof fn lemma_not_lt_trans(a: Chars, b: Chars, c: Chars)
    requires
        !chars_lt(b, a),
        !chars_lt(c, b),
    ensures
        !chars_lt(c, a),
{
    crate::order::lemma_chars_lt_total(a, b);
    crate::order::lemma_chars_lt_total(b, c);
    if chars_lt(c, a) {
        if a == b {
            assert(chars_lt(c, b));
        } else if b == c {
            assert(chars_lt(b, a));
        } else {
            crate::order::lemma_chars_lt_trans(a, b, c);
            crate::order::lemma_chars_lt_asym(a, c);
        }
    }
}

fn is_nondecreasing(t: &Vec<String>) -> (b: bool)
    ensures
        b == nondecreasing(views(t@)),
{
    let ghost tv = views(t@);
    if t.len() == 0 {
        return true;
    }
    let mut i: usize = 1;
    while i < t.len()
        invariant
            1 <= i <= t@.len(),
            tv == views(t@),
            nondecreasing(tv.take(i as int)),
        decreases t@.len() - i,
    {
        let a = chars_of(t[i - 1].as_str());
        let b = chars_of(t[i].as_str());
        if crate::order::compare_chars(a.as_slice(), b.as_slice()) > 0 {
            assert(chars_lt(tv[i as int], tv[i - 1]));
            return false;
        }
        proof {
            let s = tv.take(i + 1);
            assert forall|x: int, y: int| 0 <= x < y < s.len() implies !chars_lt(#[trigger] s[y], #[trigger] s[x]) by {
                if y < i {
                    assert(tv.take(i as int)[x] == s[x]);
                    assert(tv.take(i as int)[y] == s[y]);
                } else if x < i - 1 {
                    assert(tv.take(i as int)[x] == s[x]);
                    assert(tv.take(i as int)[i - 1] == tv[i - 1]);
                    lemma_not_lt_trans(s[x], tv[i - 1], s[y]);
                }
            }
        }
        i += 1;
    }
    assert(tv.take(t@.len() as int) =~= tv);
    true
}

/// Checking one tree record: its path; a directory path ends in `/`; a file
/// path does not, a file has its byte count, line count and language, and
/// its top symbols (when given) are sorted; no other kind.
pub open spec fn tree_record_check(r: TreeRecordView) -> Result<(), KbErrorView> {
    match repo_path_check(r.path, r.kind) {
        Err(e) => Err(e),
        Ok(_) => if r.kind == "dir"@ {
            if !ends_with(r.path, seq!['/']) {
                Err(invalid_with("dir path must end with '/'"@, "path"@, r.path))
            } else {
                Ok(())
            }
        } else if r.kind == "file"@ {
            if ends_with(r.path, seq!['/']) {
                Err(invalid_with("file path must not end with '/'"@, "path"@, r.path))
            } else if r.bytes is None || r.lines is None || r.lang is None {
                Err(invalid_with("file record missing required fields"@, "path"@, r.path))
            } else if r.top_symbols matches Some(t) && !nondecreasing(t) {
                Err(invalid_with("top_symbols must be sorted"@, "path"@, r.path))
            } else {
                Ok(())
            }
        } else {
            Err(invalid_with("tree kind must be 'dir' or 'file'"@, "kind"@, r.kind))
        },
    }
}

fn validate_tree_record(r: &TreeRecord) -> (out: Result<(), KbError>)
    ensures
        check_view(out) == tree_record_check(r@),
{
    validate_repo_path(r.path.as_str(), r.kind.as_str())?;
    let p = chars_of(r.path.as_str());
    if crate::text::str_eq(r.kind.as_str(), "dir") {
        if !last_is(p.as_slice(), '/') {
            return Err(KbError::invalid_with_detail("dir path must end with '/'", "path", r.path.as_str()));
        }
        Ok(())
    } else if crate::text::str_eq(r.kind.as_str(), "file") {
        if last_is(p.as_slice(), '/') {
            return Err(KbError::invalid_with_detail("file path must not end with '/'", "path", r.path.as_str()));
        }
        if r.bytes.is_none() || r.lines.is_none() || r.lang.is_none() {
            return Err(KbError::invalid_with_detail("file record missing required fields", "path", r.path.as_str()));
        }
        match &r.top_symbols {
            Some(t) => {
                if !is_nondecreasing(t) {
                    return Err(KbError::invalid_with_detail("top_symbols must be sorted", "path", r.path.as_str()));
                }
            },
            None => {},
        }
        Ok(())
    } else {
        Err(KbError::invalid_with_detail("tree kind must be 'dir' or 'file'", "kind", r.kind.as_str()))
    }
}

/// Checking the tree records in order: each record, then that its path is
/// not smaller than the one before.
pub open spec fn tree_records_check(rs: Seq<TreeRecordView>) -> Result<(), KbErrorView>
    decreases rs.len(),
{
    if rs.len() == 0 {
        Ok(())
    } else {
        match tree_records_check(rs.drop_last()) {
            Err(e) => Err(e),
            Ok(_) => match tree_record_check(rs.last()) {
                Err(e) => Err(e),
                Ok(_) => if rs.len() >= 2 && chars_lt(rs.last().path, rs[rs.len() - 2].path) {
                    Err(invalid("tree.jsonl is not sorted"@))
                } else {
                    Ok(())
                },
            },
        }
    }
}

/// One tree record's path comes before another's.
pub open spec fn tree_path_lt(a: TreeRecordView, b: TreeRecordView) -> bool {
    chars_lt(a.path, b.path)
}

/// Tree records pass lint exactly when each record passes on its own and
/// their paths never go down: no path is smaller than the one before it.
pub proof fn law_tree_passes_iff_valid_and_sorted(rs: Seq<TreeRecordView>)
    ensures
        tree_records_check(rs) is Ok <==> (forall|i: int| 0 <= i < rs.len() ==> (#[trigger] tree_record_check(rs[i])) is Ok)
            && (forall|i: int| 0 <= i < rs.len() - 1 ==> !tree_path_lt(rs[i + 1], #[trigger] rs[i])),
    decreases rs.len(),
{
    if rs.len() > 0 {
        let p = rs.drop_last();
        law_tree_passes_iff_valid_and_sorted(p);
        assert forall|i: int| 0 <= i < p.len() implies p[i] == rs[i] by {}
        let all_valid = forall|i: int| 0 <= i < rs.len() ==> (#[trigger] tree_record_check(rs[i])) is Ok;
        let all_sorted = forall|i: int| 0 <= i < rs.len() - 1 ==> !tree_path_lt(rs[i + 1], #[trigger] rs[i]);
        if tree_records_check(rs) is Ok {
            assert(tree_records_check(p) is Ok);
            assert(tree_record_check(rs.last()) is Ok);
            assert forall|i: int| 0 <= i < rs.len() implies (#[trigger] tree_record_check(rs[i])) is Ok by {
                if i < rs.len() - 1 {
                    assert(tree_record_check(p[i]) is Ok);
                }
            }
            assert forall|i: int| 0 <= i < rs.len() - 1 implies !tree_path_lt(rs[i + 1], #[trigger] rs[i]) by {
                if i < rs.len() - 2 {
                    assert(!tree_path_lt(p[i + 1], p[i]));
                } else {
                    assert(rs.last() == rs[i + 1]);
                }
            }
        }
        if all_valid && all_sorted {
            assert forall|i: int| 0 <= i < p.len() implies (#[trigger] tree_record_check(p[i])) is Ok by {
                assert(tree_record_check(rs[i]) is Ok);
            }
            assert forall|i: int| 0 <= i < p.len() - 1 implies !tree_path_lt(p[i + 1], #[trigger] p[i]) by {
                assert(!tree_path_lt(rs[i + 1], rs[i]));
            }
            assert(tree_records_check(p) is Ok);
            assert(tree_record_check(rs[rs.len() - 1]) is Ok);
            if rs.len() >= 2 {
                assert(!tree_path_lt(rs[rs.len() - 1], rs[rs.len() - 2]));
            }
        }
    }
}

proof fn lemma_tree_error_stays(rs: Seq<TreeRecordView>, n: int, e: KbErrorView)
    requires
        0 <= n <= rs.len(),
        tree_records_check(rs.take(n)) == Err::<(), KbErrorView>(e),
    ensures
        tree_records_check(rs) == Err::<(), KbErrorView>(e),
    decreases rs.len() - n,
{
    if n < rs.len() {
        assert(rs.take(n + 1).drop_last() =~= rs.take(n));
        lemma_tree_error_stays(rs, n + 1, e);
    } else {
        assert(rs.take(n) =~= rs);
    }
}

/// Checks the tree records (see `tree_records_check`).
pub fn validate_tree_records(records: &Vec<TreeRecord>) -> (r: Result<(), KbError>)
    ensures
        check_view(r) == tree_records_check(tree_views(records@)),
{
    let ghost rv = tree_views(records@);
    let mut i: usize = 0;
    assert(rv.take(0) =~= Seq::<TreeRecordView>::empty());
    while i < records.len()
        invariant
            i <= records@.len(),
            rv == tree_views(records@),
            tree_records_check(rv.take(i as int)) == Ok::<(), KbErrorView>(()),
        decreases records@.len() - i,
    {
        assert(rv.take(i + 1).drop_last() =~= rv.take(i as int));
        assert(rv.take(i + 1).last() == records@[i as int]@);
        match validate_tree_record(&records[i]) {
            Err(e) => {
                proof {
                    lemma_tree_error_stays(rv, i + 1, e@);
                }
                return Err(e);
            },
            Ok(()) => {},
        }
        if i > 0 {
            let cur = chars_of(records[i].path.as_str());
            let prev = chars_of(records[i - 1].path.as_str());
            assert(rv.take(i + 1)[i - 1] == records@[i - 1]@);
            if crate::order::compare_chars(cur.as_slice(), prev.as_slice()) < 0 {
                let e = KbError::invalid_argument("tree.jsonl is not sorted");
                proof {
                    lemma_tree_error_stays(rv, i + 1, e@);
                }
                return Err(e);
            }
        }
        i += 1;
    }
    assert(rv.take(records@.len() as int) =~= rv);
    Ok(())
}

// ---------------------------------------------------------------------------
// Symbol records
// ---------------------------------------------------------------------------

pub open spec fn is_lower_hex(c: char) -> bool {
    crate::text::is_ascii_digit(c) || ('a' as u32 <= c as u32 && c as u32 <= 'f' as u32)
}

/// A symbol id as the index writes it: `sym:v1:` and the 64 lower-case hex
/// digits of a SHA-256 digest.
pub open spec fn valid_symbol_id(id: Chars) -> bool {
    &&& starts_with(id, "sym:v1:"@)
    &&& id.len() == 71
    &&& forall|i: int| 7 <= i < 71 ==> is_lower_hex(#[trigger] id[i])
}

/// Whether a symbol id has the form `sym:v1:` and 64 lower-case hex digits.
pub fn is_valid_symbol_id(symbol_id: &str) -> (b: bool)
    ensures
        b == valid_symbol_id(symbol_id@),
{
    let v = chars_of(symbol_id);
    let prefix = chars_of("sym:v1:");
    proof {
        reveal_strlit("sym:v1:");
    }
    if !crate::text::starts_with_chars(v.as_slice(), prefix.as_slice()) {
        return false;
    }
    if v.len() != 71 {
        return false;
    }
    let mut i: usize = 7;
    while i < 71
        invariant
            7 <= i <= 71,
            v@.len() == 71,
            v@ == symbol_id@,
            forall|k: int| 7 <= k < i ==> is_lower_hex(#[trigger] v@[k]),
        decreases 71 - i,
    {
        let c = v[i];
        if !(crate::text::digit_char(c) || ('a' as u32 <= c as u32 && c as u32 <= 'f' as u32)) {
            assert(!is_lower_hex(v@[i as int]));
            return false;
        }
        i += 1;
    }
    true
}

/// Checking one symbol record: its id, its path, a 1-based line, an end
/// line (when given) not before it.
pub open spec fn symbol_record_check(r: SymbolRecordView) -> Result<(), KbErrorView> {
    if !valid_symbol_id(r.symbol_id) {
        Err(invalid_with("invalid symbol_id"@, "symbol_id"@, r.symbol_id))
    } else {
        match repo_path_check(r.path, "file"@) {
            Err(e) => Err(e),
            Ok(_) => if r.line == 0 {
                Err(invalid_with("symbol line must be 1-based"@, "symbol_id"@, r.symbol_id))
            } else if r.end_line matches Some(e) && e < r.line {
                Err(invalid_with("end_line must be >= line"@, "symbol_id"@, r.symbol_id))
            } else {
                Ok(())
            },
        }
    }
}

fn validate_symbol_record(r: &SymbolRecord) -> (out: Result<(), KbError>)
    ensures
        check_view(out) == symbol_record_check(r@),
{
    if !is_valid_symbol_id(r.symbol_id.as_str()) {
        return Err(KbError::invalid_with_detail("invalid symbol_id", "symbol_id", r.symbol_id.as_str()));
    }
    validate_repo_path(r.path.as_str(), "file")?;
    if r.line == 0 {
        return Err(KbError::invalid_with_detail("symbol line must be 1-based", "symbol_id", r.symbol_id.as_str()));
    }
    match r.end_line {
        Some(e) => {
            if e < r.line {
                return Err(KbError::invalid_with_detail("end_line must be >= line", "symbol_id", r.symbol_id.as_str()));
            }
        },
        None => {},
    }
    Ok(())
}

/// Checking the symbol records in order: each record, then that its id is
/// not smaller than the one before.
pub open spec fn symbol_records_check(rs: Seq<SymbolRecordView>) -> Result<(), KbErrorView>
    decreases rs.len(),
{
    if rs.len() == 0 {
        Ok(())
    } else {
        match symbol_records_check(rs.drop_last()) {
            Err(e) => Err(e),
            Ok(_) => match symbol_record_check(rs.last()) {
                Err(e) => Err(e),
                Ok(_) => if rs.len() >= 2 && chars_lt(rs.last().symbol_id, rs[rs.len() - 2].symbol_id) {
                    Err(invalid("symbols.jsonl is not sorted"@))
                } else {
                    Ok(())
                },
            },
        }
    }
}

proof fn lemma_symbols_error_stays(rs: Seq<SymbolRecordView>, n: int, e: KbErrorView)
    requires
        0 <= n <= rs.len(),
        symbol_records_check(rs.take(n)) == Err::<(), KbErrorView>(e),
    ensures
        symbol_records_check(rs) == Err::<(), KbErrorView>(e),
    decreases rs.len() - n,
{
    if n < rs.len() {
        assert(rs.take(n + 1).drop_last() =~= rs.take(n));
        lemma_symbols_error_stays(rs, n + 1, e);
    } else {
        assert(rs.take(n) =~= rs);
    }
}

/// Symbol records pass lint exactly when each record passes on its own and
/// their ids never go down: no id is smaller than the one before it.
pub proof fn law_symbols_pass_iff_valid_and_sorted(rs: Seq<SymbolRecordView>)
    ensures
        symbol_records_check(rs) is Ok <==> (forall|i: int| 0 <= i < rs.len() ==> (#[trigger] symbol_record_check(rs[i])) is Ok)
            && (forall|i: int| 0 <= i < rs.len() - 1 ==> !chars_lt(rs[i + 1].symbol_id, #[trigger] rs[i].symbol_id)),
    decreases rs.len(),
{
    if rs.len() > 0 {
        let p = rs.drop_last();
        law_symbols_pass_iff_valid_and_sorted(p);
        assert forall|i: int| 0 <= i < p.len() implies p[i] == rs[i] by {}
        let all_valid = forall|i: int| 0 <= i < rs.len() ==> (#[trigger] symbol_record_check(rs[i])) is Ok;
        let all_sorted = forall|i: int| 0 <= i < rs.len() - 1 ==> !chars_lt(rs[i + 1].symbol_id, #[trigger] rs[i].symbol_id);
        if symbol_records_check(rs) is Ok {
            assert(symbol_records_check(p) is Ok);
            assert(symbol_record_check(rs.last()) is Ok);
            assert forall|i: int| 0 <= i < rs.len() implies (#[trigger] symbol_record_check(rs[i])) is Ok by {
                if i < rs.len() - 1 {
                    assert(symbol_record_check(p[i]) is Ok);
                }
            }
            assert forall|i: int| 0 <= i < rs.len() - 1 implies !chars_lt(rs[i + 1].symbol_id, #[trigger] rs[i].symbol_id) by {
                if i < rs.len() - 2 {
                    assert(!chars_lt(p[i + 1].symbol_id, p[i].symbol_id));
                } else {
                    assert(rs.last() == rs[i + 1]);
                }
            }
        }
        if all_valid && all_sorted {
            assert forall|i: int| 0 <= i < p.len() implies (#[trigger] symbol_record_check(p[i])) is Ok by {
                assert(symbol_record_check(rs[i]) is Ok);
            }
            assert forall|i: int| 0 <= i < p.len() - 1 implies !chars_lt(p[i + 1].symbol_id, #[trigger] p[i].symbol_id) by {
                assert(!chars_lt(rs[i + 1].symbol_id, rs[i].symbol_id));
            }
            assert(symbol_records_check(p) is Ok);
            assert(symbol_record_check(rs[rs.len() - 1]) is Ok);
            if rs.len() >= 2 {
                assert(!chars_lt(rs[rs.len() - 1].symbol_id, rs[rs.len() - 2].symbol_id));
            }
        }
    }
}

/// When every symbol record is valid on its own, the only way lint can
/// fail them is for being out of order.
proof fn lemma_valid_symbols_fail_only_unsorted(rs: Seq<SymbolRecordView>)
    requires
        forall|i: int| 0 <= i < rs.len() ==> (#[trigger] symbol_record_check(rs[i])) is Ok,
    ensures
        symbol_records_check(rs) is Ok || symbol_records_check(rs) == Err::<(), KbErrorView>(invalid("symbols.jsonl is not sorted"@)),
    decreases rs.len(),
{
    if rs.len() > 0 {
        let p = rs.drop_last();
        assert forall|i: int| 0 <= i < p.len() implies (#[trigger] symbol_record_check(p[i])) is Ok by {
            assert(p[i] == rs[i]);
        }
        lemma_valid_symbols_fail_only_unsorted(p);
        assert(symbol_record_check(rs[rs.len() - 1]) is Ok);
    }
}

/// Valid symbol records with an id smaller than the one before it fail lint
/// with `symbols.jsonl is not sorted`.
pub proof fn law_unsorted_symbols_rejected(rs: Seq<SymbolRecordView>, i: int)
    requires
        forall|j: int| 0 <= j < rs.len() ==> (#[trigger] symbol_record_check(rs[j])) is Ok,
        0 <= i < rs.len() - 1,
        chars_lt(rs[i + 1].symbol_id, rs[i].symbol_id),
    ensures
        symbol_records_check(rs) is Err,
        (symbol_records_check(rs)->Err_0).code == crate::error::ErrorCode::InvalidArgument,
        (symbol_records_check(rs)->Err_0).message == "symbols.jsonl is not sorted"@,
{
    law_symbols_pass_iff_valid_and_sorted(rs);
    lemma_valid_symbols_fail_only_unsorted(rs);
    reveal_strlit("symbols.jsonl is not sorted");
}

/// Checks the symbol records (see `symbol_records_check`).
pub fn validate_symbol_records(records: &Vec<SymbolRecord>) -> (r: Result<(), KbError>)
    ensures
        check_view(r) == symbol_records_check(symbol_views(records@)),
{
    let ghost rv = symbol_views(records@);
    let mut i: usize = 0;
    assert(rv.take(0) =~= Seq::<SymbolRecordView>::empty());
    while i < records.len()
        invariant
            i <= records@.len(),
            rv == symbol_views(records@),
            symbol_records_check(rv.take(i as int)) == Ok::<(), KbErrorView>(()),
        decreases records@.len() - i,
    {
        assert(rv.take(i + 1).drop_last() =~= rv.take(i as int));
        assert(rv.take(i + 1).last() == records@[i as int]@);
        match validate_symbol_record(&records[i]) {
            Err(e) => {
                proof {
                    lemma_symbols_error_stays(rv, i + 1, e@);
                }
                return Err(e);
            },
            Ok(()) => {},
        }
        if i > 0 {
            let cur = chars_of(records[i].symbol_id.as_str());
            let prev = chars_of(records[i - 1].symbol_id.as_str());
            assert(rv.take(i + 1)[i - 1] == records@[i - 1]@);
            if crate::order::compare_chars(cur.as_slice(), prev.as_slice()) < 0 {
                let e = KbError::invalid_argument("symbols.jsonl is not sorted");
                proof {
                    lemma_symbols_error_stays(rv, i + 1, e@);
                }
                return Err(e);
            }
        }
        i += 1;
    }
    assert(rv.take(records@.len() as int) =~= rv);
    Ok(())
}

} // verus!

verus! {

// ---------------------------------------------------------------------------
// Dependency edges
// ---------------------------------------------------------------------------

/// The kind of an edge made by a C preprocessor directive.
pub open spec fn preprocessor_kind() -> Chars {
    seq!['i', 'n', 'c', 'l', 'u', 'd', 'e']
}

/// The kinds an edge may have.
pub open spec fn known_dep_kind(k: Chars) -> bool {
    k == "import"@ || k == preprocessor_kind() || k == "require"@ || k == "dynamic"@ || k == "unknown"@
}

fn is_known_dep_kind(k: &str) -> (b: bool)
    ensures
        b == known_dep_kind(k@),
{
    let v = chars_of(k);
    let pre = ['i', 'n', 'c', 'l', 'u', 'd', 'e'];
    assert(pre@ =~= preprocessor_kind());
    crate::text::str_eq(k, "import") || crate::text::chars_eq(v.as_slice(), &pre) || crate::text::str_eq(k, "require")
        || crate::text::str_eq(k, "dynamic") || crate::text::str_eq(k, "unknown")
}

/// The order key of an edge as the lint reads it: source, kind, target.
pub open spec fn lint_edge_key(e: DepEdgeView) -> Seq<Chars> {
    seq![e.from_path, e.kind, crate::index::deps::edge_target(e)]
}

/// Checking one edge: its source path; exactly one target; a single-line
/// raw text; a known kind; a target path (when given) checked as a path.
pub open spec fn dep_edge_check(e: DepEdgeView) -> Result<(), KbErrorView> {
    match repo_path_check(e.from_path, "file"@) {
        Err(x) => Err(x),
        Ok(_) => if (e.to_path is Some) == (e.to_external is Some) {
            Err(invalid("deps edge must have exactly one of to_path/to_external"@))
        } else if e.raw matches Some(r) && (r.contains('\n') || r.contains('\r')) {
            Err(invalid("deps raw must be single-line"@))
        } else if !known_dep_kind(e.kind) {
            Err(invalid_with("invalid deps kind"@, "kind"@, e.kind))
        } else {
            match e.to_path {
                Some(p) => repo_path_check(p, "file"@),
                None => Ok(()),
            }
        },
    }
}

fn validate_dep_edge(e: &DepEdge) -> (out: Result<(), KbError>)
    ensures
        check_view(out) == dep_edge_check(e@),
{
    validate_repo_path(e.from_path.as_str(), "file")?;
    if e.to_path.is_some() == e.to_external.is_some() {
        return Err(KbError::invalid_argument("deps edge must have exactly one of to_path/to_external"));
    }
    match &e.raw {
        Some(r) => {
            let rv = chars_of(r.as_str());
            if crate::text::contains_char(rv.as_slice(), '\n') || crate::text::contains_char(rv.as_slice(), '\r') {
                return Err(KbError::invalid_argument("deps raw must be single-line"));
            }
        },
        None => {},
    }
    if !is_known_dep_kind(e.kind.as_str()) {
        return Err(KbError::invalid_with_detail("invalid deps kind", "kind", e.kind.as_str()));
    }
    match &e.to_path {
        Some(p) => validate_repo_path(p.as_str(), "file"),
        None => Ok(()),
    }
}

fn edge_key_exec(e: &DepEdge) -> (k: Vec<Vec<char>>)
    ensures
        crate::order::key_view(k) == lint_edge_key(e@),
{
    let mut k: Vec<Vec<char>> = Vec::new();
    k.push(chars_of(e.from_path.as_str()));
    k.push(chars_of(e.kind.as_str()));
    let to = match &e.to_path {
        Some(p) => chars_of(p.as_str()),
        None => match &e.to_external {
            Some(x) => chars_of(x.as_str()),
            None => Vec::new(),
        },
    };
    k.push(to);
    assert(crate::order::key_view(k) =~= lint_edge_key(e@));
    k
}

/// Checking the edges in order: each edge, then that its key is not
/// smaller than the one before.
pub open spec fn dep_edges_check(es: Seq<DepEdgeView>) -> Result<(), KbErrorView>
    decreases es.len(),
{
    if es.len() == 0 {
        Ok(())
    } else {
        match dep_edges_check(es.drop_last()) {
            Err(e) => Err(e),
            Ok(_) => match dep_edge_check(es.last()) {
                Err(e) => Err(e),
                Ok(_) => if es.len() >= 2 && key_lt(lint_edge_key(es.last()), lint_edge_key(es[es.len() - 2])) {
                    Err(invalid("deps.jsonl is not sorted"@))
                } else {
                    Ok(())
                },
            },
        }
    }
}

/// One edge's lint key comes before another's.
pub open spec fn dep_key_lt(a: DepEdgeView, b: DepEdgeView) -> bool {
    key_lt(lint_edge_key(a), lint_edge_key(b))
}

/// Dependency edges pass lint exactly when each edge passes on its own and
/// their keys (source, kind, target) never go down.
pub proof fn law_deps_pass_iff_valid_and_sorted(rs: Seq<DepEdgeView>)
    ensures
        dep_edges_check(rs) is Ok <==> (forall|i: int| 0 <= i < rs.len() ==> (#[trigger] dep_edge_check(rs[i])) is Ok)
            && (forall|i: int| 0 <= i < rs.len() - 1 ==> !dep_key_lt(rs[i + 1], #[trigger] rs[i])),
    decreases rs.len(),
{
    if rs.len() > 0 {
        let p = rs.drop_last();
        law_deps_pass_iff_valid_and_sorted(p);
        assert forall|i: int| 0 <= i < p.len() implies p[i] == rs[i] by {}
        let all_valid = forall|i: int| 0 <= i < rs.len() ==> (#[trigger] dep_edge_check(rs[i])) is Ok;
        let all_sorted = forall|i: int| 0 <= i < rs.len() - 1 ==> !dep_key_lt(rs[i + 1], #[trigger] rs[i]);
        if dep_edges_check(rs) is Ok {
            assert(dep_edges_check(p) is Ok);
            assert(dep_edge_check(rs.last()) is Ok);
            assert forall|i: int| 0 <= i < rs.len() implies (#[trigger] dep_edge_check(rs[i])) is Ok by {
                if i < rs.len() - 1 {
                    assert(dep_edge_check(p[i]) is Ok);
                }
            }
            assert forall|i: int| 0 <= i < rs.len() - 1 implies !dep_key_lt(rs[i + 1], #[trigger] rs[i]) by {
                if i < rs.len() - 2 {
                    assert(!dep_key_lt(p[i + 1], p[i]));
                } else {
                    assert(rs.last() == rs[i + 1]);
                }
            }
        }
        if all_valid && all_sorted {
            assert forall|i: int| 0 <= i < p.len() implies (#[trigger] dep_edge_check(p[i])) is Ok by {
                assert(dep_edge_check(rs[i]) is Ok);
            }
            assert forall|i: int| 0 <= i < p.len() - 1 implies !dep_key_lt(p[i + 1], #[trigger] p[i]) by {
                assert(!dep_key_lt(rs[i + 1], rs[i]));
            }
            assert(dep_edges_check(p) is Ok);
            assert(dep_edge_check(rs[rs.len() - 1]) is Ok);
            if rs.len() >= 2 {
                assert(!dep_key_lt(rs[rs.len() - 1], rs[rs.len() - 2]));
            }
        }
    }
}

proof fn lemma_deps_error_stays(es: Seq<DepEdgeView>, n: int, e: KbErrorView)
    requires
        0 <= n <= es.len(),
        dep_edges_check(es.take(n)) == Err::<(), KbErrorView>(e),
    ensures
        dep_edges_check(es) == Err::<(), KbErrorView>(e),
    decreases es.len() - n,
{
    if n < es.len() {
        assert(es.take(n + 1).drop_last() =~= es.take(n));
        lemma_deps_error_stays(es, n + 1, e);
    } else {
        assert(es.take(n) =~= es);
    }
}

/// Checks the edges (see `dep_edges_check`).
pub fn validate_dep_edges(edges: &Vec<DepEdge>) -> (r: Result<(), KbError>)
    ensures
        check_view(r) == dep_edges_check(dep_views(edges@)),
{
    let ghost ev = dep_views(edges@);
    let mut i: usize = 0;
    assert(ev.take(0) =~= Seq::<DepEdgeView>::empty());
    while i < edges.len()
        invariant
            i <= edges@.len(),
            ev == dep_views(edges@),
            dep_edges_check(ev.take(i as int)) == Ok::<(), KbErrorView>(()),
        decreases edges@.len() - i,
    {
        assert(ev.take(i + 1).drop_last() =~= ev.take(i as int));
        assert(ev.take(i + 1).last() == edges@[i as int]@);
        match validate_dep_edge(&edges[i]) {
            Err(e) => {
                proof {
                    lemma_deps_error_stays(ev, i + 1, e@);
                }
                return Err(e);
            },
            Ok(()) => {},
        }
        if i > 0 {
            let cur = edge_key_exec(&edges[i]);
            let prev = edge_key_exec(&edges[i - 1]);
            assert(ev.take(i + 1)[i - 1] == edges@[i - 1]@);
            if crate::order::compare_keys(&cur, &prev) < 0 {
                let e = KbError::invalid_argument("deps.jsonl is not sorted");
                proof {
                    lemma_deps_error_stays(ev, i + 1, e@);
                }
                return Err(e);
            }
        }
        i += 1;
    }
    assert(ev.take(edges@.len() as int) =~= ev);
    Ok(())
}

// ---------------------------------------------------------------------------
// Generated files and configs
// ---------------------------------------------------------------------------

/// The generated files scanned for timestamp-like fields, in order.
pub open spec fn scanned_files() -> Seq<Chars> {
    seq!["kb/gen/kb_meta.json"@, "kb/gen/tree.jsonl"@, "kb/gen/symbols.jsonl"@, "kb/gen/deps.jsonl"@]
}

/// The generated files scanned for timestamp-like fields, in order.
pub fn lint_scanned_files() -> (v: Vec<String>)
    ensures
        views(v@) == scanned_files(),
{
    let mut v: Vec<String> = Vec::new();
    v.push(crate::text::copy_str("kb/gen/kb_meta.json"));
    v.push(crate::text::copy_str("kb/gen/tree.jsonl"));
    v.push(crate::text::copy_str("kb/gen/symbols.jsonl"));
    v.push(crate::text::copy_str("kb/gen/deps.jsonl"));
    assert(views(v@) =~= scanned_files());
    v
}

/// Checking a generated file's text for `"timestamp"`, `"epoch"` or `"mtime"`.
pub open spec fn forbidden_check(rel: Chars, text: Chars) -> Result<(), KbErrorView> {
    if has_sub(text, "\"timestamp\""@) || has_sub(text, "\"epoch\""@) || has_sub(text, "\"mtime\""@) {
        Err(invalid_with("forbidden timestamp-like fields found"@, "path"@, rel))
    } else {
        Ok(())
    }
}

/// Checks a generated file's text for timestamp-like fields.
pub fn scan_forbidden_fields(rel: &str, text: &str) -> (r: Result<(), KbError>)
    ensures
        check_view(r) == forbidden_check(rel@, text@),
{
    let v = chars_of(text);
    let a = chars_of("\"timestamp\"");
    let b = chars_of("\"epoch\"");
    let c = chars_of("\"mtime\"");
    if crate::text::find_first_exec(v.as_slice(), a.as_slice()).is_some() || crate::text::find_first_exec(
        v.as_slice(),
        b.as_slice(),
    ).is_some() || crate::text::find_first_exec(v.as_slice(), c.as_slice()).is_some() {
        return Err(KbError::invalid_with_detail("forbidden timestamp-like fields found", "path", rel));
    }
    Ok(())
}

/// Checking a rule's `when_path_prefix`: it must normalize, to itself.
pub open spec fn rule_prefix_check(prefix: Chars) -> Result<(), KbErrorView> {
    match crate::repo::prefix::normalize_prefix(prefix) {
        Err(e) => Err(e),
        Ok(n) => if n != prefix {
            Err(invalid_with2("when_path_prefix must be normalized"@, "normalized"@, n, "when_path_prefix"@, prefix))
        } else {
            Ok(())
        },
    }
}

/// The first present prefix that fails its check (a rule without a string
/// `when_path_prefix` is skipped).
pub open spec fn rule_prefixes_check(ps: Seq<Option<Chars>>) -> Result<(), KbErrorView>
    decreases ps.len(),
{
    if ps.len() == 0 {
        Ok(())
    } else if ps[0] matches Some(p) && rule_prefix_check(p) is Err {
        rule_prefix_check(ps[0]->Some_0)
    } else {
        rule_prefixes_check(ps.drop_first())
    }
}

/// The views of optional strings.
pub open spec fn opt_string_views(v: Seq<Option<String>>) -> Seq<Option<Chars>> {
    v.map_values(|o: Option<String>| crate::index::artifacts::opt_view(o))
}

/// Checks the rules' `when_path_prefix` values, in order.
pub fn check_rule_prefixes(prefixes: &Vec<Option<String>>) -> (r: Result<(), KbError>)
    ensures
        check_view(r) == rule_prefixes_check(opt_string_views(prefixes@)),
{
    let ghost pv = opt_string_views(prefixes@);
    let mut i: usize = 0;
    assert(pv.skip(0) =~= pv);
    while i < prefixes.len()
        invariant
            i <= prefixes@.len(),
            pv == opt_string_views(prefixes@),
            rule_prefixes_check(pv) == rule_prefixes_check(pv.skip(i as int)),
        decreases prefixes@.len() - i,
    {
        assert(pv.skip(i as int)[0] == crate::index::artifacts::opt_view(prefixes@[i as int]));
        assert(pv.skip(i as int).drop_first() =~= pv.skip(i + 1));
        match &prefixes[i] {
            None => {},
            Some(ps) => {
                let p = ps.as_str();
                let n = crate::repo::prefix::normalize_path_prefix(p)?;
                if !crate::text::str_eq(n.as_str(), p) {
                    proof {
                        reveal_strlit("normalized");
                        reveal_strlit("when_path_prefix");
                        lemma_keys_ordered("normalized"@, n@, "when_path_prefix"@, p@);
                    }
                    return Err(
                        KbError::invalid_with_two("when_path_prefix must be normalized", "normalized", n.as_str(), "when_path_prefix", p),
                    );
                }
            },
        }
        i += 1;
    }
    assert(pv.skip(prefixes@.len() as int) =~= Seq::<Option<Chars>>::empty());
    Ok(())
}

// ---------------------------------------------------------------------------
// Parsing configs and overlays
// ---------------------------------------------------------------------------

/// Whether `toml` parses a text as a TOML value: its error's text when not.
pub uninterp spec fn toml_value_outcome(text: Chars) -> Result<(), Chars>;

/// Whether `serde_json` parses a text as a JSON value: its error's text when not.
pub uninterp spec fn json_value_outcome(text: Chars) -> Result<(), Chars>;

/// The `when_path_prefix` of each `[[rule]]` table of a TOML text (nothing
/// for a rule without a string one), or the parser's error text.
pub uninterp spec fn toml_rule_prefixes(text: Chars) -> Result<Seq<Option<Chars>>, Chars>;

/// `toml::from_str::<toml::Value>`: whether the text parses, and the error's
/// `Display` text when it does not. What parses is named, not stated.
#[verifier::external_body]
fn toml_value_check(text: &str) -> (r: Result<(), String>)
    ensures
        match r {
            Ok(()) => toml_value_outcome(text@) == Ok::<(), Chars>(()),
            Err(m) => toml_value_outcome(text@) == Err::<(), Chars>(m@),
        },
{
    toml::from_str::<toml::Value>(text).map(|_| ()).map_err(|e| e.to_string())
}

/// `serde_json::from_str::<serde_json::Value>`: whether the text parses, and
/// the error's `Display` text when it does not. What parses is named, not
/// stated.
#[verifier::external_body]
fn json_value_check(text: &str) -> (r: Result<(), String>)
    ensures
        match r {
            Ok(()) => json_value_outcome(text@) == Ok::<(), Chars>(()),
            Err(m) => json_value_outcome(text@) == Err::<(), Chars>(m@),
        },
{
    serde_json::from_str::<serde_json::Value>(text).map(|_| ()).map_err(|e| e.to_string())
}

/// `toml::from_str::<toml::Value>`, then the value's `rule` array (none
/// when it is missing or not an array) and, for each of its items, its
/// `when_path_prefix` when that is a string. The parse fails exactly when
/// `toml_value_check` fails, with the same text.
#[verifier::external_body]
fn rule_prefixes_of(text: &str) -> (r: Result<Vec<Option<String>>, String>)
    ensures
        match r {
            Ok(v) => toml_rule_prefixes(text@) == Ok::<Seq<Option<Chars>>, Chars>(opt_string_views(v@))
                && toml_value_outcome(text@) == Ok::<(), Chars>(()),
            Err(m) => toml_rule_prefixes(text@) == Err::<Seq<Option<Chars>>, Chars>(m@)
                && toml_value_outcome(text@) == Err::<(), Chars>(m@),
        },
{
    let value: toml::Value = toml::from_str(text).map_err(|e| e.to_string())?;
    let rules = match value.get("rule").and_then(|v| v.as_array()) {
        Some(a) => a,
        None => return Ok(Vec::new()),
    };
    Ok(rules.iter().map(|rule| rule.get("when_path_prefix").and_then(|v| v.as_str()).map(|p| p.to_string())).collect())
}

} // verus!

verus! {

// ---------------------------------------------------------------------------
// The whole lint
// ---------------------------------------------------------------------------

/// What the lint reads, each read (and parse) as it came out.
#[derive(Debug)]
pub struct LintInputs {
    /// `kb/config/obligations.toml`: its text, or the read's error text.
    pub obligations: Result<String, String>,
    /// The optional configs that exist (`kb/config/tags.toml`, then
    /// `kb/config/kb.toml`): each text, or the read's error text.
    pub configs: Vec<Result<String, String>>,
    /// `kb/gen/kb_meta.json`: the read's error, the parser's message, or its
    /// format version.
    pub kb_meta: Result<Result<u32, String>, KbError>,
    /// The records of `kb/gen/tree.jsonl`, each line parsed.
    pub tree: Result<Vec<Result<TreeRecord, String>>, KbError>,
    /// The records of `kb/gen/symbols.jsonl`, each line parsed.
    pub symbols: Result<Vec<Result<SymbolRecord, String>>, KbError>,
    /// The records of `kb/gen/deps.jsonl`, each line parsed.
    pub deps: Result<Vec<Result<DepEdge, String>>, KbError>,
    /// The texts of the files of `lint_scanned_files`, in that order.
    pub gen_texts: Vec<Result<String, KbError>>,
    /// The module cards, in path order: each text, or the read's error text.
    pub module_cards: Vec<Result<String, String>>,
    /// `kb/facts/facts.jsonl`, when it is a file: its records, each line parsed.
    pub facts: Option<Result<Vec<Result<crate::json::JsonValue, String>>, KbError>>,
    /// The session files, in path order: each text, or the read's error text.
    pub sessions: Vec<Result<String, String>>,
}

/// The first of two checks that fails.
pub open spec fn then_check(a: Result<(), KbErrorView>, b: Result<(), KbErrorView>) -> Result<(), KbErrorView> {
    if a is Err {
        a
    } else {
        b
    }
}

/// Whether a text parses: as JSON when `json`, else as TOML.
pub open spec fn parse_outcome(json: bool, text: Chars) -> Result<(), Chars> {
    if json {
        json_value_outcome(text)
    } else {
        toml_value_outcome(text)
    }
}

/// A read, then parsed: a failed read is an internal error with the read's
/// context, a failed parse an invalid-argument error with `message` and the
/// parser's text.
pub open spec fn outcome_check(o: Result<String, String>, json: bool, context: Chars, message: Chars) -> Result<(), KbErrorView> {
    match o {
        Err(c) => Err(crate::error::error_with(crate::error::ErrorCode::Internal, context, "cause"@, c@)),
        Ok(t) => match parse_outcome(json, t@) {
            Err(m) => Err(invalid_with(message, "cause"@, m)),
            Ok(()) => Ok(()),
        },
    }
}

/// The first read that fails, or does not parse.
pub open spec fn outcomes_check(os: Seq<Result<String, String>>, json: bool, context: Chars, message: Chars) -> Result<(), KbErrorView>
    decreases os.len(),
{
    if os.len() == 0 {
        Ok(())
    } else {
        then_check(outcome_check(os[0], json, context, message), outcomes_check(os.drop_first(), json, context, message))
    }
}

fn check_outcomes(os: &Vec<Result<String, String>>, json: bool, context: &str, message: &str) -> (r: Result<(), KbError>)
    ensures
        check_view(r) == outcomes_check(os@, json, context@, message@),
{
    let mut i: usize = 0;
    assert(os@.skip(0) =~= os@);
    while i < os.len()
        invariant
            i <= os@.len(),
            outcomes_check(os@, json, context@, message@) == outcomes_check(os@.skip(i as int), json, context@, message@),
        decreases os@.len() - i,
    {
        assert(os@.skip(i as int)[0] == os@[i as int]);
        assert(os@.skip(i as int).drop_first() =~= os@.skip(i + 1));
        match &os[i] {
            Err(c) => {
                return Err(KbError::internal(c.as_str(), context));
            },
            Ok(t) => {
                let parsed = if json {
                    json_value_check(t.as_str())
                } else {
                    toml_value_check(t.as_str())
                };
                match parsed {
                    Err(m) => {
                        return Err(KbError::invalid_with_detail(message, "cause", m.as_str()));
                    },
                    Ok(()) => {},
                }
            },
        }
        i += 1;
    }
    assert(os@.skip(os@.len() as int) =~= Seq::<Result<String, String>>::empty());
    Ok(())
}

/// The check of `kb/config/obligations.toml`: required, parses, and its
/// rules' prefixes are normalized.
pub open spec fn obligations_config_check(o: Result<String, String>) -> Result<(), KbErrorView> {
    match o {
        Err(c) => Err(crate::error::error_with(
            crate::error::ErrorCode::NotFound,
            "kb/config/obligations.toml is required"@,
            "cause"@,
            c@,
        )),
        Ok(t) => match toml_rule_prefixes(t@) {
            Err(m) => Err(invalid_with("failed to parse obligations.toml"@, "cause"@, m)),
            Ok(ps) => rule_prefixes_check(ps),
        },
    }
}

/// The configs: `kb/config/obligations.toml` is required, parses, and its
/// rules' prefixes are normalized; the optional configs parse.
pub open spec fn configs_check(inp: LintInputs) -> Result<(), KbErrorView> {
    then_check(
        obligations_config_check(inp.obligations),
        outcomes_check(inp.configs@, false, "failed to read config"@, "failed to parse config"@),
    )
}

/// Parsed JSON lines: the first parse error, else the records.
pub open spec fn lines_loaded<T>(l: Result<Vec<Result<T, String>>, KbError>) -> Result<Seq<T>, KbErrorView> {
    match l {
        Err(e) => Err(e@),
        Ok(lines) => crate::query::read::collected(crate::facts::parse_views(lines@), "failed to parse jsonl"@),
    }
}

/// The generated index: the meta file parses with format version 1; the
/// tree, symbol and edge records parse and pass their checks; the scanned
/// files hold no timestamp-like field.
pub open spec fn generated_check(inp: LintInputs) -> Result<(), KbErrorView> {
    let meta = match inp.kb_meta {
        Err(e) => Err(e@),
        Ok(Err(c)) => Err(invalid_with("failed to parse json"@, "cause"@, c@)),
        Ok(Ok(v)) => if v != 1 { Err(invalid("kb_format_version must be 1"@)) } else { Ok(()) },
    };
    let tree = match lines_loaded(inp.tree) {
        Err(e) => Err(e),
        Ok(rs) => tree_records_check(tree_views(rs)),
    };
    let symbols = match lines_loaded(inp.symbols) {
        Err(e) => Err(e),
        Ok(rs) => symbol_records_check(symbol_views(rs)),
    };
    let deps = match lines_loaded(inp.deps) {
        Err(e) => Err(e),
        Ok(rs) => dep_edges_check(dep_views(rs)),
    };
    then_check(meta, then_check(tree, then_check(symbols, then_check(deps, texts_check(inp.gen_texts@, scanned_files())))))
}

/// The scanned texts in order: the first read error or forbidden field.
pub open spec fn texts_check(ts: Seq<Result<String, KbError>>, rels: Seq<Chars>) -> Result<(), KbErrorView>
    decreases ts.len(),
{
    if ts.len() == 0 {
        Ok(())
    } else {
        then_check(
            match ts[0] {
                Err(e) => Err(e@),
                Ok(t) => forbidden_check(rels[0], t@),
            },
            texts_check(ts.drop_first(), rels.drop_first()),
        )
    }
}

/// The overlays: module cards parse; the fact records (when the file
/// exists) parse and each has a string `fact_id` and `type`; the session
/// files parse.
pub open spec fn overlays_check(inp: LintInputs) -> Result<(), KbErrorView> {
    let facts = match inp.facts {
        None => Ok(()),
        Some(l) => match lines_loaded(l) {
            Err(e) => Err(e),
            Ok(rs) => crate::facts::records_check(rs, crate::facts::RecordCheck::IdThenType),
        },
    };
    then_check(
        outcomes_check(inp.module_cards@, false, "failed to read module card"@, "failed to parse module card"@),
        then_check(facts, outcomes_check(inp.sessions@, true, "failed to read session"@, "failed to parse session json"@)),
    )
}

/// The whole lint: configs, then the generated index, then the overlays.
pub open spec fn lint_spec(inp: LintInputs) -> Result<(), KbErrorView> {
    then_check(configs_check(inp), then_check(generated_check(inp), overlays_check(inp)))
}

fn check_texts(ts: &Vec<Result<String, KbError>>, rels: &Vec<String>) -> (r: Result<(), KbError>)
    requires
        ts@.len() == rels@.len(),
    ensures
        check_view(r) == texts_check(ts@, views(rels@)),
{
    let ghost rv = views(rels@);
    let mut i: usize = 0;
    assert(ts@.skip(0) =~= ts@);
    assert(rv.skip(0) =~= rv);
    while i < ts.len()
        invariant
            i <= ts@.len(),
            ts@.len() == rels@.len(),
            rv == views(rels@),
            texts_check(ts@, rv) == texts_check(ts@.skip(i as int), rv.skip(i as int)),
        decreases ts@.len() - i,
    {
        assert(ts@.skip(i as int)[0] == ts@[i as int]);
        assert(rv.skip(i as int)[0] == rels@[i as int]@);
        assert(ts@.skip(i as int).drop_first() =~= ts@.skip(i + 1));
        assert(rv.skip(i as int).drop_first() =~= rv.skip(i + 1));
        match &ts[i] {
            Err(e) => {
                return Err(e.duplicate());
            },
            Ok(t) => {
                scan_forbidden_fields(rels[i].as_str(), t.as_str())?;
            },
        }
        i += 1;
    }
    assert(ts@.skip(ts@.len() as int) =~= Seq::<Result<String, KbError>>::empty());
    Ok(())
}

fn lint_configs(obligations: &Result<String, String>, configs: &Vec<Result<String, String>>) -> (r: Result<(), KbError>)
    ensures
        check_view(r) == then_check(
            obligations_config_check(*obligations),
            outcomes_check(configs@, false, "failed to read config"@, "failed to parse config"@),
        ),
{
    match obligations {
        Err(c) => {
            return Err(
                KbError::coded_with(crate::error::ErrorCode::NotFound, "kb/config/obligations.toml is required", "cause", c.as_str()),
            );
        },
        Ok(t) => match rule_prefixes_of(t.as_str()) {
            Err(m) => {
                return Err(KbError::invalid_with_detail("failed to parse obligations.toml", "cause", m.as_str()));
            },
            Ok(ps) => {
                check_rule_prefixes(&ps)?;
            },
        },
    }
    check_outcomes(configs, false, "failed to read config", "failed to parse config")
}

/// Lints a repository from what was read of it (see `lint_spec`).
pub fn lint_all_at(inputs: LintInputs) -> (r: Result<(), KbError>)
    requires
        inputs.gen_texts@.len() == 4,
    ensures
        check_view(r) == lint_spec(inputs),
{
    let ghost inp = inputs;
    lint_configs(&inputs.obligations, &inputs.configs)?;
    match &inputs.kb_meta {
        Err(e) => {
            return Err(e.duplicate());
        },
        Ok(Err(c)) => {
            return Err(KbError::invalid_with_detail("failed to parse json", "cause", c.as_str()));
        },
        Ok(Ok(v)) => {
            if *v != 1 {
                return Err(KbError::invalid_argument("kb_format_version must be 1"));
            }
        },
    }
    let tree = match inputs.tree {
        Err(e) => {
            return Err(e);
        },
        Ok(lines) => crate::query::read::collect_parsed(lines, "failed to parse jsonl")?,
    };
    validate_tree_records(&tree)?;
    let symbols = match inputs.symbols {
        Err(e) => {
            return Err(e);
        },
        Ok(lines) => crate::query::read::collect_parsed(lines, "failed to parse jsonl")?,
    };
    validate_symbol_records(&symbols)?;
    let deps = match inputs.deps {
        Err(e) => {
            return Err(e);
        },
        Ok(lines) => crate::query::read::collect_parsed(lines, "failed to parse jsonl")?,
    };
    validate_dep_edges(&deps)?;
    check_texts(&inputs.gen_texts, &lint_scanned_files())?;
    assert(generated_check(inp) is Ok);
    check_outcomes(&inputs.module_cards, false, "failed to read module card", "failed to parse module card")?;
    match inputs.facts {
        None => {},
        Some(Err(e)) => {
            return Err(e);
        },
        Some(Ok(lines)) => {
            let recs = crate::query::read::collect_parsed(lines, "failed to parse jsonl")?;
            crate::facts::check_records(&recs, crate::facts::RecordCheck::IdThenType)?;
        },
    }
    check_outcomes(&inputs.sessions, true, "failed to read session", "failed to parse session json")
}

} // verus!

verus! {

/// A directory that starts a path lint accepts as a file path, and ends in
/// `/`, passes lint as a directory record.
proof fn lemma_dir_record_passes(p: Chars, d: Chars)
    requires
        repo_path_check(p, "file"@) is Ok,
        1 <= d.len() <= p.len(),
        p.take(d.len() as int) == d,
        d.last() == '/',
    ensures
        tree_record_check(crate::index::tree::dir_record_view(d)) is Ok,
{
    lemma_prefix_path_check(p, d);
    lemma_dir_not_file();
    assert(d.skip(d.len() - 1) =~= seq!['/']);
}

/// A prefix ending in `/` of a path that lint accepts as a file path is
/// accepted as a directory path.
proof fn lemma_prefix_path_check(p: Chars, d: Chars)
    requires
        repo_path_check(p, "file"@) is Ok,
        1 <= d.len() <= p.len(),
        p.take(d.len() as int) == d,
        d.last() == '/',
    ensures
        repo_path_check(d, "dir"@) is Ok,
{
    assert(!starts_with(p, seq!['/']) && !p.contains('\\') && !has_sub(p, "/../"@) && !starts_with(p, "../"@));
    assert(d[0] == p[0]);
    assert(!starts_with(d, seq!['/'])) by {
        if starts_with(d, seq!['/']) {
            assert(d.take(1)[0] == '/');
            assert(p.take(1) =~= seq!['/']);
        }
    }
    assert(!d.contains('\\')) by {
        if d.contains('\\') {
            let k = choose|k: int| 0 <= k < d.len() && d[k] == '\\';
            assert(p[k] == '\\');
        }
    }
    lemma_prefix_no_sub(p, d, "/../"@);
    assert(!starts_with(d, "../"@)) by {
        if starts_with(d, "../"@) {
            assert(p.take("../"@.len() as int) =~= d.take("../"@.len() as int));
        }
    }
    assert(d != ".."@) by {
        reveal_strlit("..");
        assert(".."@.last() == '.');
    }
    lemma_dir_not_file();
}

proof fn lemma_prefix_no_sub(p: Chars, d: Chars, n: Chars)
    requires
        !has_sub(p, n),
        d.len() <= p.len(),
        p.take(d.len() as int) == d,
    ensures
        !has_sub(d, n),
{
    reveal(find_first);
    if exists|i: int| crate::text::occurs_at(d, n, i) {
        let i = choose|i: int| crate::text::occurs_at(d, n, i);
        assert(p.subrange(i, i + n.len()) =~= d.subrange(i, i + n.len()));
        assert(crate::text::occurs_at(p, n, i));
    }
}

proof fn lemma_dir_not_file()
    ensures
        "dir"@ != "file"@,
{
    reveal_strlit("file");
    reveal_strlit("dir");
    assert("dir"@.len() == 3);
    assert("file"@.len() == 4);
}

/// The path order of two tree records in key order.
proof fn lemma_key_order_paths(a: TreeRecord, b: TreeRecord)
    requires
        key_lt(a.key(), b.key()),
    ensures
        !chars_lt(b.path@, a.path@),
{
    reveal_with_fuel(key_lt, 2);
    if a.path@ != b.path@ {
        assert(chars_lt(a.path@, b.path@));
        crate::order::lemma_chars_lt_asym(a.path@, b.path@);
    } else {
        crate::order::lemma_chars_lt_irrefl(a.path@);
    }
}

/// A file record as `file_tree_record` makes it.
pub open spec fn plain_file_record(r: TreeRecordView) -> bool {
    &&& r.kind == "file"@
    &&& r.bytes is Some
    &&& r.lines is Some
    &&& r.lang is Some
    &&& r.top_symbols is None
}

/// The tree that `tree_records` builds from file records (as
/// `file_tree_record` makes them) whose paths lint accepts passes lint's
/// check of `tree.jsonl`.
pub proof fn law_regenerated_tree_passes_lint(files: Seq<TreeRecord>, out: Seq<TreeRecord>)
    requires
        forall|j: int|
            0 <= j < files.len() ==> plain_file_record(#[trigger] files[j]@) && repo_path_check(files[j]@.path, "file"@) is Ok,
        crate::index::tree::built_tree(out, files),
    ensures
        tree_records_check(tree_views(out)) == Ok::<(), KbErrorView>(()),
{
    lemma_built_tree_prefix(files, out, out.len() as int);
    assert(tree_views(out).take(out.len() as int) =~= tree_views(out));
}

proof fn lemma_built_tree_prefix(files: Seq<TreeRecord>, out: Seq<TreeRecord>, n: int)
    requires
        forall|j: int|
            0 <= j < files.len() ==> plain_file_record(#[trigger] files[j]@) && repo_path_check(files[j]@.path, "file"@) is Ok,
        crate::index::tree::built_tree(out, files),
        0 <= n <= out.len(),
    ensures
        tree_records_check(tree_views(out).take(n)) == Ok::<(), KbErrorView>(()),
    decreases n,
{
    reveal_strlit("file");
    reveal_strlit("dir");
    if n > 0 {
        lemma_built_tree_prefix(files, out, n - 1);
        let rs = tree_views(out).take(n);
        assert(rs.drop_last() =~= tree_views(out).take(n - 1));
        let r = out[n - 1];
        assert(rs.last() == r@);
        assert(out[n - 1] == r);
        if exists|j: int| 0 <= j < files.len() && r@ == files[j]@ {
            let j = choose|j: int| 0 <= j < files.len() && r@ == files[j]@;
            assert(plain_file_record(files[j]@));
            lemma_dir_not_file();
            if r@.path.len() > 0 && r@.path.last() == '/' {
                assert(r@.path.skip(r@.path.len() - 1) =~= seq!['/']);
            }
        } else {
            let d = r.path@;
            let paths = crate::index::tree::record_paths(files);
            assert(crate::index::tree::is_parent_dir_of_some(d, paths));
            let k = choose|k: int| 0 <= k < paths.len() && crate::index::tree::parent_dir_list(paths[k]).contains(d);
            let p = paths[k];
            assert(p == files[k]@.path);
            assert(repo_path_check(p, "file"@) is Ok);
            if p.len() > 0 && p.last() == '/' {
                assert(p.skip(p.len() - 1) =~= seq!['/']);
            }
            crate::index::tree::lemma_parent_dir_prefix(p, d);
            lemma_dir_record_passes(p, d);
        }
        if n >= 2 {
            assert(rs[n - 2] == out[n - 2]@);
            lemma_key_order_paths(out[n - 2], out[n - 1]);
        }
    }
}

} // verus!

verus! {

/// Lint's edge key is the start of the index's edge key, so an order of the
/// first is an order of the second.
proof fn lemma_lint_key_in_edge_key(a: DepEdgeView, b: DepEdgeView)
    requires
        key_lt(lint_edge_key(b), lint_edge_key(a)),
    ensures
        key_lt(crate::index::deps::edge_key(b), crate::index::deps::edge_key(a)),
{
    let la = lint_edge_key(a);
    let lb = lint_edge_key(b);
    let ka = crate::index::deps::edge_key(a);
    let kb = crate::index::deps::edge_key(b);
    reveal_with_fuel(key_lt, 4);
    assert(ka[0] == la[0] && ka[1] == la[1] && ka[2] == la[2]);
    assert(kb[0] == lb[0] && kb[1] == lb[1] && kb[2] == lb[2]);
    if lb[0] == la[0] {
        assert(lb.drop_first()[0] == lb[1] && la.drop_first()[0] == la[1]);
        assert(kb.drop_first()[0] == kb[1] && ka.drop_first()[0] == ka[1]);
        if lb[1] == la[1] {
            assert(lb.drop_first().drop_first()[0] == lb[2] && la.drop_first().drop_first()[0] == la[2]);
            assert(kb.drop_first().drop_first()[0] == kb[2] && ka.drop_first().drop_first()[0] == ka[2]);
            if lb[2] == la[2] {
                assert(lb.drop_first().drop_first().drop_first().len() == 0);
                assert(la.drop_first().drop_first().drop_first().len() == 0);
            }
        }
    }
}

/// What dropping repeated neighbours keeps: elements of the input, and an
/// order of lint's edge keys that the input had.
proof fn lemma_dedup_edges(v: Seq<DepEdgeView>)
    ensures
        forall|i: int|
            0 <= i < crate::query::plan::dedup_adjacent(v).len() ==> v.contains(#[trigger] crate::query::plan::dedup_adjacent(v)[i]),
        (forall|a: int, b: int| 0 <= a < b < v.len() ==> !key_lt(lint_edge_key(#[trigger] v[b]), lint_edge_key(#[trigger] v[a])))
            ==> forall|i: int, j: int|
            0 <= i < j < crate::query::plan::dedup_adjacent(v).len() ==> !key_lt(
                lint_edge_key(#[trigger] crate::query::plan::dedup_adjacent(v)[j]),
                lint_edge_key(#[trigger] crate::query::plan::dedup_adjacent(v)[i]),
            ),
    decreases v.len(),
{
    let d = crate::query::plan::dedup_adjacent(v);
    if v.len() > 1 {
        let v0 = v.drop_last();
        lemma_dedup_edges(v0);
        let d0 = crate::query::plan::dedup_adjacent(v0);
        assert forall|i: int| 0 <= i < d.len() implies v.contains(#[trigger] d[i]) by {
            if i < d0.len() {
                assert(d[i] == d0[i]);
                let k = choose|k: int| 0 <= k < v0.len() && v0[k] == d0[i];
                assert(v[k] == v0[k]);
            } else {
                assert(d[i] == v.last());
                assert(v[v.len() - 1] == v.last());
            }
        }
        if forall|a: int, b: int| 0 <= a < b < v.len() ==> !key_lt(lint_edge_key(#[trigger] v[b]), lint_edge_key(#[trigger] v[a])) {
            assert forall|a: int, b: int| 0 <= a < b < v0.len() implies !key_lt(lint_edge_key(#[trigger] v0[b]), lint_edge_key(#[trigger] v0[a])) by {
                assert(v0[a] == v[a] && v0[b] == v[b]);
            }
            assert forall|i: int, j: int| 0 <= i < j < d.len() implies !key_lt(lint_edge_key(#[trigger] d[j]), lint_edge_key(#[trigger] d[i])) by {
                if j < d0.len() {
                    assert(d[i] == d0[i] && d[j] == d0[j]);
                } else {
                    assert(d[j] == v.last());
                    assert(d[i] == d0[i]);
                    let k = choose|k: int| 0 <= k < v0.len() && v0[k] == d0[i];
                    assert(v[k] == v0[k]);
                    assert(v[v.len() - 1] == v.last());
                }
            }
        }
    }
}

/// The `deps.jsonl` that the index writes (the generated edges of files whose
/// paths lint accepts, pointing only to such files, as `sorted_dep_edges`
/// lists them) passes lint's check of `deps.jsonl`.
pub proof fn law_regenerated_deps_pass_lint(edges: Seq<DepEdge>, out: Seq<DepEdgeView>, repo_files: Seq<Chars>)
    requires
        forall|i: int|
            0 <= i < edges.len() ==> crate::index::deps::generated_edge(#[trigger] edges[i]@, edges[i]@.from_path, repo_files)
                && repo_path_check(edges[i]@.from_path, "file"@) is Ok,
        forall|j: int| 0 <= j < repo_files.len() ==> repo_path_check(#[trigger] repo_files[j], "file"@) is Ok,
        crate::index::deps::deps_listed(out, crate::order::view_seq(edges)),
    ensures
        dep_edges_check(out) == Ok::<(), KbErrorView>(()),
{
    let inp = crate::order::view_seq(edges);
    let (u, s) = choose|u: Seq<DepEdge>, s: Seq<DepEdge>|
        crate::order::view_seq(u) == inp && #[trigger] crate::order::stably_sorted(s, u) && out
            == crate::query::plan::dedup_adjacent(crate::order::view_seq(s));
    assert forall|x: DepEdge, y: DepEdge| x@ == y@ implies #[trigger] x.key() == #[trigger] y.key() by {}
    crate::order::lemma_stably_sorted_props(s, u);
    let v = crate::order::view_seq(s);
    assert(u.len() == edges.len()) by {
        assert(crate::order::view_seq(u).len() == u.len());
        assert(inp.len() == edges.len());
    }
    assert forall|i: int| 0 <= i < v.len() implies exists|j: int| 0 <= j < edges.len() && #[trigger] v[i] == edges[j]@ by {
        assert(v[i] == s[i]@);
        let j = choose|j: int| 0 <= j < u.len() && (#[trigger] s[i])@ == u[j]@;
        assert(crate::order::view_seq(u)[j] == inp[j]);
        assert(inp[j] == edges[j]@);
        assert(v[i] == edges[j]@);
    }
    assert forall|a: int, b: int| 0 <= a < b < v.len() implies !key_lt(lint_edge_key(#[trigger] v[b]), lint_edge_key(#[trigger] v[a])) by {
        assert(v[a] == s[a]@ && v[b] == s[b]@);
        if key_lt(lint_edge_key(v[b]), lint_edge_key(v[a])) {
            lemma_lint_key_in_edge_key(v[a], v[b]);
            assert(!key_lt(s[b].key(), s[a].key()));
        }
    }
    lemma_dedup_edges(v);
    assert forall|i: int| 0 <= i < out.len() implies exists|j: int| 0 <= j < edges.len() && #[trigger] out[i] == edges[j]@ by {
        assert(v.contains(out[i]));
        let k = choose|k: int| 0 <= k < v.len() && v[k] == out[i];
        assert(v[k] == v[k]);
    }
    lemma_generated_deps_prefix(edges, out, repo_files, out.len() as int);
    assert(out.take(out.len() as int) =~= out);
}

proof fn lemma_generated_deps_prefix(edges: Seq<DepEdge>, out: Seq<DepEdgeView>, repo_files: Seq<Chars>, n: int)
    requires
        forall|i: int|
            0 <= i < edges.len() ==> crate::index::deps::generated_edge(#[trigger] edges[i]@, edges[i]@.from_path, repo_files)
                && repo_path_check(edges[i]@.from_path, "file"@) is Ok,
        forall|j: int| 0 <= j < repo_files.len() ==> repo_path_check(#[trigger] repo_files[j], "file"@) is Ok,
        forall|i: int| 0 <= i < out.len() ==> exists|j: int| 0 <= j < edges.len() && #[trigger] out[i] == edges[j]@,
        forall|i: int, j: int| 0 <= i < j < out.len() ==> !key_lt(lint_edge_key(#[trigger] out[j]), lint_edge_key(#[trigger] out[i])),
        0 <= n <= out.len(),
    ensures
        dep_edges_check(out.take(n)) == Ok::<(), KbErrorView>(()),
    decreases n,
{
    if n > 0 {
        lemma_generated_deps_prefix(edges, out, repo_files, n - 1);
        let es = out.take(n);
        assert(es.drop_last() =~= out.take(n - 1));
        let e = out[n - 1];
        assert(es.last() == e);
        let j = choose|j: int| 0 <= j < edges.len() && #[trigger] out[n - 1] == edges[j]@;
        assert(crate::index::deps::generated_edge(edges[j]@, edges[j]@.from_path, repo_files));
        if e.to_path is Some {
            let p = e.to_path->Some_0;
            let k = choose|k: int| 0 <= k < repo_files.len() && repo_files[k] == p;
            assert(repo_path_check(repo_files[k], "file"@) is Ok);
        }
        assert(known_dep_kind(e.kind));
        assert(dep_edge_check(e) is Ok);
        if n >= 2 {
            assert(es[n - 2] == out[n - 2]);
            assert(!key_lt(lint_edge_key(out[n - 1]), lint_edge_key(out[n - 2])));
        }
    }
}

} // verus!

verus! {

/// A join starts with its first piece, followed by the separator when there
/// are more pieces.
proof fn lemma_join_head(parts: Seq<Chars>)
    requires
        parts.len() >= 1,
    ensures
        crate::text::join(parts, seq!['/']).len() >= parts[0].len(),
        crate::text::join(parts, seq!['/']).take(parts[0].len() as int) == parts[0],
        parts.len() >= 2 ==> crate::text::join(parts, seq!['/']).len() > parts[0].len() && crate::text::join(parts, seq!['/'])[parts[0].len() as int] == '/',
    decreases parts.len(),
{
    let j = crate::text::join(parts, seq!['/']);
    if parts.len() == 1 {
        assert(j.take(parts[0].len() as int) =~= parts[0]);
    } else {
        let init = parts.drop_last();
        let a = crate::text::join(init, seq!['/']);
        assert(j == a + seq!['/'] + parts.last());
        lemma_join_head(init);
        assert(init[0] == parts[0]);
        if parts.len() == 2 {
            assert(a == parts[0]);
            assert(j.take(parts[0].len() as int) =~= parts[0]);
            assert(j[parts[0].len() as int] == '/');
        } else {
            assert(j.take(parts[0].len() as int) =~= a.take(parts[0].len() as int));
            assert(j[parts[0].len() as int] == a[parts[0].len() as int]);
        }
    }
}

/// Pieces that a repository path is joined from: not empty, no separator, no
/// backslash, not `..`.
pub open spec fn clean_pieces(parts: Seq<Chars>) -> bool {
    forall|i: int|
        0 <= i < parts.len() ==> {
            let p = #[trigger] parts[i];
            p.len() > 0 && !p.contains('/') && !p.contains('\\') && p != seq!['.', '.']
        }
}

/// `/../` occurs nowhere in a join of clean pieces.
proof fn lemma_join_no_parent(parts: Seq<Chars>, i: int)
    requires
        parts.len() >= 1,
        clean_pieces(parts),
    ensures
        !crate::text::occurs_at(crate::text::join(parts, seq!['/']), seq!['/', '.', '.', '/'], i),
    decreases parts.len(),
{
    let n = seq!['/', '.', '.', '/'];
    let j = crate::text::join(parts, seq!['/']);
    if parts.len() == 1 {
        if crate::text::occurs_at(j, n, i) {
            assert(j.subrange(i, i + 4)[0] == '/');
            assert(parts[0][i] == '/');
        }
    } else {
        let init = parts.drop_last();
        let last = parts.last();
        let a = crate::text::join(init, seq!['/']);
        let l = a.len() as int;
        assert(j == a + seq!['/'] + last);
        assert(clean_pieces(init)) by {
            assert forall|k: int| 0 <= k < init.len() implies #[trigger] init[k] == parts[k] by {}
        }
        assert(parts[parts.len() - 1] == last);
        if crate::text::occurs_at(j, n, i) {
            let w = j.subrange(i, i + 4);
            assert(w[0] == '/' && w[1] == '.' && w[2] == '.' && w[3] == '/');
            if i + 4 <= l {
                assert(a.subrange(i, i + 4) =~= w);
                lemma_join_no_parent(init, i);
            } else if i > l {
                assert(last[i + 3 - l - 1] == j[i + 3]);
                assert(last.contains('/'));
            } else if i == l {
                assert(j[i + 3] == last[2]);
                assert(last.contains('/'));
            } else if i == l - 3 {
                // `a` ends with `/..`
                if init.len() == 1 {
                    assert(a[l - 3] == '/');
                    assert(init[0].contains('/'));
                } else {
                    let b = crate::text::join(init.drop_last(), seq!['/']);
                    let li = init.last();
                    assert(a == b + seq!['/'] + li);
                    assert(init[init.len() - 1] == li);
                    if li.len() >= 3 {
                        assert(a[l - 3] == li[li.len() - 3]);
                        assert(li.contains('/'));
                    } else if li.len() == 2 {
                        assert(li[0] == a[l - 2] && li[1] == a[l - 1]);
                        assert(li =~= seq!['.', '.']);
                    } else {
                        assert(a[l - 2] == '/');
                    }
                }
            } else {
                // the separator at `l` would stand for a `.`
                assert(j[l] == '/');
                assert(w[l - i] == j[l]);
            }
        }
    }
}

/// A join of clean pieces passes lint's path check for a file.
#[verifier::spinoff_prover]
#[verifier::rlimit(40)]
proof fn lemma_join_passes(parts: Seq<Chars>)
    requires
        parts.len() >= 1,
        clean_pieces(parts),
    ensures
        repo_path_check(crate::text::join(parts, seq!['/']), "file"@) is Ok,
{
    let j = crate::text::join(parts, seq!['/']);
    let p0 = parts[0];
    lemma_join_head(parts);
    assert(p0.len() > 0 && !p0.contains('/'));
    assert(j[0] == p0[0]) by {
        assert(j.take(p0.len() as int)[0] == j[0]);
    }
    assert(!starts_with(j, seq!['/'])) by {
        if starts_with(j, seq!['/']) {
            assert(j.take(1)[0] == j[0]);
            assert(p0.contains('/'));
        }
    }
    assert(!j.contains('\\')) by {
        if j.contains('\\') {
            crate::text::lemma_join_chars(parts, '/', '\\');
            let k = choose|k: int| 0 <= k < parts.len() && (#[trigger] parts[k]).contains('\\');
        }
    }
    assert(!has_sub(j, "/../"@)) by {
        reveal_strlit("/../");
        reveal(find_first);
        assert("/../"@ =~= seq!['/', '.', '.', '/']);
        if exists|i: int| crate::text::occurs_at(j, "/../"@, i) {
            let i = choose|i: int| crate::text::occurs_at(j, "/../"@, i);
            lemma_join_no_parent(parts, i);
        }
    }
    assert(!starts_with(j, "../"@)) by {
        reveal_strlit("../");
        if starts_with(j, "../"@) {
            assert(j[0] == '.' && j[1] == '.' && j[2] == '/') by {
                assert(j.take(3) == "../"@);
                assert(j.take(3)[0] == j[0] && j.take(3)[1] == j[1] && j.take(3)[2] == j[2]);
            }
            if p0.len() >= 3 {
                assert(p0[2] == j.take(p0.len() as int)[2]);
                assert(p0.contains('/'));
            } else if p0.len() == 2 {
                assert(p0[0] == j.take(2)[0] && p0[1] == j.take(2)[1]);
                assert(p0 =~= seq!['.', '.']);
            } else if parts.len() >= 2 {
                assert(j[1] == '/');
            } else {
                assert(j == p0);
            }
        }
    }
    assert(j != ".."@) by {
        reveal_strlit("..");
        if parts.len() == 1 {
            assert(j == p0);
            assert(".."@ =~= seq!['.', '.']);
        } else {
            crate::text::lemma_join_has_sep(parts, '/');
            if j == ".."@ {
                let k = choose|k: int| 0 <= k < j.len() && j[k] == '/';
                assert(".."@[k] == '.');
            }
        }
    }
    assert(!ends_with(j, seq!['/'])) by {
        let last = parts.last();
        assert(parts[parts.len() - 1] == last);
        if parts.len() == 1 {
            assert(j == p0);
        } else {
            assert(j == crate::text::join(parts.drop_last(), seq!['/']) + seq!['/'] + last);
        }
        assert(j.last() == last.last());
        assert(last.contains(last.last())) by {
            assert(last[last.len() - 1] == last.last());
        }
        if ends_with(j, seq!['/']) {
            assert(j.skip(j.len() - 1)[0] == j.last());
        }
    }
}

/// Every path that `RepoPath::parse` gives passes lint's path check for a
/// file: never absolute, `/` separators only, no `..` segment, no trailing
/// `/`.
pub proof fn law_parsed_path_passes_lint(input: Chars, o: Chars)
    requires
        crate::repo::path::parse_repo_path(input) == Ok::<Chars, KbErrorView>(o),
    ensures
        repo_path_check(o, "file"@) is Ok,
{
    let t = crate::text::trim(input);
    if t == crate::repo::path::dot() {
        assert(o.len() == 0);
        lemma_empty_passes();
    } else {
        let rt = crate::text::replace_char(t, '\\', '/');
        let r = crate::repo::path::raw_segments(t);
        let k = crate::repo::path::keep_segments(r);
        assert(o == crate::text::join(k, seq!['/']));
        crate::repo::path::lemma_keep_segments_props(r);
        crate::text::lemma_split_pieces(rt, '/');
        if k.len() == 0 {
            assert(o.len() == 0);
            lemma_empty_passes();
        } else {
            assert(!r.contains(crate::repo::path::dot_dot()));
            assert forall|i: int| 0 <= i < k.len() implies {
                let p = #[trigger] k[i];
                p.len() > 0 && !p.contains('/') && !p.contains('\\') && p != seq!['.', '.']
            } by {
                let j = choose|j: int| 0 <= j < r.len() && r[j] == k[i];
                if k[i].contains('/') {
                    assert(r[j].contains('/'));
                }
                if k[i].contains('\\') {
                    assert(r[j].contains('\\'));
                    assert(rt.contains('\\'));
                    let m = choose|m: int| 0 <= m < rt.len() && rt[m] == '\\';
                    assert(rt[m] == (if t[m] == '\\' { '/' } else { t[m] }));
                }
                if k[i] == seq!['.', '.'] {
                    assert(r.contains(crate::repo::path::dot_dot()));
                }
            }
            lemma_join_passes(k);
        }
    }
}

proof fn lemma_empty_passes()
    ensures
        repo_path_check(Seq::<char>::empty(), "file"@) is Ok,
{
    let e = Seq::<char>::empty();
    reveal(find_first);
    reveal_strlit("..");
    reveal_strlit("../");
    reveal_strlit("/../");
    assert(".."@.len() == 2);
    assert("../"@.len() == 3);
    assert("/../"@.len() == 4);
    assert(!starts_with(e, seq!['/']));
    assert(!e.contains('\\'));
    assert(!has_sub(e, "/../"@));
    assert(!starts_with(e, "../"@));
    assert(!ends_with(e, seq!['/']));
}

} // verus!

verus! {

/// Each symbol record is what some ctags record gives.
pub open spec fn symbols_sourced(rs: Seq<crate::index::symbols::CtagsRecordView>, all: Seq<SymbolRecordView>) -> bool {
    forall|i: int|
        0 <= i < all.len() ==> exists|j: int|
            0 <= j < rs.len() && crate::index::symbols::symbol_from_ctags(#[trigger] rs[j]) == Ok::<
                Option<SymbolRecordView>,
                KbErrorView,
            >(Some(#[trigger] all[i]))
}

/// Each record of a ctags run's symbols comes from one of its tag records.
proof fn lemma_symbol_sources(rs: Seq<crate::index::symbols::CtagsRecordView>, all: Seq<SymbolRecordView>)
    requires
        crate::index::symbols::symbols_from_ctags(rs) == Ok::<Seq<SymbolRecordView>, KbErrorView>(all),
    ensures
        forall|i: int|
            0 <= i < all.len() ==> exists|j: int|
                0 <= j < rs.len() && crate::index::symbols::symbol_from_ctags(#[trigger] rs[j]) == Ok::<
                    Option<SymbolRecordView>,
                    KbErrorView,
                >(Some(#[trigger] all[i])),
    decreases rs.len(),
{
    if rs.len() > 0 {
        let init = rs.drop_last();
        let done = crate::index::symbols::symbols_from_ctags(init)->Ok_0;
        lemma_symbol_sources(init, done);
        assert forall|i: int| 0 <= i < all.len() implies exists|j: int|
            0 <= j < rs.len() && crate::index::symbols::symbol_from_ctags(#[trigger] rs[j]) == Ok::<
                Option<SymbolRecordView>,
                KbErrorView,
            >(Some(#[trigger] all[i])) by {
            if i < done.len() {
                assert(all[i] == done[i]);
                let j = choose|j: int|
                    0 <= j < init.len() && crate::index::symbols::symbol_from_ctags(#[trigger] init[j]) == Ok::<
                        Option<SymbolRecordView>,
                        KbErrorView,
                    >(Some(#[trigger] done[i]));
                assert(rs[j] == init[j]);
            } else {
                assert(rs[rs.len() - 1] == rs.last());
            }
        }
    }
}

/// Ctags reports 1-based lines, and an end line, when it gives one, not
/// before the start.
pub open spec fn ctags_lines_ok(rs: Seq<crate::index::symbols::CtagsRecordView>) -> bool {
    forall|j: int|
        0 <= j < rs.len() ==> ((#[trigger] rs[j]).line matches Some(l) ==> l >= 1 && (rs[j].end matches Some(e) ==> e >= l))
}

/// The `symbols.jsonl` that the index writes (what `symbol_records` returns
/// for a ctags run whose lines are 1-based, with end lines not before their
/// starts) passes lint's check of `symbols.jsonl`.
pub proof fn law_regenerated_symbols_pass_lint(records: Seq<crate::index::symbols::CtagsRecordView>, out: Seq<SymbolRecord>)
    requires
        crate::index::symbols::symbols_from_ctags(records) matches Ok(all) && crate::index::symbols::sorted_unique_symbols(
            out,
            all,
        ),
        forall|i: int| 0 <= i < out.len() ==> valid_symbol_id(#[trigger] out[i]@.symbol_id),
        ctags_lines_ok(records),
    ensures
        symbol_records_check(symbol_views(out)) == Ok::<(), KbErrorView>(()),
{
    let all = crate::index::symbols::symbols_from_ctags(records)->Ok_0;
    lemma_symbol_sources(records, all);
    let u = choose|u: Seq<SymbolRecord>| symbol_views(u) == all && #[trigger] crate::order::sorted_unique(out, u);
    lemma_symbols_prefix(records, all, u, out, out.len() as int);
    assert(symbol_views(out).take(out.len() as int) =~= symbol_views(out));
}

proof fn lemma_symbols_prefix(
    records: Seq<crate::index::symbols::CtagsRecordView>,
    all: Seq<SymbolRecordView>,
    u: Seq<SymbolRecord>,
    out: Seq<SymbolRecord>,
    n: int,
)
    requires
        symbols_sourced(records, all),
        symbol_views(u) == all,
        crate::order::sorted_unique(out, u),
        forall|i: int| 0 <= i < out.len() ==> valid_symbol_id(#[trigger] out[i]@.symbol_id),
        ctags_lines_ok(records),
        0 <= n <= out.len(),
    ensures
        symbol_records_check(symbol_views(out).take(n)) == Ok::<(), KbErrorView>(()),
    decreases n,
{
    if n > 0 {
        lemma_symbols_prefix(records, all, u, out, n - 1);
        let rs = symbol_views(out).take(n);
        assert(rs.drop_last() =~= symbol_views(out).take(n - 1));
        let s = out[n - 1];
        assert(rs.last() == s@);
        reveal(crate::order::drawn_from_firsts);
        assert(out[n - 1] == s);
        let k = choose|k: int| #![trigger u[k]] crate::order::first_of_key(u, 0, k) && s == u[k];
        assert(all[k] == u[k]@);
        let j = choose|j: int|
            0 <= j < records.len() && crate::index::symbols::symbol_from_ctags(#[trigger] records[j]) == Ok::<
                Option<SymbolRecordView>,
                KbErrorView,
            >(Some(#[trigger] all[k]));
        let r = records[j];
        assert(r.line is Some);
        let p = crate::repo::path::parse_repo_path(r.path->Some_0)->Ok_0;
        assert(s@.path == p);
        law_parsed_path_passes_lint(r.path->Some_0, p);
        assert(valid_symbol_id(out[n - 1]@.symbol_id));
        assert(symbol_record_check(s@) is Ok);
        if n >= 2 {
            assert(rs[n - 2] == out[n - 2]@);
            let a = out[n - 2];
            assert(key_lt(a.key(), s.key()));
            reveal_with_fuel(key_lt, 2);
            if a.symbol_id@ != s.symbol_id@ {
                crate::order::lemma_chars_lt_asym(a.symbol_id@, s.symbol_id@);
            } else {
                crate::order::lemma_chars_lt_irrefl(a.symbol_id@);
            }
        }
    }
}

} // verus!
