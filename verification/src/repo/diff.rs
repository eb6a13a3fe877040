//! Reading `git diff --name-status -z` output into changed paths.
use vstd::prelude::*;

use crate::error::{error_with, plain_error, ErrorCode, KbError, KbErrorView};
use crate::order::{
    key_view, keys_of, lemma_sorted_unique_keys, sort_unique_by_key, sorted_key_set_of, SortKey,
};
use crate::text::{
    chars_of, decode_utf8_bytes, lemma_split_char_nonempty, split_char, split_chars, string_of,
    utf8_error_text, Chars,
};

verus! {

#[derive(Clone, Copy, Debug, PartialEq, Eq, PartialOrd, Ord, Structural)]
pub enum ChangeKind {
    Add,
    Modify,
    Delete,
    Rename,
    Unknown,
}

pub open spec fn change_kind_text(k: ChangeKind) -> Chars {
    match k {
        ChangeKind::Add => "add"@,
        ChangeKind::Modify => "modify"@,
        ChangeKind::Delete => "delete"@,
        ChangeKind::Rename => "rename"@,
        ChangeKind::Unknown => "unknown"@,
    }
}

/// The position of a change kind in the order of its declaration.
pub open spec fn change_kind_rank(k: ChangeKind) -> Chars {
    match k {
        ChangeKind::Add => seq!['0'],
        ChangeKind::Modify => seq!['1'],
        ChangeKind::Delete => seq!['2'],
        ChangeKind::Rename => seq!['3'],
        ChangeKind::Unknown => seq!['4'],
    }
}

impl ChangeKind {
    pub fn as_str(self) -> (s: &'static str)
        ensures
            s@ == change_kind_text(self),
    {
        match self {
            ChangeKind::Add => "add",
            ChangeKind::Modify => "modify",
            ChangeKind::Delete => "delete",
            ChangeKind::Rename => "rename",
            ChangeKind::Unknown => "unknown",
        }
    }

    fn rank_chars(self) -> (v: Vec<char>)
        ensures
            v@ == change_kind_rank(self),
    {
        let c = match self {
            ChangeKind::Add => '0',
            ChangeKind::Modify => '1',
            ChangeKind::Delete => '2',
            ChangeKind::Rename => '3',
            ChangeKind::Unknown => '4',
        };
        let mut v: Vec<char> = Vec::new();
        v.push(c);
        assert(v@ =~= change_kind_rank(self));
        v
    }
}

#[derive(Clone, Debug, PartialEq, Eq, PartialOrd, Ord)]
pub struct DiffPathChange {
    pub path: String,
    pub change_kind: ChangeKind,
}

impl SortKey for DiffPathChange {
    open spec fn key(&self) -> Seq<Chars> {
        seq![self.path@, change_kind_rank(self.change_kind)]
    }

    fn exec_key(&self) -> (k: Vec<Vec<char>>) {
        let mut k: Vec<Vec<char>> = Vec::new();
        k.push(chars_of(self.path.as_str()));
        k.push(self.change_kind.rank_chars());
        assert(key_view(k) =~= self.key());
        k
    }
}

/// The change kind that a status letter stands for.
pub open spec fn kind_of_status(status: Chars) -> ChangeKind {
    if status.len() > 0 && status[0] == 'A' {
        ChangeKind::Add
    } else if status.len() > 0 && status[0] == 'M' {
        ChangeKind::Modify
    } else if status.len() > 0 && status[0] == 'D' {
        ChangeKind::Delete
    } else if status.len() > 0 && status[0] == 'R' {
        ChangeKind::Rename
    } else {
        ChangeKind::Unknown
    }
}

pub fn change_kind_from_status(status: &str) -> (k: ChangeKind)
    ensures
        k == kind_of_status(status@),
{
    let v = chars_of(status);
    if v.len() == 0 {
        ChangeKind::Unknown
    } else if v[0] == 'A' {
        ChangeKind::Add
    } else if v[0] == 'M' {
        ChangeKind::Modify
    } else if v[0] == 'D' {
        ChangeKind::Delete
    } else if v[0] == 'R' {
        ChangeKind::Rename
    } else {
        ChangeKind::Unknown
    }
}

/// The NUL-separated fields of the output, without the empty field after the
/// final NUL.
pub open spec fn nul_fields(text: Chars) -> Seq<Chars> {
    let parts = split_char(text, '\0');
    if parts.len() > 0 && parts.last().len() == 0 {
        parts.drop_last()
    } else {
        parts
    }
}

/// How many paths follow a status: two for renames and copies, else one.
pub open spec fn paths_needed(status: Chars) -> int {
    if status.len() > 0 && (status[0] == 'R' || status[0] == 'C') {
        2
    } else {
        1
    }
}

/// A status field followed by its paths.
pub type NameStatusEntry = (Chars, Seq<Chars>);

/// The entries that `fields` holds, or `None` when a status lacks its paths.
pub open spec fn name_status_entries(fields: Seq<Chars>) -> Option<Seq<NameStatusEntry>>
    decreases fields.len(),
{
    if fields.len() == 0 {
        Some(Seq::empty())
    } else {
        let status = fields[0];
        let n = paths_needed(status);
        if 1 + n > fields.len() {
            None
        } else {
            match name_status_entries(fields.skip(1 + n)) {
                Some(rest) => Some(seq![(status, fields.subrange(1, 1 + n))] + rest),
                None => None,
            }
        }
    }
}

/// What `parse_name_status_z` returns for the raw output.
pub open spec fn parse_name_status(bytes: Seq<u8>) -> Result<Seq<NameStatusEntry>, KbErrorView> {
    if !vstd::utf8::valid_utf8(bytes) {
        Err(
            error_with(
                ErrorCode::BackendFailed,
                "git output is not valid utf-8"@,
                "cause"@,
                utf8_error_text(bytes),
            ),
        )
    } else {
        match name_status_entries(nul_fields(vstd::utf8::decode_utf8(bytes))) {
            Some(entries) => Ok(entries),
            None => Err(
                plain_error(ErrorCode::BackendFailed, "unexpected git diff --name-status output"@),
            ),
        }
    }
}

pub open spec fn entry_view(e: (String, Vec<String>)) -> NameStatusEntry {
    (e.0@, e.1@.map_values(|s: String| s@))
}

pub open spec fn entries_view(v: Seq<(String, Vec<String>)>) -> Seq<NameStatusEntry> {
    v.map_values(|e: (String, Vec<String>)| entry_view(e))
}

pub open spec fn prepend_entries(
    done: Seq<NameStatusEntry>,
    rest: Option<Seq<NameStatusEntry>>,
) -> Option<Seq<NameStatusEntry>> {
    match rest {
        Some(r) => Some(done + r),
        None => None,
    }
}

/// Splits decoded output on NUL and drops the empty field after the last NUL.
pub fn split_nul_fields(text: &str) -> (fields: Vec<Vec<char>>)
    ensures
        fields@.map_values(|p: Vec<char>| p@) == nul_fields(text@),
{
    let v = chars_of(text);
    let mut parts = split_chars(v.as_slice(), '\0');
    proof {
        lemma_split_char_nonempty(text@, '\0');
    }
    let ghost all = parts@.map_values(|p: Vec<char>| p@);
    if parts.len() > 0 && parts[parts.len() - 1].len() == 0 {
        assert(all.last().len() == 0);
        parts.pop();
        assert(parts@.map_values(|p: Vec<char>| p@) =~= all.drop_last());
    }
    parts
}

/// Parses `git diff --name-status -z` output into (status, paths) entries.
pub fn parse_name_status_z(bytes: &[u8]) -> (r: Result<Vec<(String, Vec<String>)>, KbError>)
    ensures
        r matches Ok(v) ==> parse_name_status(bytes@) == Ok::<Seq<NameStatusEntry>, KbErrorView>(entries_view(v@)),
        r matches Err(e) ==> parse_name_status(bytes@) == Err::<Seq<NameStatusEntry>, KbErrorView>(e@),
{
    let text = match decode_utf8_bytes(bytes) {
        Ok(t) => t,
        Err(cause) => {
            return Err(
                KbError::coded_with(
                    ErrorCode::BackendFailed,
                    "git output is not valid utf-8",
                    "cause",
                    cause.as_str(),
                ),
            );
        },
    };
    let parts = split_nul_fields(text);
    let ghost fields = parts@.map_values(|p: Vec<char>| p@);
    let mut out: Vec<(String, Vec<String>)> = Vec::new();
    let mut idx: usize = 0;
    assert(fields.skip(0) =~= fields);
    assert(entries_view(out@) =~= Seq::<NameStatusEntry>::empty());
    while idx < parts.len()
        invariant
            idx <= parts@.len(),
            fields == parts@.map_values(|p: Vec<char>| p@),
            fields == nul_fields(text@),
            text@ == vstd::utf8::decode_utf8(bytes@),
            vstd::utf8::valid_utf8(bytes@),
            name_status_entries(fields) == prepend_entries(
                entries_view(out@),
                name_status_entries(fields.skip(idx as int)),
            ),
        decreases parts@.len() - idx,
    {
        let ghost rest = fields.skip(idx as int);
        let status_chars = &parts[idx];
        assert(rest[0] == status_chars@);
        let needed: usize = if status_chars.len() > 0 && (status_chars[0] == 'R'
            || status_chars[0] == 'C') {
            2
        } else {
            1
        };
        assert(needed == paths_needed(rest[0]));
        if needed > parts.len() - idx - 1 {
            assert(name_status_entries(rest) is None);
            return Err(KbError::backend_failed("unexpected git diff --name-status output"));
        }
        let status = string_of(status_chars.as_slice());
        let mut paths: Vec<String> = Vec::new();
        let mut k: usize = 0;
        let n = parts.len();
        while k < needed
            invariant
                n == parts@.len(),
                k <= needed,
                needed <= 2,
                idx + 1 + needed <= parts@.len(),
                fields == parts@.map_values(|p: Vec<char>| p@),
                paths@.map_values(|s: String| s@) == fields.subrange(idx + 1, idx + 1 + k),
            decreases needed - k,
        {
            let piece = string_of(parts[idx + 1 + k].as_slice());
            assert(piece@ == fields[idx + 1 + k]);
            let ghost prev = paths@.map_values(|s: String| s@);
            paths.push(piece);
            assert(paths@.map_values(|s: String| s@) =~= prev.push(piece@));
            assert(paths@.map_values(|s: String| s@) =~= fields.subrange(idx + 1, idx + 1 + k + 1));
            k += 1;
        }
        let ghost before = entries_view(out@);
        out.push((status, paths));
        proof {
            assert(rest.skip(1 + needed) =~= fields.skip(idx + 1 + needed));
            assert(rest.subrange(1, 1 + needed as int) =~= fields.subrange(idx + 1, idx + 1 + needed));
            assert(entries_view(out@) =~= before + seq![(rest[0], rest.subrange(1, 1 + needed as int))]);
            match name_status_entries(fields.skip(idx + 1 + needed)) {
                Some(r) => {
                    assert(before + (seq![(rest[0], rest.subrange(1, 1 + needed as int))] + r) =~= entries_view(out@) + r);
                },
                None => {},
            }
        }
        idx = idx + 1 + needed;
    }
    proof {
        assert(fields.skip(idx as int) =~= Seq::<Chars>::empty());
        assert(entries_view(out@) + Seq::<NameStatusEntry>::empty() =~= entries_view(out@));
    }
    Ok(out)
}

/// The changes that one entry stands for: both paths of a rename, else the first path.
pub open spec fn entry_change_keys(e: NameStatusEntry) -> Seq<Seq<Chars>> {
    let kind = kind_of_status(e.0);
    if kind == ChangeKind::Rename && e.1.len() == 2 {
        seq![seq![e.1[0], change_kind_rank(kind)], seq![e.1[1], change_kind_rank(kind)]]
    } else if e.1.len() > 0 {
        seq![seq![e.1[0], change_kind_rank(kind)]]
    } else {
        Seq::empty()
    }
}

/// The (path, kind) keys of all entries, in order.
pub open spec fn change_keys(entries: Seq<NameStatusEntry>) -> Seq<Seq<Chars>>
    decreases entries.len(),
{
    if entries.len() == 0 {
        Seq::empty()
    } else {
        change_keys(entries.drop_last()) + entry_change_keys(entries.last())
    }
}

fn change_of(path: &String, kind: ChangeKind) -> (c: DiffPathChange)
    ensures
        c.key() == seq![path@, change_kind_rank(kind)],
{
    DiffPathChange { path: path.clone(), change_kind: kind }
}

/// The changed paths of a `git diff --name-status -z` output, sorted by path
/// and then kind, once each.
pub fn list_changed_paths(name_status: &[u8]) -> (r: Result<Vec<DiffPathChange>, KbError>)
    ensures
        r matches Ok(v) ==> parse_name_status(name_status@) matches Ok(entries) && sorted_key_set_of(
            keys_of(v@),
            change_keys(entries),
        ),
        r matches Err(e) ==> parse_name_status(name_status@) == Err::<Seq<NameStatusEntry>, KbErrorView>(e@),
{
    let parsed = parse_name_status_z(name_status)?;
    let ghost entries = entries_view(parsed@);
    let mut out: Vec<DiffPathChange> = Vec::new();
    let mut i: usize = 0;
    while i < parsed.len()
        invariant
            i <= parsed@.len(),
            entries == entries_view(parsed@),
            keys_of(out@) == change_keys(entries.take(i as int)),
        decreases parsed@.len() - i,
    {
        let (status, paths) = (&parsed[i].0, &parsed[i].1);
        let kind = change_kind_from_status(status.as_str());
        let ghost before = keys_of(out@);
        assert(entries.take(i + 1).drop_last() =~= entries.take(i as int));
        assert(entries.take(i + 1).last() == entries[i as int]);
        assert(entries[i as int].1.len() == paths@.len());
        if kind == ChangeKind::Rename && paths.len() == 2 {
            out.push(change_of(&paths[0], kind));
            out.push(change_of(&paths[1], kind));
            assert(keys_of(out@) =~= before + entry_change_keys(entries[i as int]));
        } else if paths.len() > 0 {
            out.push(change_of(&paths[0], kind));
            assert(keys_of(out@) =~= before + entry_change_keys(entries[i as int]));
        } else {
            assert(keys_of(out@) =~= before + entry_change_keys(entries[i as int]));
        }
        i += 1;
    }
    assert(entries.take(parsed@.len() as int) =~= entries);
    let ghost unsorted = out@;
    let sorted = sort_unique_by_key(out);
    proof {
        lemma_sorted_unique_keys(sorted@, unsorted);
    }
    Ok(sorted)
}

} // verus!
