//! `kb/gen/tree.jsonl`: one record per tracked file and per directory above one.
use vstd::prelude::*;

use crate::index::artifacts::{opt_view, TreeRecord, TreeRecordView};
use crate::order::{
    drawn_from_firsts, covers_keys, has_key, first_of_key, key_view, sort_dedup, sort_unique_by_key,
    strictly_sorted_by_key, views, SortKey,
};
use crate::text::{
    extend_strings, lemma_contains_concat, append_chars, chars_of, copy_str, eq_lit, join, split_char, split_chars, string_of, trim_end_char,
    trim_end_char_chars, after_last, Chars,
};

verus! {

/// The directories above a file, outermost first, each with a trailing `/`.
pub open spec fn parent_dir_list(path: Chars) -> Seq<Chars> {
    let parts = split_char(trim_end_char(path, '/'), '/');
    if parts.len() <= 1 {
        Seq::empty()
    } else {
        Seq::new((parts.len() - 1) as nat, |k: int| join(parts.take(k + 1), seq!['/']).push('/'))
    }
}

proof fn lemma_join_take_step(parts: Seq<Chars>, k: int)
    requires
        1 <= k < parts.len(),
    ensures
        join(parts.take(k + 1), seq!['/']) == join(parts.take(k), seq!['/']) + seq!['/'] + parts[k],
{
    let t = parts.take(k + 1);
    assert(t.drop_last() =~= parts.take(k));
    assert(t.last() == parts[k]);
}

pub fn parent_dirs(file_path: &str) -> (out: Vec<String>)
    ensures
        out@.map_values(|s: String| s@) == parent_dir_list(file_path@),
{
    let v = chars_of(file_path);
    let trimmed = trim_end_char_chars(v.as_slice(), '/');
    let parts = split_chars(trimmed.as_slice(), '/');
    let ghost pv = parts@.map_values(|p: Vec<char>| p@);
    let mut out: Vec<String> = Vec::new();
    if parts.len() <= 1 {
        assert(out@.map_values(|s: String| s@) =~= parent_dir_list(file_path@));
        return out;
    }
    let ghost target = parent_dir_list(file_path@);
    let mut current: Vec<char> = Vec::new();
    let mut k: usize = 0;
    while k < parts.len() - 1
        invariant
            parts@.len() >= 2,
            k <= parts@.len() - 1,
            pv == parts@.map_values(|p: Vec<char>| p@),
            pv == split_char(trim_end_char(file_path@, '/'), '/'),
            target == parent_dir_list(file_path@),
            target.len() == parts@.len() - 1,
            k == 0 ==> current@.len() == 0,
            k > 0 ==> current@ == join(pv.take(k as int), seq!['/']).push('/'),
            out@.map_values(|s: String| s@) == target.take(k as int),
        decreases parts@.len() - 1 - k,
    {
        append_chars(&mut current, parts[k].as_slice());
        current.push('/');
        proof {
            if k == 0 {
                assert(pv.take(1) =~= seq![pv[0]]);
                assert(current@ =~= join(pv.take(1), seq!['/']).push('/'));
            } else {
                lemma_join_take_step(pv, k as int);
                assert(current@ =~= join(pv.take(k + 1), seq!['/']).push('/'));
            }
        }
        let ghost prev = out@.map_values(|s: String| s@);
        out.push(string_of(current.as_slice()));
        assert(out@.map_values(|s: String| s@) =~= prev.push(current@));
        assert(target.take(k + 1) =~= target.take(k as int).push(target[k as int]));
        k += 1;
    }
    assert(target.take(k as int) =~= target);
    out
}

/// How many `\n` bytes `bytes` holds.
pub open spec fn newline_count(bytes: Seq<u8>) -> nat
    decreases bytes.len(),
{
    if bytes.len() == 0 {
        0
    } else {
        newline_count(bytes.drop_last()) + if bytes.last() == 10u8 { 1nat } else { 0nat }
    }
}

/// Lines of a file: its newlines, plus one for an unterminated last line.
pub open spec fn line_count(bytes: Seq<u8>) -> nat {
    if bytes.len() == 0 {
        0
    } else if bytes.last() == 10u8 {
        newline_count(bytes)
    } else {
        newline_count(bytes) + 1
    }
}

proof fn lemma_newline_count_bound(bytes: Seq<u8>)
    ensures
        newline_count(bytes) <= bytes.len(),
    decreases bytes.len(),
{
    if bytes.len() > 0 {
        lemma_newline_count_bound(bytes.drop_last());
    }
}

pub fn count_lines(bytes: &[u8]) -> (n: u64)
    ensures
        n == line_count(bytes@),
{
    if bytes.len() == 0 {
        return 0;
    }
    let mut count: u64 = 0;
    let mut i: usize = 0;
    while i < bytes.len()
        invariant
            i <= bytes@.len(),
            count == newline_count(bytes@.take(i as int)),
            count <= i,
        decreases bytes@.len() - i,
    {
        assert(bytes@.take(i + 1).drop_last() =~= bytes@.take(i as int));
        if bytes[i] == 10u8 {
            count += 1;
        }
        i += 1;
    }
    assert(bytes@.take(bytes@.len() as int) =~= bytes@);
    if bytes[bytes.len() - 1] == 10u8 {
        count
    } else {
        proof {
            lemma_newline_count_bound(bytes@.drop_last());
            assert(newline_count(bytes@) == newline_count(bytes@.drop_last()));
        }
        count + 1
    }
}

/// The language that a file extension names in the tree.
pub open spec fn tree_lang_of_ext(ext: Chars) -> Chars {
    if ext == "rs"@ {
        "rust"@
    } else if ext == "go"@ {
        "go"@
    } else if ext == "py"@ {
        "python"@
    } else if ext == "js"@ || ext == "jsx"@ {
        "javascript"@
    } else if ext == "ts"@ || ext == "tsx"@ {
        "typescript"@
    } else if ext == "swift"@ {
        "swift"@
    } else if ext == "java"@ {
        "java"@
    } else if ext == "kt"@ || ext == "kts"@ {
        "kotlin"@
    } else if ext == "c"@ || ext == "h"@ {
        "c"@
    } else if ext == "cpp"@ || ext == "cc"@ || ext == "cxx"@ || ext == "hpp"@ || ext == "hh"@
        || ext == "hxx"@ {
        "cpp"@
    } else if ext == "toml"@ {
        "toml"@
    } else if ext == "json"@ {
        "json"@
    } else if ext == "yaml"@ || ext == "yml"@ {
        "yaml"@
    } else if ext == "md"@ {
        "markdown"@
    } else if ext == "sh"@ {
        "shell"@
    } else {
        "unknown"@
    }
}

/// The text after the last `.` of a path (all of it when it has none).
pub fn extension_of(path: &str) -> (ext: Vec<char>)
    ensures
        ext@ == after_last(path@, '.'),
{
    let v = chars_of(path);
    let parts = split_chars(v.as_slice(), '.');
    proof {
        crate::text::lemma_split_char_nonempty(path@, '.');
    }
    let last = &parts[parts.len() - 1];
    crate::text::sub_chars(last.as_slice(), 0, last.len())
}

pub fn lang_for_path(path: &str) -> (lang: String)
    ensures
        lang@ == tree_lang_of_ext(after_last(path@, '.')),
{
    let e = extension_of(path);
    let e = e.as_slice();
    let name = if eq_lit(e, "rs") {
        "rust"
    } else if eq_lit(e, "go") {
        "go"
    } else if eq_lit(e, "py") {
        "python"
    } else if eq_lit(e, "js") || eq_lit(e, "jsx") {
        "javascript"
    } else if eq_lit(e, "ts") || eq_lit(e, "tsx") {
        "typescript"
    } else if eq_lit(e, "swift") {
        "swift"
    } else if eq_lit(e, "java") {
        "java"
    } else if eq_lit(e, "kt") || eq_lit(e, "kts") {
        "kotlin"
    } else if eq_lit(e, "c") || eq_lit(e, "h") {
        "c"
    } else if eq_lit(e, "cpp") || eq_lit(e, "cc") || eq_lit(e, "cxx") || eq_lit(e, "hpp")
        || eq_lit(e, "hh") || eq_lit(e, "hxx") {
        "cpp"
    } else if eq_lit(e, "toml") {
        "toml"
    } else if eq_lit(e, "json") {
        "json"
    } else if eq_lit(e, "yaml") || eq_lit(e, "yml") {
        "yaml"
    } else if eq_lit(e, "md") {
        "markdown"
    } else if eq_lit(e, "sh") {
        "shell"
    } else {
        "unknown"
    };
    copy_str(name)
}

/// Directories sort before files of the same path.
pub open spec fn kind_weight_of(kind: Chars) -> u8 {
    if kind == "dir"@ {
        0
    } else {
        1
    }
}

pub fn kind_weight(kind: &str) -> (w: u8)
    ensures
        w == kind_weight_of(kind@),
{
    let k = chars_of(kind);
    if eq_lit(k.as_slice(), "dir") {
        0
    } else {
        1
    }
}

/// The order of tree records: by path, then directories first.
impl SortKey for TreeRecord {
    open spec fn key(&self) -> Seq<Chars> {
        seq![self.path@, if kind_weight_of(self.kind@) == 0 { seq!['0'] } else { seq!['1'] }]
    }

    fn exec_key(&self) -> (k: Vec<Vec<char>>) {
        let mut k: Vec<Vec<char>> = Vec::new();
        k.push(chars_of(self.path.as_str()));
        let mut w: Vec<char> = Vec::new();
        if kind_weight(self.kind.as_str()) == 0 {
            w.push('0');
        } else {
            w.push('1');
        }
        k.push(w);
        assert(key_view(k) =~= self.key());
        k
    }
}

/// The record of one file, from its path and contents.
pub open spec fn file_record_view(path: Chars, bytes: Seq<u8>) -> TreeRecordView {
    TreeRecordView {
        path,
        kind: "file"@,
        bytes: Some(bytes.len() as u64),
        lines: Some(line_count(bytes) as u64),
        lang: Some(tree_lang_of_ext(after_last(path, '.'))),
        top_symbols: None,
    }
}

/// The record of one directory.
pub open spec fn dir_record_view(path: Chars) -> TreeRecordView {
    TreeRecordView { path, kind: "dir"@, bytes: None, lines: None, lang: None, top_symbols: None }
}

pub fn file_tree_record(file_path: &str, bytes: &[u8]) -> (r: TreeRecord)
    ensures
        r@ == file_record_view(file_path@, bytes@),
{
    let lines = count_lines(bytes);
    let lang = lang_for_path(file_path);
    let r = TreeRecord {
        path: copy_str(file_path),
        kind: copy_str("file"),
        bytes: Some(bytes.len() as u64),
        lines: Some(lines),
        lang: Some(lang),
        top_symbols: None,
    };
    assert(opt_view(r.lang) == Some(lang@));
    r
}

pub fn dir_tree_record(dir: String) -> (r: TreeRecord)
    ensures
        r@ == dir_record_view(dir@),
{
    TreeRecord {
        path: dir,
        kind: copy_str("dir"),
        bytes: None,
        lines: None,
        lang: None,
        top_symbols: None,
    }
}

/// Some record of `out` has the key of `r`.
pub open spec fn covered_by(out: Seq<TreeRecord>, r: TreeRecord) -> bool {
    exists|i: int| 0 <= i < out.len() && has_key(#[trigger] out[i], r.key())
}

/// The paths of tree records.
pub open spec fn record_paths(files: Seq<TreeRecord>) -> Seq<Chars> {
    files.map_values(|f: TreeRecord| f.path@)
}

/// The directories above any of the given paths.
pub open spec fn is_parent_dir_of_some(d: Chars, paths: Seq<Chars>) -> bool {
    exists|i: int| 0 <= i < paths.len() && parent_dir_list(paths[i]).contains(d)
}

/// The directories above the paths of the given records (repeats allowed).
fn collect_parent_dirs(files: &Vec<TreeRecord>) -> (dirs: Vec<String>)
    ensures
        forall|x: Chars| views(dirs@).contains(x) <==> is_parent_dir_of_some(x, record_paths(files@)),
{
    let ghost fpaths = record_paths(files@);
    let mut dirs: Vec<String> = Vec::new();
    let mut i: usize = 0;
    while i < files.len()
        invariant
            i <= files@.len(),
            fpaths == record_paths(files@),
            forall|x: Chars| views(dirs@).contains(x) <==> exists|j: int| 0 <= j < i && parent_dir_list(fpaths[j]).contains(x),
        decreases files@.len() - i,
    {
        let more = parent_dirs(files[i].path.as_str());
        let ghost before = views(dirs@);
        extend_strings(&mut dirs, &more);
        proof {
            assert forall|x: Chars| views(dirs@).contains(x) <==> exists|j: int| 0 <= j < i + 1 && parent_dir_list(fpaths[j]).contains(x) by {
                lemma_contains_concat(before, views(more@), x);
                assert(views(more@) == parent_dir_list(fpaths[i as int]));
                if exists|j: int| 0 <= j < i + 1 && parent_dir_list(fpaths[j]).contains(x) {
                    let j = choose|j: int| 0 <= j < i + 1 && parent_dir_list(fpaths[j]).contains(x);
                    if j < i {
                        assert(before.contains(x));
                    }
                }
            }
        }
        i += 1;
    }
    dirs
}

proof fn lemma_tree_out_sources(
    out: Seq<TreeRecord>,
    everything: Seq<TreeRecord>,
    file_part: Seq<TreeRecord>,
    udv: Seq<Chars>,
)
    requires
        drawn_from_firsts(out, everything, 0),
        everything.len() == file_part.len() + udv.len(),
        everything.take(file_part.len() as int) == file_part,
        forall|q: int| 0 <= q < udv.len() ==> (#[trigger] everything[file_part.len() + q])@ == dir_record_view(udv[q]),
        forall|x: Chars| udv.contains(x) <==> is_parent_dir_of_some(x, record_paths(file_part)),
    ensures
        forall|i: int|
            0 <= i < out.len() ==> (exists|j: int| 0 <= j < file_part.len() && (#[trigger] out[i])@
                == file_part[j]@) || (out[i]@ == dir_record_view(out[i].path@)
                && is_parent_dir_of_some(out[i].path@, record_paths(file_part))),
{
    reveal(drawn_from_firsts);
    assert forall|i: int|
        0 <= i < out.len() implies (exists|j: int| 0 <= j < file_part.len() && (#[trigger] out[i])@
            == file_part[j]@) || (out[i]@ == dir_record_view(out[i].path@)
            && is_parent_dir_of_some(out[i].path@, record_paths(file_part))) by {
        assert(out[i] == out[i]);
        let j = choose|j: int| #![trigger everything[j]] first_of_key(everything, 0, j) && out[i] == everything[j];
        if j < file_part.len() {
            assert(everything.take(file_part.len() as int)[j] == everything[j]);
        } else {
            let q = j - file_part.len();
            assert(everything[file_part.len() + q]@ == dir_record_view(udv[q]));
            assert(udv.contains(udv[q]));
        }
    }
}

proof fn lemma_tree_out_files(out: Seq<TreeRecord>, everything: Seq<TreeRecord>, file_part: Seq<TreeRecord>)
    requires
        covers_keys(out, everything, 0),
        everything.len() >= file_part.len(),
        everything.take(file_part.len() as int) == file_part,
    ensures
        forall|j: int|
            0 <= j < file_part.len() ==> #[trigger] covered_by(out, file_part[j]),
{
    assert forall|j: int| 0 <= j < file_part.len() implies #[trigger] covered_by(out, file_part[j]) by {
        assert(everything.take(file_part.len() as int)[j] == everything[j]);
        let i = lemma_cover_one(out, everything, j);
        assert(has_key(out[i], file_part[j].key()));
    }
}

proof fn lemma_cover_one(out: Seq<TreeRecord>, everything: Seq<TreeRecord>, j: int) -> (i: int)
    requires
        covers_keys(out, everything, 0),
        0 <= j < everything.len(),
    ensures
        0 <= i < out.len(),
        out[i].key() == everything[j].key(),
{
    reveal(covers_keys);
    assert(everything[j] == everything[j]);
    choose|i: int| 0 <= i < out.len() && #[trigger] out[i].key() == everything[j].key()
}

proof fn lemma_tree_out_dirs(
    out: Seq<TreeRecord>,
    everything: Seq<TreeRecord>,
    file_part: Seq<TreeRecord>,
    udv: Seq<Chars>,
)
    requires
        covers_keys(out, everything, 0),
        everything.len() == file_part.len() + udv.len(),
        forall|q: int| 0 <= q < udv.len() ==> (#[trigger] everything[file_part.len() + q])@ == dir_record_view(udv[q]),
        forall|x: Chars| udv.contains(x) <==> is_parent_dir_of_some(x, record_paths(file_part)),
    ensures
        forall|d: Chars|
            #[trigger] is_parent_dir_of_some(d, record_paths(file_part)) ==> exists|i: int|
                0 <= i < out.len() && has_key(#[trigger] out[i], dir_record_view(d).path_key()),
{
    reveal(covers_keys);
    assert forall|dd: Chars| #[trigger] is_parent_dir_of_some(dd, record_paths(file_part)) implies exists|i: int|
            0 <= i < out.len() && has_key(#[trigger] out[i], dir_record_view(dd).path_key()) by {
        assert(udv.contains(dd));
        let q = choose|q: int| 0 <= q < udv.len() && udv[q] == dd;
        let idx = file_part.len() + q;
        assert(everything[idx] == everything[idx]);
        assert(everything[idx]@ == dir_record_view(dd));
    }
}

/// A tree built from `files`: sorted by key, each record one of the files or
/// the record of a directory above one of them.
pub open spec fn built_tree(out: Seq<TreeRecord>, files: Seq<TreeRecord>) -> bool {
    &&& strictly_sorted_by_key(out)
    &&& forall|i: int|
        0 <= i < out.len() ==> (exists|j: int| 0 <= j < files.len() && (#[trigger] out[i])@ == files[j]@) || (out[i]@
            == dir_record_view(out[i].path@) && is_parent_dir_of_some(
            out[i].path@,
            record_paths(files),
        ))
}

/// The tree: the given file records and a record for every directory above
/// one of them, sorted by path with a directory before a file of the same path.
pub fn tree_records(files: Vec<TreeRecord>) -> (out: Vec<TreeRecord>)
    ensures
        built_tree(out@, files@),
        forall|j: int| 0 <= j < files@.len() ==> #[trigger] covered_by(out@, files@[j]),
        forall|d: Chars|
            #[trigger] is_parent_dir_of_some(d, record_paths(files@)) ==> exists|i: int|
                0 <= i < out@.len() && has_key(#[trigger] out@[i], dir_record_view(d).path_key()),
{
    let dirs = collect_parent_dirs(&files);
    let unique_dirs = sort_dedup(dirs);
    let ghost udv = views(unique_dirs@);
    let ghost file_part = files@;
    let mut all = files;
    let mut d: usize = 0;
    while d < unique_dirs.len()
        invariant
            d <= unique_dirs@.len(),
            udv == views(unique_dirs@),
            all@.len() == file_part.len() + d,
            all@.take(file_part.len() as int) == file_part,
            forall|q: int| 0 <= q < d ==> (#[trigger] all@[file_part.len() + q])@ == dir_record_view(udv[q]),
        decreases unique_dirs@.len() - d,
    {
        let ghost prev = all@;
        all.push(dir_tree_record(unique_dirs[d].clone()));
        assert(all@.take(file_part.len() as int) =~= prev.take(file_part.len() as int));
        assert forall|q: int| 0 <= q < d + 1 implies (#[trigger] all@[file_part.len() + q])@ == dir_record_view(udv[q]) by {
            if q < d {
                assert(all@[file_part.len() + q] == prev[file_part.len() + q]);
            }
        }
        d += 1;
    }
    let ghost everything = all@;
    let out = sort_unique_by_key(all);
    proof {
        lemma_tree_out_sources(out@, everything, file_part, udv);
        lemma_tree_out_files(out@, everything, file_part);
        lemma_tree_out_dirs(out@, everything, file_part, udv);
    }
    out
}

impl TreeRecordView {
    /// The sort key of a record with this view.
    pub open spec fn path_key(self) -> Seq<Chars> {
        seq![self.path, if kind_weight_of(self.kind) == 0 { seq!['0'] } else { seq!['1'] }]
    }
}

} // verus!

verus! {

/// Each directory above a path that does not end in `/` starts that path
/// and ends in `/`.
pub proof fn lemma_parent_dir_prefix(p: Chars, d: Chars)
    requires
        p.len() == 0 || p.last() != '/',
        parent_dir_list(p).contains(d),
    ensures
        1 <= d.len() <= p.len(),
        p.take(d.len() as int) == d,
        d.last() == '/',
{
    assert(trim_end_char(p, '/') == p);
    let parts = split_char(p, '/');
    let dirs = parent_dir_list(p);
    let i = choose|i: int| 0 <= i < dirs.len() && dirs[i] == d;
    assert(d == join(parts.take(i + 1), seq!['/']).push('/'));
    crate::text::lemma_join_prefix(parts, i + 1, '/');
    crate::text::lemma_join_split(p, '/');
}

} // verus!
