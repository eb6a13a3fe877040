//! Context packs: the slice of the index, overlays and source that a diff or a
//! set of typed selectors needs, within a byte budget.
use vstd::prelude::*;

use crate::error::{ErrorCode, KbError, KbErrorView};
use crate::query::module_card::{ModuleCardToml, ModuleCardView};
use crate::index::artifacts::{
    dep_views, opt_view, symbol_views, tree_views, DepEdge, DepEdgeView, SymbolRecord, SymbolRecordView,
    TreeRecord, TreeRecordView,
};
use crate::order::{
    key_view, reversed, sort_dedup, sort_unique_by_key, sorted_set, sorted_unique_views, view_seq, views, SortKey,
};
use crate::repo::path::{parse_repo_path, RepoPath};
use crate::text::{
    append_chars, append_str, chars_of, contains_str, copy_str, decimal, decimal_string, join, push_char, split_char,
    split_chars, str_eq, string_of, Chars,
};

verus! {

/// Lines longer than this are replaced by a marker.
pub const SNIPPET_HARD_LINE_CHARS: usize = 2000;

/// How many characters a marker keeps from the start of a long line.
pub const SNIPPET_HEAD_CHARS: usize = 160;

/// How many characters a marker keeps from the end of a long line.
pub const SNIPPET_TAIL_CHARS: usize = 80;

/// Drops trailing spaces and tabs.
pub open spec fn trim_end_blanks(s: Chars) -> Chars
    decreases s.len(),
{
    if s.len() > 0 && (s.last() == ' ' || s.last() == '\t') {
        trim_end_blanks(s.drop_last())
    } else {
        s
    }
}

/// The escape of one character inside a marker field.
pub open spec fn marker_escape_char(c: char) -> Chars {
    if c == '\\' {
        seq!['\\', '\\']
    } else if c == '\'' {
        seq!['\\', '\'']
    } else if c == '\t' {
        seq!['\\', 't']
    } else if c == '\r' {
        seq!['\\', 'r']
    } else {
        seq![c]
    }
}

/// The escape of a marker field, character by character.
pub open spec fn marker_escape(s: Chars) -> Chars
    decreases s.len(),
{
    if s.len() == 0 {
        Seq::empty()
    } else {
        marker_escape(s.drop_last()) + marker_escape_char(s.last())
    }
}

/// Escapes a marker field: backslash, quote, tab and carriage return.
pub fn escape_snippet_marker_field(s: &[char]) -> (r: String)
    ensures
        r@ == marker_escape(s@),
{
    let mut r = String::new();
    let mut i: usize = 0;
    while i < s.len()
        invariant
            i <= s@.len(),
            r@ == marker_escape(s@.take(i as int)),
        decreases s@.len() - i,
    {
        let c = s[i];
        if c == '\\' {
            push_char(&mut r, '\\');
            push_char(&mut r, '\\');
        } else if c == '\'' {
            push_char(&mut r, '\\');
            push_char(&mut r, '\'');
        } else if c == '\t' {
            push_char(&mut r, '\\');
            push_char(&mut r, 't');
        } else if c == '\r' {
            push_char(&mut r, '\\');
            push_char(&mut r, 'r');
        } else {
            push_char(&mut r, c);
        }
        assert(s@.take(i + 1).drop_last() =~= s@.take(i as int));
        assert(s@.take(i + 1).last() == c);
        assert(r@ =~= marker_escape(s@.take(i + 1)));
        i += 1;
    }
    assert(s@.take(s@.len() as int) =~= s@);
    r
}

/// What a snippet shows of a source line: the line without trailing blanks,
/// or, beyond 2000 characters, a marker with its length, its first 160 and
/// its last 80 characters.
pub open spec fn gated_line(line: Chars) -> Chars {
    let t = trim_end_blanks(line);
    if t.len() <= 2000 {
        t
    } else {
        "[kb truncated chars="@ + decimal(t.len()) + " head='"@ + marker_escape(t.take(160)) + "' tail='"@
            + marker_escape(t.skip(t.len() - 80)) + "']"@
    }
}

/// Gates one snippet line (see `gated_line`).
pub fn gate_snippet_line(line: &str) -> (r: String)
    ensures
        r@ == gated_line(line@),
{
    let v = chars_of(line);
    let mut j: usize = v.len();
    assert(v@.take(v@.len() as int) =~= v@);
    while j > 0 && (v[j - 1] == ' ' || v[j - 1] == '\t')
        invariant
            j <= v@.len(),
            trim_end_blanks(v@) == trim_end_blanks(v@.take(j as int)),
        decreases j,
    {
        assert(v@.take(j as int).drop_last() =~= v@.take(j - 1));
        j -= 1;
    }
    assert(v@.take(v@.len() as int) =~= v@);
    let t = crate::text::sub_chars(v.as_slice(), 0, j);
    assert(trim_end_blanks(v@) == t@) by {
        if j > 0 {
            assert(t@.last() == v@[j - 1]);
        }
        assert(v@.take(j as int) == t@);
    }
    if t.len() <= SNIPPET_HARD_LINE_CHARS {
        return string_of(t.as_slice());
    }
    let head = crate::text::sub_chars(t.as_slice(), 0, SNIPPET_HEAD_CHARS);
    let tail = crate::text::sub_chars(t.as_slice(), t.len() - SNIPPET_TAIL_CHARS, t.len());
    assert(tail@ =~= t@.skip(t@.len() - 80));
    assert(head@ =~= t@.take(160));
    let mut r = copy_str("[kb truncated chars=");
    append_str(&mut r, decimal_string(t.len() as u64).as_str());
    append_str(&mut r, " head='");
    append_str(&mut r, escape_snippet_marker_field(head.as_slice()).as_str());
    append_str(&mut r, "' tail='");
    append_str(&mut r, escape_snippet_marker_field(tail.as_slice()).as_str());
    append_str(&mut r, "']");
    r
}

/// Line endings made `\n`: `\r\n` first, then a lone `\r`.
pub open spec fn normalized_text(s: Chars) -> Chars
    decreases s.len(),
{
    if s.len() == 0 {
        Seq::empty()
    } else if s.len() >= 2 && s[0] == '\r' && s[1] == '\n' {
        seq!['\n'] + normalized_text(s.skip(2))
    } else if s[0] == '\r' {
        seq!['\n'] + normalized_text(s.skip(1))
    } else {
        seq![s[0]] + normalized_text(s.skip(1))
    }
}

/// Makes line endings `\n`.
pub fn normalize_text(text: &str) -> (r: String)
    ensures
        r@ == normalized_text(text@),
{
    let v = chars_of(text);
    let mut out: Vec<char> = Vec::new();
    let mut i: usize = 0;
    assert(v@.skip(0) =~= v@);
    assert(out@ + normalized_text(v@) =~= normalized_text(v@));
    while i < v.len()
        invariant
            i <= v@.len(),
            out@ + normalized_text(v@.skip(i as int)) == normalized_text(v@),
        decreases v@.len() - i,
    {
        let ghost rest = v@.skip(i as int);
        if i + 1 < v.len() && v[i] == '\r' && v[i + 1] == '\n' {
            out.push('\n');
            assert(rest.skip(2) =~= v@.skip(i + 2));
            assert(out@ + normalized_text(v@.skip(i + 2)) =~= out@.drop_last() + normalized_text(rest));
            i += 2;
        } else if v[i] == '\r' {
            out.push('\n');
            assert(rest.skip(1) =~= v@.skip(i + 1));
            assert(out@ + normalized_text(v@.skip(i + 1)) =~= out@.drop_last() + normalized_text(rest));
            i += 1;
        } else {
            out.push(v[i]);
            assert(rest.skip(1) =~= v@.skip(i + 1));
            assert(out@ + normalized_text(v@.skip(i + 1)) =~= out@.drop_last() + normalized_text(rest));
            i += 1;
        }
    }
    assert(v@.skip(v@.len() as int) =~= Seq::<char>::empty());
    assert(out@ + Seq::<char>::empty() =~= out@);
    string_of(out.as_slice())
}

} // verus!

verus! {

/// A window of source around a symbol.
#[derive(Debug)]
pub struct Snippet {
    pub path: String,
    pub symbol_id: String,
    pub start_line: u64,
    pub end_line: u64,
    pub text: String,
}

pub struct SnippetView {
    pub path: Chars,
    pub symbol_id: Chars,
    pub start_line: u64,
    pub end_line: u64,
    pub text: Chars,
}

impl View for Snippet {
    type V = SnippetView;

    open spec fn view(&self) -> SnippetView {
        SnippetView {
            path: self.path@,
            symbol_id: self.symbol_id@,
            start_line: self.start_line,
            end_line: self.end_line,
            text: self.text@,
        }
    }
}

impl SortKey for Snippet {
    open spec fn key(&self) -> Seq<Chars> {
        seq![self.path@, self.symbol_id@]
    }

    fn exec_key(&self) -> (k: Vec<Vec<char>>) {
        let mut k: Vec<Vec<char>> = Vec::new();
        k.push(chars_of(self.path.as_str()));
        k.push(chars_of(self.symbol_id.as_str()));
        assert(key_view(k) =~= seq![self.path@, self.symbol_id@]);
        k
    }
}

/// The lines of a file as snippets count them: split on `\n`, without the
/// empty piece after a final `\n`.
pub open spec fn source_lines(text: Chars) -> Seq<Chars> {
    let parts = split_char(text, '\n');
    if text.len() > 0 && text.last() == '\n' { parts.drop_last() } else { parts }
}

pub open spec fn min_int(a: int, b: int) -> int {
    if a <= b { a } else { b }
}

pub open spec fn max_int(a: int, b: int) -> int {
    if a >= b { a } else { b }
}

/// The first line of a symbol's snippet.
pub open spec fn snippet_start(line: u64, total: int) -> int {
    min_int(max_int(line as int, 1), total)
}

/// The last line of a symbol's snippet: its end line, within `n` lines of its
/// start and within the file (`u64` arithmetic saturates).
pub open spec fn snippet_end(start: int, end_line: Option<u64>, n: u64, total: int) -> int {
    let max_end = min_int(max_int(min_int(start + n, u64::MAX as int) - 1, 0), total);
    let e = match end_line {
        Some(x) => x as int,
        None => max_end,
    };
    min_int(min_int(e, max_end), total)
}

/// A symbol's snippet in a file's text: lines start..=end, each gated; none
/// for an empty file or an empty range.
pub open spec fn snippet_in(text: Chars, n: u64, sym: SymbolRecordView) -> Option<SnippetView> {
    let ls = source_lines(text);
    let total = ls.len() as int;
    let start = snippet_start(sym.line, total);
    let end = snippet_end(start, sym.end_line, n, total);
    if total == 0 || end < start {
        None
    } else {
        Some(SnippetView {
            path: sym.path,
            symbol_id: sym.symbol_id,
            start_line: start as u64,
            end_line: end as u64,
            text: join(ls.subrange(start - 1, end).map_values(|l: Chars| gated_line(l)), "\n"@),
        })
    }
}

/// What building a symbol's snippet gives: nothing when snippets are off; an
/// error for a path that is not a repository path; nothing for a missing file;
/// a read error; else the snippet of the text.
pub open spec fn snippet_result(n: u64, sym: SymbolRecordView, text: Result<Chars, KbErrorView>) -> Result<Option<SnippetView>, KbErrorView> {
    if n == 0 {
        Ok(None)
    } else {
        match parse_repo_path(sym.path) {
            Err(e) => Err(e),
            Ok(_) => match text {
                Err(e) => if e.code == ErrorCode::NotFound { Ok(None) } else { Err(e) },
                Ok(t) => Ok(snippet_in(t, n, sym)),
            },
        }
    }
}

pub open spec fn text_view(t: Result<String, KbError>) -> Result<Chars, KbErrorView> {
    match t {
        Ok(s) => Ok(s@),
        Err(e) => Err(e@),
    }
}

pub open spec fn opt_snippet_view(s: Option<Snippet>) -> Option<SnippetView> {
    match s {
        Some(x) => Some(x@),
        None => None,
    }
}

fn snippet_bounds(line: u64, end_line: Option<u64>, n: u64, total: u64) -> (r: (u64, u64))
    requires
        total > 0,
    ensures
        r.0 == snippet_start(line, total as int),
        r.1 == snippet_end(r.0 as int, end_line, n, total as int),
{
    let start = if line < 1 { 1 } else { line };
    let start = if start > total { total } else { start };
    let max_end = start.saturating_add(n).saturating_sub(1);
    let max_end = if max_end > total { total } else { max_end };
    let e0 = match end_line {
        Some(x) => x,
        None => max_end,
    };
    let e1 = if e0 > max_end { max_end } else { e0 };
    let end = if e1 > total { total } else { e1 };
    (start, end)
}

fn gated_lines(parts: &Vec<Vec<char>>, from: usize, to: usize) -> (r: String)
    requires
        from <= to <= parts@.len(),
    ensures
        r@ == join(parts@.map_values(|p: Vec<char>| p@).subrange(from as int, to as int).map_values(|l: Chars| gated_line(l)), "\n"@),
{
    let ghost ls = parts@.map_values(|p: Vec<char>| p@);
    let ghost want = ls.subrange(from as int, to as int).map_values(|l: Chars| gated_line(l));
    let mut cleaned: Vec<String> = Vec::new();
    let mut k: usize = from;
    while k < to
        invariant
            from <= k <= to,
            to <= parts@.len(),
            ls == parts@.map_values(|p: Vec<char>| p@),
            want == ls.subrange(from as int, to as int).map_values(|l: Chars| gated_line(l)),
            views(cleaned@) == want.take(k - from),
        decreases to - k,
    {
        let line = string_of(parts[k].as_slice());
        let ghost prev = views(cleaned@);
        cleaned.push(gate_snippet_line(line.as_str()));
        assert(views(cleaned@) =~= prev.push(want[k - from]));
        assert(want.take(k + 1 - from) =~= want.take(k - from).push(want[k - from]));
        k += 1;
    }
    assert(want.take(to - from) =~= want);
    crate::text::join_strings(&cleaned, "\n")
}

/// The snippet of a symbol in a file's text (see `snippet_in`).
pub fn snippet_from_text(t: &str, snippet_lines: u64, sym: &SymbolRecord) -> (r: Option<Snippet>)
    ensures
        opt_snippet_view(r) == snippet_in(t@, snippet_lines, sym@),
{
    let tv = chars_of(t);
    let mut parts = split_chars(tv.as_slice(), '\n');
    proof {
        crate::text::lemma_split_char_nonempty(tv@, '\n');
    }
    if tv.len() > 0 && tv[tv.len() - 1] == '\n' {
        parts.pop();
    }
    let ghost ls = source_lines(t@);
    assert(parts@.map_values(|p: Vec<char>| p@) =~= ls);
    let total = parts.len() as u64;
    if total == 0 {
        return None;
    }
    let (start, end) = snippet_bounds(sym.line, sym.end_line, snippet_lines, total);
    if end < start {
        return None;
    }
    let text_out = gated_lines(&parts, (start - 1) as usize, end as usize);
    Some(Snippet {
        path: sym.path.clone(),
        symbol_id: sym.symbol_id.clone(),
        start_line: start,
        end_line: end,
        text: text_out,
    })
}

/// Builds a symbol's snippet from the text of its file (see `snippet_result`).
pub fn build_symbol_snippet(snippet_lines: u64, sym: &SymbolRecord, text: &Result<String, KbError>) -> (r: Result<Option<Snippet>, KbError>)
    ensures
        match r {
            Ok(s) => snippet_result(snippet_lines, sym@, text_view(*text)) == Ok::<Option<SnippetView>, KbErrorView>(opt_snippet_view(s)),
            Err(e) => snippet_result(snippet_lines, sym@, text_view(*text)) == Err::<Option<SnippetView>, KbErrorView>(e@),
        },
{
    if snippet_lines == 0 {
        return Ok(None);
    }
    let _p = RepoPath::parse(sym.path.as_str())?;
    match text {
        Err(e) => {
            if e.code == ErrorCode::NotFound {
                Ok(None)
            } else {
                Err(e.duplicate())
            }
        },
        Ok(t) => Ok(snippet_from_text(t.as_str(), snippet_lines, sym)),
    }
}

} // verus!

verus! {

// ---------------------------------------------------------------------------
// Expanding paths along dependency edges
// ---------------------------------------------------------------------------

/// The other ends of the edges that touch `cur`, in edge order: an edge
/// counts when it points at a path and both its ends are indexed files, and
/// it is walked both ways.
pub open spec fn neighbors(cur: Seq<Chars>, deps: Seq<DepEdgeView>, files: Seq<Chars>) -> Seq<Chars>
    decreases deps.len(),
{
    if deps.len() == 0 {
        Seq::empty()
    } else {
        let e = deps.last();
        let rest = neighbors(cur, deps.drop_last(), files);
        if e.to_path is Some && files.contains(e.from_path) && files.contains(e.to_path.unwrap()) {
            rest + (if cur.contains(e.from_path) { seq![e.to_path.unwrap()] } else { Seq::empty() }) + (if cur.contains(
                e.to_path.unwrap(),
            ) {
                seq![e.from_path]
            } else {
                Seq::empty()
            })
        } else {
            rest
        }
    }
}

/// The paths within `k` steps of the seeds (with repeats).
pub open spec fn level(seeds: Seq<Chars>, deps: Seq<DepEdgeView>, files: Seq<Chars>, k: nat) -> Seq<Chars>
    decreases k,
{
    if k == 0 {
        seeds
    } else {
        let p = level(seeds, deps, files, (k - 1) as nat);
        p + neighbors(p, deps, files)
    }
}

/// Neighbours depend only on which paths `cur` holds.
proof fn lemma_neighbors_members(c1: Seq<Chars>, c2: Seq<Chars>, deps: Seq<DepEdgeView>, files: Seq<Chars>)
    requires
        forall|x: Chars| #[trigger] c1.contains(x) <==> c2.contains(x),
    ensures
        neighbors(c1, deps, files) == neighbors(c2, deps, files),
    decreases deps.len(),
{
    if deps.len() > 0 {
        lemma_neighbors_members(c1, c2, deps.drop_last(), files);
        let e = deps.last();
        if e.to_path is Some {
            assert(c1.contains(e.from_path) == c2.contains(e.from_path));
            assert(c1.contains(e.to_path.unwrap()) == c2.contains(e.to_path.unwrap()));
        }
    }
}

proof fn lemma_level_step(seeds: Seq<Chars>, deps: Seq<DepEdgeView>, files: Seq<Chars>, k: nat)
    ensures
        level(seeds, deps, files, k + 1) == level(seeds, deps, files, k) + neighbors(level(seeds, deps, files, k), deps, files),
{
    let k1 = (k + 1) as nat;
    assert((k1 - 1) as nat == k);
}

/// Once a step adds nothing, no later step does.
proof fn lemma_level_fixpoint(seeds: Seq<Chars>, deps: Seq<DepEdgeView>, files: Seq<Chars>, k: nat, m: nat)
    requires
        k <= m,
        forall|x: Chars| #[trigger] level(seeds, deps, files, k + 1).contains(x) <==> level(seeds, deps, files, k).contains(x),
    ensures
        forall|x: Chars| #[trigger] level(seeds, deps, files, m).contains(x) <==> level(seeds, deps, files, k).contains(x),
    decreases m - k,
{
    if m > k {
        let p = (m - 1) as nat;
        lemma_level_fixpoint(seeds, deps, files, k, p);
        lemma_level_step(seeds, deps, files, p);
        lemma_level_step(seeds, deps, files, k);
        assert((p + 1) as nat == m);
        let lp = level(seeds, deps, files, p);
        let lk = level(seeds, deps, files, k);
        lemma_neighbors_members(lp, lk, deps, files);
        assert forall|x: Chars| #[trigger] level(seeds, deps, files, m).contains(x) <==> lk.contains(x) by {
            crate::text::lemma_contains_concat(lp, neighbors(lp, deps, files), x);
            crate::text::lemma_contains_concat(lk, neighbors(lk, deps, files), x);
            assert(level(seeds, deps, files, (k + 1) as nat).contains(x) <==> lk.contains(x));
        }
    }
}

fn step_once(cur: &Vec<String>, deps: &Vec<DepEdge>, files: &Vec<String>) -> (r: (Vec<String>, bool))
    ensures
        forall|x: Chars| #[trigger] views(r.0@).contains(x) <==> (views(cur@) + neighbors(views(cur@), dep_views(deps@), views(files@))).contains(x),
        !r.1 ==> forall|x: Chars| #[trigger] views(r.0@).contains(x) <==> views(cur@).contains(x),
{
    let ghost cv = views(cur@);
    let ghost dv = dep_views(deps@);
    let ghost fv = views(files@);
    let mut next = crate::text::copy_strings(cur);
    let mut grew = false;
    let mut j: usize = 0;
    assert(dv.take(0) =~= Seq::<DepEdgeView>::empty());
    while j < deps.len()
        invariant
            j <= deps@.len(),
            cv == views(cur@),
            dv == dep_views(deps@),
            fv == views(files@),
            forall|x: Chars| #[trigger] views(next@).contains(x) <==> (cv.contains(x) || neighbors(cv, dv.take(j as int), fv).contains(x)),
            !grew ==> forall|x: Chars| #[trigger] views(next@).contains(x) <==> cv.contains(x),
        decreases deps@.len() - j,
    {
        let e = &deps[j];
        let ghost prev = views(next@);
        let ghost before = neighbors(cv, dv.take(j as int), fv);
        assert(dv.take(j + 1).drop_last() =~= dv.take(j as int));
        assert(dv.take(j + 1).last() == e@);
        match &e.to_path {
            Some(to) => {
                if contains_str(files, e.from_path.as_str()) && contains_str(files, to.as_str()) {
                    let from_in = contains_str(cur, e.from_path.as_str());
                    let to_in = contains_str(cur, to.as_str());
                    let ghost add1: Seq<Chars> = if from_in { seq![to@] } else { Seq::empty() };
                    let ghost add2: Seq<Chars> = if to_in { seq![e.from_path@] } else { Seq::empty() };
                    assert(neighbors(cv, dv.take(j + 1), fv) == before + add1 + add2);
                    if from_in && !contains_str(&next, to.as_str()) {
                        next.push(to.clone());
                        grew = true;
                        assert(views(next@) =~= prev + seq![to@]);
                    }
                    let ghost mid = views(next@);
                    assert forall|y: Chars| #[trigger] mid.contains(y) <==> (prev.contains(y) || add1.contains(y)) by {
                        if from_in {
                            assert(add1[0] == to@);
                            crate::text::lemma_contains_concat(prev, seq![to@], y);
                        }
                    }
                    if to_in && !contains_str(&next, e.from_path.as_str()) {
                        next.push(e.from_path.clone());
                        grew = true;
                        assert(views(next@) =~= mid + seq![e.from_path@]);
                    }
                    assert forall|y: Chars| #[trigger] views(next@).contains(y) <==> (mid.contains(y) || add2.contains(y)) by {
                        if to_in {
                            assert(add2[0] == e.from_path@);
                            crate::text::lemma_contains_concat(mid, seq![e.from_path@], y);
                        }
                    }
                    assert forall|y: Chars| #[trigger] views(next@).contains(y) <==> (cv.contains(y) || neighbors(cv, dv.take(j + 1), fv).contains(y)) by {
                        crate::text::lemma_contains_concat(before + add1, add2, y);
                        crate::text::lemma_contains_concat(before, add1, y);
                    }
                    if !grew {
                        assert forall|y: Chars| #[trigger] views(next@).contains(y) <==> cv.contains(y) by {
                            if add1.contains(y) {
                                assert(y == to@);
                            }
                            if add2.contains(y) {
                                assert(y == e.from_path@);
                            }
                        }
                    }
                } else {
                    assert(neighbors(cv, dv.take(j + 1), fv) == before);
                }
            },
            None => {
                assert(neighbors(cv, dv.take(j + 1), fv) == before);
            },
        }
        j += 1;
    }
    assert(dv.take(deps@.len() as int) =~= dv);
    proof {
        assert forall|x: Chars| #[trigger] views(next@).contains(x) <==> (cv + neighbors(cv, dv, fv)).contains(x) by {
            crate::text::lemma_contains_concat(cv, neighbors(cv, dv, fv), x);
        }
    }
    (next, grew)
}

/// The paths within `radius` steps of the seeds along dependency edges
/// between indexed files, walked both ways; sorted, once each.
pub fn expand_paths(seeds: &Vec<String>, deps: &Vec<DepEdge>, files: &Vec<String>, radius: u32) -> (out: Vec<String>)
    ensures
        crate::order::strictly_sorted(views(out@)),
        forall|x: Chars| #[trigger] views(out@).contains(x) <==> level(views(seeds@), dep_views(deps@), views(files@), radius as nat).contains(x),
{
    let ghost sv = views(seeds@);
    let ghost dv = dep_views(deps@);
    let ghost fv = views(files@);
    let mut cur = sort_dedup(crate::text::copy_strings(seeds));
    let mut k: u32 = 0;
    let mut settled = false;
    while k < radius && !settled
        invariant
            k <= radius,
            sv == views(seeds@),
            dv == dep_views(deps@),
            fv == views(files@),
            crate::order::strictly_sorted(views(cur@)),
            forall|x: Chars| #[trigger] views(cur@).contains(x) <==> level(sv, dv, fv, k as nat).contains(x),
            settled ==> forall|x: Chars| #[trigger] level(sv, dv, fv, (k + 1) as nat).contains(x) <==> level(sv, dv, fv, k as nat).contains(x),
        decreases radius - k, if settled { 0int } else { 1int },
    {
        let (next, grew) = step_once(&cur, deps, files);
        proof {
            let lk = level(sv, dv, fv, k as nat);
            lemma_level_step(sv, dv, fv, k as nat);
            lemma_neighbors_members(views(cur@), lk, dv, fv);
            assert forall|x: Chars| #[trigger] views(next@).contains(x) <==> level(sv, dv, fv, (k + 1) as nat).contains(x) by {
                crate::text::lemma_contains_concat(views(cur@), neighbors(views(cur@), dv, fv), x);
                crate::text::lemma_contains_concat(lk, neighbors(lk, dv, fv), x);
            }
        }
        if !grew {
            assert forall|x: Chars| #[trigger] level(sv, dv, fv, (k + 1) as nat).contains(x) <==> level(sv, dv, fv, k as nat).contains(x) by {
                assert(views(next@).contains(x) <==> views(cur@).contains(x));
                assert(views(next@).contains(x) <==> level(sv, dv, fv, (k + 1) as nat).contains(x));
                assert(views(cur@).contains(x) <==> level(sv, dv, fv, k as nat).contains(x));
            }
            settled = true;
        } else {
            let sorted = sort_dedup(next);
            cur = sorted;
            k += 1;
        }
    }
    proof {
        if settled {
            lemma_level_fixpoint(sv, dv, fv, k as nat, radius as nat);
        }
    }
    cur
}

} // verus!

verus! {

// ---------------------------------------------------------------------------
// Selecting files
// ---------------------------------------------------------------------------

/// The changed paths that remain (not deleted) and are indexed files, in order.
pub open spec fn seed_candidates(changed: Seq<(Chars, Chars)>, files: Seq<Chars>) -> Seq<Chars>
    decreases changed.len(),
{
    if changed.len() == 0 {
        Seq::empty()
    } else {
        let c = changed.last();
        seed_candidates(changed.drop_last(), files) + if c.1 != "delete"@ && files.contains(c.0) {
            seq![c.0]
        } else {
            Seq::empty()
        }
    }
}

/// The changed files a diff pack starts from: not deleted, indexed; sorted, once each.
pub fn seed_paths_from_plan(changed: &Vec<crate::query::plan::ChangedPath>, files: &Vec<String>) -> (out: Vec<String>)
    ensures
        views(out@) == sorted_set(seed_candidates(view_seq(changed@), views(files@))),
{
    let ghost cv = view_seq(changed@);
    let mut picked: Vec<String> = Vec::new();
    let mut i: usize = 0;
    while i < changed.len()
        invariant
            i <= changed@.len(),
            cv == view_seq(changed@),
            views(picked@) == seed_candidates(cv.take(i as int), views(files@)),
        decreases changed@.len() - i,
    {
        assert(cv.take(i + 1).drop_last() =~= cv.take(i as int));
        assert(cv.take(i + 1).last() == changed@[i as int]@);
        let c = &changed[i];
        let ghost prev = views(picked@);
        if !str_eq(c.change_kind.as_str(), "delete") && contains_str(files, c.path.as_str()) {
            picked.push(c.path.clone());
            assert(views(picked@) =~= prev + seq![c.path@]);
        } else {
            assert(views(picked@) =~= prev + Seq::<Chars>::empty());
        }
        i += 1;
    }
    assert(cv.take(changed@.len() as int) =~= cv);
    let out = sort_dedup(picked);
    proof {
        crate::order::lemma_sorted_set_of_is(views(out@), views(picked@));
    }
    out
}

/// How deep, and how far, a directory selector expands.
pub const DIR_EXPAND_DEPTH: usize = 2;
pub const DIR_EXPAND_MAX_DIRS: usize = 200;
pub const DIR_EXPAND_MAX_FILES: usize = 200;
pub const DIR_EXPAND_MAX_SYMBOL_FILES: usize = 40;

/// What a directory selector brings in, from the table in path order: the
/// first 200 directories and 200 files at most two segments below it, and the
/// first 40 of those files for their symbols.
pub open spec fn dir_expansion(table: Seq<TreeRecordView>, prefix: Chars) -> (Seq<TreeRecordView>, Seq<Chars>, nat, nat)
    decreases table.len(),
{
    if table.len() == 0 {
        (Seq::empty(), Seq::empty(), 0, 0)
    } else {
        let (tree, syms, dirs, files) = dir_expansion(table.drop_last(), prefix);
        let r = table.last();
        if !crate::text::starts_with(r.path, prefix) || crate::query::describe::segment_count(r.path)
            > crate::query::describe::segment_count(prefix) + 2 {
            (tree, syms, dirs, files)
        } else if r.kind == "dir"@ {
            if dirs >= 200 { (tree, syms, dirs, files) } else { (tree.push(r), syms, dirs + 1, files) }
        } else if r.kind == "file"@ {
            if files >= 200 {
                (tree, syms, dirs, files)
            } else {
                (tree.push(r), if syms.len() < 40 { syms.push(r.path) } else { syms }, dirs, files + 1)
            }
        } else {
            (tree, syms, dirs, files)
        }
    }
}

/// Expands a directory selector (see `dir_expansion`).
pub fn expand_dir_tree(table: &Vec<crate::query::describe::ByPath>, prefix: &str) -> (r: (Vec<TreeRecord>, Vec<String>))
    ensures
        tree_views(r.0@) == dir_expansion(crate::query::describe::by_path_views(table@), prefix@).0,
        views(r.1@) == dir_expansion(crate::query::describe::by_path_views(table@), prefix@).1,
{
    let ghost tv = crate::query::describe::by_path_views(table@);
    let base = crate::query::describe::count_segments(prefix);
    let pchars = chars_of(prefix);
    let mut tree: Vec<TreeRecord> = Vec::new();
    let mut syms: Vec<String> = Vec::new();
    let mut dirs: usize = 0;
    let mut files: usize = 0;
    let mut i: usize = 0;
    assert(tv.take(0) =~= Seq::<TreeRecordView>::empty());
    while i < table.len()
        invariant
            i <= table@.len(),
            tv == crate::query::describe::by_path_views(table@),
            base == crate::query::describe::segment_count(prefix@),
            pchars@ == prefix@,
            dirs <= i,
            files <= i,
            dir_expansion(tv.take(i as int), prefix@) == (tree_views(tree@), views(syms@), dirs as nat, files as nat),
        decreases table@.len() - i,
    {
        assert(tv.take(i + 1).drop_last() =~= tv.take(i as int));
        assert(tv.take(i + 1).last() == table@[i as int]@);
        let r = &table[i].0;
        let p = chars_of(r.path.as_str());
        let segs = crate::query::describe::count_segments(r.path.as_str());
        let too_deep = segs > base && segs - base > DIR_EXPAND_DEPTH;
        let ghost pt = tree_views(tree@);
        let ghost ps = views(syms@);
        if crate::text::starts_with_chars(p.as_slice(), pchars.as_slice()) && !too_deep {
            if str_eq(r.kind.as_str(), "dir") {
                if dirs < DIR_EXPAND_MAX_DIRS {
                    dirs += 1;
                    tree.push(r.duplicate());
                    assert(tree_views(tree@) =~= pt.push(r@));
                }
            } else if str_eq(r.kind.as_str(), "file") {
                if files < DIR_EXPAND_MAX_FILES {
                    files += 1;
                    tree.push(r.duplicate());
                    assert(tree_views(tree@) =~= pt.push(r@));
                    if syms.len() < DIR_EXPAND_MAX_SYMBOL_FILES {
                        syms.push(r.path.clone());
                        assert(views(syms@) =~= ps.push(r.path@));
                    }
                }
            }
        }
        i += 1;
    }
    assert(tv.take(table@.len() as int) =~= tv);
    (tree, syms)
}

/// What a path selector names: the normalized path, and whether it is a
/// directory (a trailing `/`, or a directory record of that path).
pub open spec fn selector_path(table: Seq<TreeRecordView>, input: Chars) -> Result<(Chars, bool), KbErrorView> {
    let is_dir = crate::text::ends_with(crate::text::trim_end(input), seq!['/']);
    match parse_repo_path(crate::text::trim_end_char(crate::text::trim(input), '/')) {
        Err(e) => Err(e),
        Ok(p) => if is_dir {
            Ok((p, true))
        } else {
            match crate::query::describe::lookup_path(table, p.push('/')) {
                Some(r) => Ok((p, r.kind == "dir"@)),
                None => Ok((p, false)),
            }
        },
    }
}

/// Resolves a path selector (see `selector_path`).
pub fn resolve_selector_path(table: &Vec<crate::query::describe::ByPath>, input: &str) -> (r: Result<(String, bool), KbError>)
    ensures
        match r {
            Ok((p, d)) => selector_path(crate::query::describe::by_path_views(table@), input@) == Ok::<(Chars, bool), KbErrorView>((p@, d)),
            Err(e) => selector_path(crate::query::describe::by_path_views(table@), input@) == Err::<(Chars, bool), KbErrorView>(e@),
        },
{
    let v = chars_of(input);
    let te = crate::text::trim_end_chars(v.as_slice());
    let is_dir = te.len() > 0 && te[te.len() - 1] == '/';
    assert(is_dir == crate::text::ends_with(te@, seq!['/'])) by {
        if te@.len() > 0 {
            assert(te@.skip(te@.len() - 1) =~= seq![te@.last()]);
            if crate::text::ends_with(te@, seq!['/']) {
                assert(te@.skip(te@.len() - 1)[0] == '/');
            }
        }
    }
    let t = crate::text::trim_str(input);
    let stripped = string_of(crate::text::trim_end_char_chars(t.as_slice(), '/').as_slice());
    let p = RepoPath::parse(stripped.as_str())?;
    let norm = copy_str(p.as_str());
    if is_dir {
        return Ok((norm, true));
    }
    let mut key = norm.clone();
    push_char(&mut key, '/');
    match crate::query::describe::find_path(table, key.as_str()) {
        Some(i) => {
            let d = str_eq(table[i].0.kind.as_str(), "dir");
            Ok((norm, d))
        },
        None => Ok((norm, false)),
    }
}

/// The tree records with top symbols filled in for files (others unchanged).
pub open spec fn with_file_top_symbols(tree: Seq<TreeRecordView>, symbols: Seq<SymbolRecordView>) -> Seq<TreeRecordView> {
    tree.map_values(
        |r: TreeRecordView|
            if r.kind == "file"@ {
                TreeRecordView { top_symbols: Some(crate::query::describe::top_ids(symbols, r.path)), ..r }
            } else {
                r
            },
    )
}

/// Fills in the top symbols of the file records.
pub fn apply_top_symbols(tree: Vec<TreeRecord>, symbols: &Vec<SymbolRecord>) -> (out: Vec<TreeRecord>)
    ensures
        tree_views(out@) == with_file_top_symbols(tree_views(tree@), symbol_views(symbols@)),
{
    let ghost want = with_file_top_symbols(tree_views(tree@), symbol_views(symbols@));
    let n = tree.len();
    let mut rest = tree;
    let mut stack: Vec<TreeRecord> = Vec::new();
    let ghost start = tree_views(rest@);
    while rest.len() > 0
        invariant
            rest@.len() + stack@.len() == n,
            n == start.len(),
            forall|k: int| 0 <= k < rest@.len() ==> (#[trigger] rest@[k])@ == start[k],
            forall|k: int| 0 <= k < stack@.len() ==> (#[trigger] stack@[k])@ == start[n - 1 - k],
        decreases rest@.len(),
    {
        let x = rest.pop().unwrap();
        stack.push(x);
    }
    let mut out: Vec<TreeRecord> = Vec::new();
    while stack.len() > 0
        invariant
            out@.len() + stack@.len() == n,
            n == start.len(),
            want == with_file_top_symbols(start, symbol_views(symbols@)),
            forall|k: int| 0 <= k < stack@.len() ==> (#[trigger] stack@[k])@ == start[n - 1 - k],
            tree_views(out@) == want.take(out@.len() as int),
        decreases stack@.len(),
    {
        let r = stack.pop().unwrap();
        let ghost idx = out@.len() as int;
        assert(r@ == start[idx]);
        let ghost prev = tree_views(out@);
        if str_eq(r.kind.as_str(), "file") {
            let top = crate::query::describe::top_symbols_for(symbols, r.path.as_str());
            let rec = TreeRecord { top_symbols: Some(top), ..r };
            out.push(rec);
        } else {
            out.push(r);
        }
        assert(tree_views(out@) =~= prev.push(want[idx]));
        assert(want.take(idx + 1) =~= want.take(idx).push(want[idx]));
    }
    assert(want.take(n as int) =~= want);
    out
}

} // verus!

verus! {

// ---------------------------------------------------------------------------
// Pack outputs
// ---------------------------------------------------------------------------

/// The byte budget of a pack and the length of its snippets.
#[derive(Debug, Clone, Copy)]
pub struct Budgets {
    pub max_bytes: u64,
    pub snippet_lines: u64,
}

/// A module card as packed: its id, its path and its text (line endings
/// normalized).
#[derive(Debug)]
pub struct ModuleCard {
    pub module_id: String,
    pub path: String,
    pub text: String,
}

impl View for ModuleCard {
    type V = (Chars, Chars, Chars);

    open spec fn view(&self) -> (Chars, Chars, Chars) {
        (self.module_id@, self.path@, self.text@)
    }
}

impl SortKey for ModuleCard {
    open spec fn key(&self) -> Seq<Chars> {
        seq![self.module_id@]
    }

    fn exec_key(&self) -> (k: Vec<Vec<char>>) {
        let mut k: Vec<Vec<char>> = Vec::new();
        k.push(chars_of(self.module_id.as_str()));
        assert(key_view(k) =~= seq![self.module_id@]);
        k
    }
}

/// The plan part of a diff pack.
#[derive(Debug)]
pub struct PlanSummary {
    pub policy: String,
    pub changed_paths: Vec<crate::query::plan::ChangedPath>,
    pub affected_modules: Vec<String>,
    pub triggered_rules: Vec<crate::query::plan::TriggeredRule>,
    pub required: crate::query::plan::Required,
}

/// The typed selectors of a pack, as given.
#[derive(Debug, Default)]
pub struct SelectorInputs {
    pub paths: Vec<String>,
    pub modules: Vec<String>,
    pub symbols: Vec<String>,
    pub facts: Vec<String>,
}

/// The typed selectors of a pack, normalized.
#[derive(Debug)]
pub struct SelectorsSummary {
    pub paths: Vec<String>,
    pub modules: Vec<String>,
    pub symbols: Vec<String>,
    pub facts: Vec<String>,
}

/// A selector pack.
#[derive(Debug)]
pub struct PackSelectorsOutput {
    pub selectors: SelectorsSummary,
    pub budgets: Budgets,
    pub modules: Vec<ModuleCard>,
    pub facts: Vec<crate::json::JsonValue>,
    pub tree: Vec<TreeRecord>,
    pub symbols: Vec<SymbolRecord>,
    pub deps: Vec<DepEdge>,
    pub snippets: Vec<Snippet>,
}

/// A diff pack.
#[derive(Debug)]
pub struct PackDiffOutput {
    pub diff_source: String,
    pub radius: u32,
    pub budgets: Budgets,
    pub plan: PlanSummary,
    pub modules: Vec<ModuleCard>,
    pub facts: Vec<crate::json::JsonValue>,
    pub tree: Vec<TreeRecord>,
    pub symbols: Vec<SymbolRecord>,
    pub deps: Vec<DepEdge>,
    pub snippets: Vec<Snippet>,
}

/// Each selector list trimmed, without empty entries, sorted, once each.
pub fn summarize_selectors(selectors: &SelectorInputs) -> (out: SelectorsSummary)
    ensures
        views(out.paths@) == crate::overlay::norm_strings(views(selectors.paths@)),
        views(out.modules@) == crate::overlay::norm_strings(views(selectors.modules@)),
        views(out.symbols@) == crate::overlay::norm_strings(views(selectors.symbols@)),
        views(out.facts@) == crate::overlay::norm_strings(views(selectors.facts@)),
{
    SelectorsSummary {
        paths: crate::overlay::normalize_unique_strings(&selectors.paths),
        modules: crate::overlay::normalize_unique_strings(&selectors.modules),
        symbols: crate::overlay::normalize_unique_strings(&selectors.symbols),
        facts: crate::overlay::normalize_unique_strings(&selectors.facts),
    }
}

} // verus!

verus! {

// ---------------------------------------------------------------------------
// The byte budget
// ---------------------------------------------------------------------------

/// The lengths of a pack's six lists, in the order the budget sheds them:
/// snippets, deps, symbols, tree, facts, modules.
pub open spec fn shed_target(lens: Seq<nat>) -> int {
    if lens[0] > 0 {
        0
    } else if lens[1] > 0 {
        1
    } else if lens[2] > 0 {
        2
    } else if lens[3] > 0 {
        3
    } else if lens[4] > 0 {
        4
    } else if lens[5] > 0 {
        5
    } else {
        -1
    }
}

/// The error of a budget that cannot hold even the pack's fixed part.
pub open spec fn budget_error(max_bytes: u64) -> KbErrorView {
    crate::error::invalid_with("max_bytes is too small to fit required metadata"@, "max_bytes"@, decimal(max_bytes as nat))
}

/// `new` is `old` without its last element when `drop`, else `old`.
pub open spec fn shed_one<A>(new: Seq<A>, old: Seq<A>, drop: bool) -> bool {
    if drop { new == old.drop_last() } else { new == old }
}

/// One step of fitting a pack into its budget, given the size of its
/// serialized form: `Ok(true)` when it fits (nothing changes); else the last
/// element of the first non-empty list (snippets, deps, symbols, tree,
/// facts, modules) is dropped and `Ok(false)` returned; an error when all
/// six are empty.
fn shed_lists(
    size: u64,
    max_bytes: u64,
    snippets: &mut Vec<Snippet>,
    deps: &mut Vec<DepEdge>,
    symbols: &mut Vec<SymbolRecord>,
    tree: &mut Vec<TreeRecord>,
    facts: &mut Vec<crate::json::JsonValue>,
    modules: &mut Vec<ModuleCard>,
) -> (r: Result<bool, KbError>)
    ensures
        ({
            let lens = seq![
                old(snippets)@.len(),
                old(deps)@.len(),
                old(symbols)@.len(),
                old(tree)@.len(),
                old(facts)@.len(),
                old(modules)@.len(),
            ];
            let t = if size <= max_bytes { -1int } else { shed_target(lens) };
            &&& shed_one(final(snippets)@, old(snippets)@, t == 0)
            &&& shed_one(final(deps)@, old(deps)@, t == 1)
            &&& shed_one(final(symbols)@, old(symbols)@, t == 2)
            &&& shed_one(final(tree)@, old(tree)@, t == 3)
            &&& shed_one(final(facts)@, old(facts)@, t == 4)
            &&& shed_one(final(modules)@, old(modules)@, t == 5)
            &&& if size <= max_bytes {
                r == Ok::<bool, KbError>(true)
            } else if t >= 0 {
                r == Ok::<bool, KbError>(false)
            } else {
                r matches Err(e) && e@ == budget_error(max_bytes)
            }
        }),
{
    if size <= max_bytes {
        return Ok(true);
    }
    if snippets.len() > 0 {
        snippets.pop();
        return Ok(false);
    }
    if deps.len() > 0 {
        deps.pop();
        return Ok(false);
    }
    if symbols.len() > 0 {
        symbols.pop();
        return Ok(false);
    }
    if tree.len() > 0 {
        tree.pop();
        return Ok(false);
    }
    if facts.len() > 0 {
        facts.pop();
        return Ok(false);
    }
    if modules.len() > 0 {
        modules.pop();
        return Ok(false);
    }
    let n = decimal_string(max_bytes);
    Err(KbError::invalid_with_detail("max_bytes is too small to fit required metadata", "max_bytes", n.as_str()))
}

/// The lengths of a selector pack's lists in shedding order.
pub open spec fn selectors_lens(out: PackSelectorsOutput) -> Seq<nat> {
    seq![
        out.snippets@.len(),
        out.deps@.len(),
        out.symbols@.len(),
        out.tree@.len(),
        out.facts@.len(),
        out.modules@.len(),
    ]
}

/// The lengths of a diff pack's lists in shedding order.
pub open spec fn diff_lens(out: PackDiffOutput) -> Seq<nat> {
    seq![
        out.snippets@.len(),
        out.deps@.len(),
        out.symbols@.len(),
        out.tree@.len(),
        out.facts@.len(),
        out.modules@.len(),
    ]
}

/// One step of fitting a selector pack into `budgets.max_bytes`, given the
/// size of its serialized form (see `shed_lists`); the selectors and budgets
/// never change.
pub fn shed_selectors_pack(out: &mut PackSelectorsOutput, size: u64) -> (r: Result<bool, KbError>)
    ensures
        ({
            let t = if size <= old(out).budgets.max_bytes { -1int } else { shed_target(selectors_lens(*old(out))) };
            &&& final(out).selectors == old(out).selectors
            &&& final(out).budgets == old(out).budgets
            &&& shed_one(final(out).snippets@, old(out).snippets@, t == 0)
            &&& shed_one(final(out).deps@, old(out).deps@, t == 1)
            &&& shed_one(final(out).symbols@, old(out).symbols@, t == 2)
            &&& shed_one(final(out).tree@, old(out).tree@, t == 3)
            &&& shed_one(final(out).facts@, old(out).facts@, t == 4)
            &&& shed_one(final(out).modules@, old(out).modules@, t == 5)
            &&& if size <= old(out).budgets.max_bytes {
                r == Ok::<bool, KbError>(true)
            } else if t >= 0 {
                r == Ok::<bool, KbError>(false)
            } else {
                r matches Err(e) && e@ == budget_error(old(out).budgets.max_bytes)
            }
        }),
{
    let max_bytes = out.budgets.max_bytes;
    shed_lists(size, max_bytes, &mut out.snippets, &mut out.deps, &mut out.symbols, &mut out.tree, &mut out.facts, &mut out.modules)
}

/// One step of fitting a diff pack into `budgets.max_bytes`, given the size
/// of its serialized form (see `shed_lists`); the header, budgets and plan
/// never change.
pub fn shed_diff_pack(out: &mut PackDiffOutput, size: u64) -> (r: Result<bool, KbError>)
    ensures
        ({
            let t = if size <= old(out).budgets.max_bytes { -1int } else { shed_target(diff_lens(*old(out))) };
            &&& final(out).diff_source == old(out).diff_source
            &&& final(out).radius == old(out).radius
            &&& final(out).budgets == old(out).budgets
            &&& final(out).plan == old(out).plan
            &&& shed_one(final(out).snippets@, old(out).snippets@, t == 0)
            &&& shed_one(final(out).deps@, old(out).deps@, t == 1)
            &&& shed_one(final(out).symbols@, old(out).symbols@, t == 2)
            &&& shed_one(final(out).tree@, old(out).tree@, t == 3)
            &&& shed_one(final(out).facts@, old(out).facts@, t == 4)
            &&& shed_one(final(out).modules@, old(out).modules@, t == 5)
            &&& if size <= old(out).budgets.max_bytes {
                r == Ok::<bool, KbError>(true)
            } else if t >= 0 {
                r == Ok::<bool, KbError>(false)
            } else {
                r matches Err(e) && e@ == budget_error(old(out).budgets.max_bytes)
            }
        }),
{
    let max_bytes = out.budgets.max_bytes;
    shed_lists(size, max_bytes, &mut out.snippets, &mut out.deps, &mut out.symbols, &mut out.tree, &mut out.facts, &mut out.modules)
}

} // verus!

verus! {

// ---------------------------------------------------------------------------
// Module cards of a pack
// ---------------------------------------------------------------------------

/// A read of a module card: the file's text and what parsing it gave, or the
/// read's error.
pub open spec fn card_read_view(r: Result<(String, Result<ModuleCardToml, String>), KbError>) -> Result<
    (Chars, Result<ModuleCardView, Chars>),
    KbErrorView,
> {
    match r {
        Err(e) => Err(e@),
        Ok((t, p)) => Ok(
            (
                t@,
                match p {
                    Ok(c) => Ok(c@),
                    Err(m) => Err(m@),
                },
            ),
        ),
    }
}

pub open spec fn card_read_views(rs: Seq<Result<(String, Result<ModuleCardToml, String>), KbError>>) -> Seq<
    Result<(Chars, Result<ModuleCardView, Chars>), KbErrorView>,
> {
    rs.map_values(|r: Result<(String, Result<ModuleCardToml, String>), KbError>| card_read_view(r))
}

/// The error of a module card that does not parse.
pub open spec fn card_parse_error(id: Chars, cause: Chars) -> KbErrorView {
    crate::error::invalid_with2("failed to parse module card"@, "cause"@, cause, "module_id"@, id)
}

/// Reading the cards of the module selectors `ids` (with `reads[i]` the read
/// of the card of `ids[i]`), in order: the first error (a card path that is
/// not a repository path, a failed read, a card that does not parse); else
/// the cards found (id, path, normalized text), and, card after card, their
/// entrypoints and edit points, and their related facts. A missing card is
/// skipped.
pub open spec fn selector_cards(ids: Seq<Chars>, reads: Seq<Result<(Chars, Result<ModuleCardView, Chars>), KbErrorView>>) -> Result<
    (Seq<(Chars, Chars, Chars)>, Seq<Chars>, Seq<Chars>),
    KbErrorView,
>
    decreases ids.len(),
{
    if ids.len() == 0 {
        Ok((Seq::empty(), Seq::empty(), Seq::empty()))
    } else {
        let id = ids.last();
        match selector_cards(ids.drop_last(), reads) {
            Err(e) => Err(e),
            Ok((cards, ps, fs)) => match parse_repo_path(crate::overlay::module_card_path(id)) {
                Err(e) => Err(e),
                Ok(_) => match reads[ids.len() - 1] {
                    Err(e) => if e.code == ErrorCode::NotFound { Ok((cards, ps, fs)) } else { Err(e) },
                    Ok((text, parsed)) => match parsed {
                        Err(cause) => Err(card_parse_error(id, cause)),
                        Ok(c) => Ok(
                            (
                                cards.push((id, crate::overlay::module_card_path(id), normalized_text(text))),
                                ps + c.entrypoints + c.edit_points,
                                fs + c.related_facts,
                            ),
                        ),
                    },
                },
            },
        }
    }
}

proof fn lemma_selector_cards_error_stays(
    ids: Seq<Chars>,
    reads: Seq<Result<(Chars, Result<ModuleCardView, Chars>), KbErrorView>>,
    n: int,
    e: KbErrorView,
)
    requires
        0 <= n <= ids.len(),
        selector_cards(ids.take(n), reads) == Err::<(Seq<(Chars, Chars, Chars)>, Seq<Chars>, Seq<Chars>), KbErrorView>(e),
    ensures
        selector_cards(ids, reads) == Err::<(Seq<(Chars, Chars, Chars)>, Seq<Chars>, Seq<Chars>), KbErrorView>(e),
    decreases ids.len() - n,
{
    if n < ids.len() {
        assert(ids.take(n + 1).drop_last() =~= ids.take(n));
        lemma_selector_cards_error_stays(ids, reads, n + 1, e);
    } else {
        assert(ids.take(n) =~= ids);
    }
}

fn card_error(id: &str, cause: &str) -> (e: KbError)
    ensures
        e@ == card_parse_error(id@, cause@),
{
    let e1 = KbError::invalid_with_detail("failed to parse module card", "cause", cause);
    let e = e1.with_detail("module_id", id);
    proof {
        let x = seq!["cause"@, cause@];
        let y = seq!["module_id"@, id@];
        reveal_strlit("cause");
        reveal_strlit("module_id");
        assert(x[0] != y[0]) by {
            assert(x[0][0] != y[0][0]);
        }
        assert(crate::order::chars_lt(x[0], y[0])) by {
            reveal(crate::order::chars_lt);
        }
        assert(crate::order::key_lt(x, y)) by {
            reveal(crate::order::key_lt);
        }
        assert(e1@.details == seq![x]);
        assert(Seq::<Seq<Chars>>::empty().push(x).push(y) =~= seq![x, y]);
        assert(seq![x].push(y) =~= seq![x, y]);
        crate::error::lemma_two_sorted(e@.details, x, y);
    }
    e
}

/// Reads the cards of the module selectors (see `selector_cards`).
fn read_selector_cards(ids: &Vec<String>, reads: &Vec<Result<(String, Result<ModuleCardToml, String>), KbError>>) -> (r: Result<
    (Vec<ModuleCard>, Vec<String>, Vec<String>),
    KbError,
>)
    requires
        ids@.len() == reads@.len(),
    ensures
        match r {
            Ok((cards, ps, fs)) => selector_cards(views(ids@), card_read_views(reads@)) == Ok::<
                (Seq<(Chars, Chars, Chars)>, Seq<Chars>, Seq<Chars>),
                KbErrorView,
            >((view_seq(cards@), views(ps@), views(fs@))),
            Err(e) => selector_cards(views(ids@), card_read_views(reads@)) == Err::<
                (Seq<(Chars, Chars, Chars)>, Seq<Chars>, Seq<Chars>),
                KbErrorView,
            >(e@),
        },
{
    let ghost iv = views(ids@);
    let ghost rv = card_read_views(reads@);
    let mut cards: Vec<ModuleCard> = Vec::new();
    let mut ps: Vec<String> = Vec::new();
    let mut fs: Vec<String> = Vec::new();
    let mut i: usize = 0;
    assert(iv.take(0) =~= Seq::<Chars>::empty());
    assert(view_seq(cards@) =~= Seq::<(Chars, Chars, Chars)>::empty());
    assert(views(ps@) =~= Seq::<Chars>::empty());
    assert(views(fs@) =~= Seq::<Chars>::empty());
    while i < ids.len()
        invariant
            i <= ids@.len(),
            ids@.len() == reads@.len(),
            iv == views(ids@),
            rv == card_read_views(reads@),
            selector_cards(iv.take(i as int), rv) == Ok::<(Seq<(Chars, Chars, Chars)>, Seq<Chars>, Seq<Chars>), KbErrorView>(
                (view_seq(cards@), views(ps@), views(fs@)),
            ),
        decreases ids@.len() - i,
    {
        assert(iv.take(i + 1).drop_last() =~= iv.take(i as int));
        assert(iv.take(i + 1).last() == ids@[i as int]@);
        assert(iv.take(i + 1).len() == i + 1);
        assert(rv[i as int] == card_read_view(reads@[i as int]));
        let id = ids[i].as_str();
        let rel = crate::policy::obligations::module_card_rel_path(id);
        match RepoPath::parse(rel.as_str()) {
            Err(e) => {
                proof {
                    lemma_selector_cards_error_stays(iv, rv, i + 1, e@);
                }
                return Err(e);
            },
            Ok(_) => {},
        }
        match &reads[i] {
            Err(e) => {
                if e.code == ErrorCode::NotFound {
                } else {
                    let e2 = e.duplicate();
                    proof {
                        lemma_selector_cards_error_stays(iv, rv, i + 1, e2@);
                    }
                    return Err(e2);
                }
            },
            Ok((text, parsed)) => {
                match parsed {
                    Err(cause) => {
                        let e = card_error(id, cause.as_str());
                        proof {
                            lemma_selector_cards_error_stays(iv, rv, i + 1, e@);
                        }
                        return Err(e);
                    },
                    Ok(c) => {
                        let ghost pc = view_seq(cards@);
                        cards.push(ModuleCard { module_id: ids[i].clone(), path: rel, text: normalize_text(text.as_str()) });
                        assert(view_seq(cards@) =~= pc.push(view_seq(cards@).last()));
                        crate::text::extend_strings(&mut ps, &c.entrypoints);
                        crate::text::extend_strings(&mut ps, &c.edit_points);
                        crate::text::extend_strings(&mut fs, &c.related_facts);
                    },
                }
            },
        }
        i += 1;
    }
    assert(iv.take(ids@.len() as int) =~= iv);
    Ok((cards, ps, fs))
}

} // verus!

verus! {

// ---------------------------------------------------------------------------
// What selectors bring in
// ---------------------------------------------------------------------------

/// The table key of a resolved path selector: a directory's path ends in `/`.
pub open spec fn dir_key(n: Chars, is_dir: bool) -> Chars {
    if is_dir && !crate::text::ends_with(n, seq!['/']) {
        n.push('/')
    } else {
        n
    }
}

/// What the path selectors bring in, in order, from the path table: the
/// first error resolving one; else the tree records (the record of each
/// selected path, then for a directory its expansion) and the files whose
/// symbols come along (a selected file, or a directory's symbol files).
pub open spec fn path_selection(table: Seq<TreeRecordView>, paths: Seq<Chars>) -> Result<(Seq<TreeRecordView>, Seq<Chars>), KbErrorView>
    decreases paths.len(),
{
    if paths.len() == 0 {
        Ok((Seq::empty(), Seq::empty()))
    } else {
        match path_selection(table, paths.drop_last()) {
            Err(e) => Err(e),
            Ok((t, sp)) => match selector_path(table, paths.last()) {
                Err(e) => Err(e),
                Ok((n, is_dir)) => {
                    let key = dir_key(n, is_dir);
                    let t1 = match crate::query::describe::lookup_path(table, key) {
                        Some(r) => t.push(r),
                        None => t,
                    };
                    if is_dir {
                        Ok((t1 + dir_expansion(table, key).0, sp + dir_expansion(table, key).1))
                    } else {
                        Ok((t1, sp.push(key)))
                    }
                },
            },
        }
    }
}

proof fn lemma_path_selection_error_stays(table: Seq<TreeRecordView>, paths: Seq<Chars>, n: int, e: KbErrorView)
    requires
        0 <= n <= paths.len(),
        path_selection(table, paths.take(n)) == Err::<(Seq<TreeRecordView>, Seq<Chars>), KbErrorView>(e),
    ensures
        path_selection(table, paths) == Err::<(Seq<TreeRecordView>, Seq<Chars>), KbErrorView>(e),
    decreases paths.len() - n,
{
    if n < paths.len() {
        assert(paths.take(n + 1).drop_last() =~= paths.take(n));
        lemma_path_selection_error_stays(table, paths, n + 1, e);
    } else {
        assert(paths.take(n) =~= paths);
    }
}

/// Resolves the path selectors (see `path_selection`).
fn select_paths(table: &Vec<crate::query::describe::ByPath>, paths: &Vec<String>) -> (r: Result<(Vec<TreeRecord>, Vec<String>), KbError>)
    ensures
        match r {
            Ok((t, sp)) => path_selection(crate::query::describe::by_path_views(table@), views(paths@)) == Ok::<
                (Seq<TreeRecordView>, Seq<Chars>),
                KbErrorView,
            >((tree_views(t@), views(sp@))),
            Err(e) => path_selection(crate::query::describe::by_path_views(table@), views(paths@)) == Err::<
                (Seq<TreeRecordView>, Seq<Chars>),
                KbErrorView,
            >(e@),
        },
{
    let ghost tv = crate::query::describe::by_path_views(table@);
    let ghost pv = views(paths@);
    let mut tree: Vec<TreeRecord> = Vec::new();
    let mut sp: Vec<String> = Vec::new();
    let mut i: usize = 0;
    assert(pv.take(0) =~= Seq::<Chars>::empty());
    assert(tree_views(tree@) =~= Seq::<TreeRecordView>::empty());
    assert(views(sp@) =~= Seq::<Chars>::empty());
    while i < paths.len()
        invariant
            i <= paths@.len(),
            tv == crate::query::describe::by_path_views(table@),
            pv == views(paths@),
            path_selection(tv, pv.take(i as int)) == Ok::<(Seq<TreeRecordView>, Seq<Chars>), KbErrorView>(
                (tree_views(tree@), views(sp@)),
            ),
        decreases paths@.len() - i,
    {
        assert(pv.take(i + 1).drop_last() =~= pv.take(i as int));
        assert(pv.take(i + 1).last() == paths@[i as int]@);
        let (n, is_dir) = match resolve_selector_path(table, paths[i].as_str()) {
            Err(e) => {
                proof {
                    lemma_path_selection_error_stays(tv, pv, i + 1, e@);
                }
                return Err(e);
            },
            Ok(x) => x,
        };
        let nv = chars_of(n.as_str());
        let key = if is_dir && !crate::text::ends_with_chars(nv.as_slice(), &['/']) {
            let mut k = n.clone();
            push_char(&mut k, '/');
            k
        } else {
            n
        };
        proof {
            assert(seq!['/'] =~= (['/'])@);
        }
        assert(key@ == dir_key(nv@, is_dir));
        let ghost pt = tree_views(tree@);
        match crate::query::describe::find_path(table, key.as_str()) {
            Some(j) => {
                tree.push(table[j].0.duplicate());
                assert(tree_views(tree@) =~= pt.push(table@[j as int]@));
            },
            None => {},
        }
        if is_dir {
            let (more_tree, more_syms) = expand_dir_tree(table, key.as_str());
            let ghost t1 = tree_views(tree@);
            let mut more_tree = more_tree;
            tree.append(&mut more_tree);
            assert(tree_views(tree@) =~= t1 + dir_expansion(tv, key@).0);
            crate::text::extend_strings(&mut sp, &more_syms);
        } else {
            let ghost ps = views(sp@);
            sp.push(key);
            assert(views(sp@) =~= ps.push(dir_key(nv@, is_dir)));
        }
        i += 1;
    }
    assert(pv.take(paths@.len() as int) =~= pv);
    Ok((tree, sp))
}

/// The last symbol with the id (what a map from id to symbol keeps).
pub open spec fn last_with_id(symbols: Seq<SymbolRecordView>, id: Chars) -> Option<SymbolRecordView>
    decreases symbols.len(),
{
    if symbols.len() == 0 {
        None
    } else if symbols.last().symbol_id == id {
        Some(symbols.last())
    } else {
        last_with_id(symbols.drop_last(), id)
    }
}

fn find_last_symbol(symbols: &Vec<SymbolRecord>, id: &str) -> (r: Option<usize>)
    ensures
        match r {
            Some(i) => i < symbols@.len() && last_with_id(symbol_views(symbols@), id@) == Some(symbols@[i as int]@),
            None => last_with_id(symbol_views(symbols@), id@) is None,
        },
{
    let ghost sv = symbol_views(symbols@);
    let mut i: usize = symbols.len();
    assert(sv.take(sv.len() as int) =~= sv);
    while i > 0
        invariant
            i <= symbols@.len(),
            sv == symbol_views(symbols@),
            last_with_id(sv, id@) == last_with_id(sv.take(i as int), id@),
        decreases i,
    {
        assert(sv.take(i as int).drop_last() =~= sv.take(i - 1));
        assert(sv.take(i as int).last() == symbols@[i - 1]@);
        if str_eq(symbols[i - 1].symbol_id.as_str(), id) {
            return Some(i - 1);
        }
        i -= 1;
    }
    None
}

/// What the symbol selectors bring in, in order: each selected symbol that
/// exists (the last record with its id), and the tree record of its file.
pub open spec fn symbol_selection(table: Seq<TreeRecordView>, symbols: Seq<SymbolRecordView>, ids: Seq<Chars>) -> (
    Seq<SymbolRecordView>,
    Seq<TreeRecordView>,
)
    decreases ids.len(),
{
    if ids.len() == 0 {
        (Seq::empty(), Seq::empty())
    } else {
        let (ps, ts) = symbol_selection(table, symbols, ids.drop_last());
        match last_with_id(symbols, ids.last()) {
            None => (ps, ts),
            Some(s) => (
                ps.push(s),
                match crate::query::describe::lookup_path(table, s.path) {
                    Some(r) => ts.push(r),
                    None => ts,
                },
            ),
        }
    }
}

/// Resolves the symbol selectors (see `symbol_selection`).
fn select_symbols(table: &Vec<crate::query::describe::ByPath>, symbols: &Vec<SymbolRecord>, ids: &Vec<String>) -> (r: (
    Vec<SymbolRecord>,
    Vec<TreeRecord>,
))
    ensures
        (symbol_views(r.0@), tree_views(r.1@)) == symbol_selection(
            crate::query::describe::by_path_views(table@),
            symbol_views(symbols@),
            views(ids@),
        ),
{
    let ghost tv = crate::query::describe::by_path_views(table@);
    let ghost sv = symbol_views(symbols@);
    let ghost iv = views(ids@);
    let mut picked: Vec<SymbolRecord> = Vec::new();
    let mut trees: Vec<TreeRecord> = Vec::new();
    let mut i: usize = 0;
    assert(iv.take(0) =~= Seq::<Chars>::empty());
    assert(symbol_views(picked@) =~= Seq::<SymbolRecordView>::empty());
    assert(tree_views(trees@) =~= Seq::<TreeRecordView>::empty());
    while i < ids.len()
        invariant
            i <= ids@.len(),
            tv == crate::query::describe::by_path_views(table@),
            sv == symbol_views(symbols@),
            iv == views(ids@),
            (symbol_views(picked@), tree_views(trees@)) == symbol_selection(tv, sv, iv.take(i as int)),
        decreases ids@.len() - i,
    {
        assert(iv.take(i + 1).drop_last() =~= iv.take(i as int));
        assert(iv.take(i + 1).last() == ids@[i as int]@);
        match find_last_symbol(symbols, ids[i].as_str()) {
            None => {},
            Some(j) => {
                let s = symbols[j].duplicate();
                let ghost pp = symbol_views(picked@);
                let ghost pt = tree_views(trees@);
                match crate::query::describe::find_path(table, s.path.as_str()) {
                    Some(k) => {
                        trees.push(table[k].0.duplicate());
                        assert(tree_views(trees@) =~= pt.push(table@[k as int]@));
                    },
                    None => {},
                }
                picked.push(s);
                assert(symbol_views(picked@) =~= pp.push(symbols@[j as int]@));
            },
        }
        i += 1;
    }
    assert(iv.take(ids@.len() as int) =~= iv);
    (picked, trees)
}

/// The symbols of a file, in order.
pub open spec fn symbols_at(symbols: Seq<SymbolRecordView>, path: Chars) -> Seq<SymbolRecordView>
    decreases symbols.len(),
{
    if symbols.len() == 0 {
        Seq::empty()
    } else {
        symbols_at(symbols.drop_last(), path) + if symbols.last().path == path {
            seq![symbols.last()]
        } else {
            Seq::empty()
        }
    }
}

/// The symbols of the files, file after file.
pub open spec fn symbols_in_paths(symbols: Seq<SymbolRecordView>, paths: Seq<Chars>) -> Seq<SymbolRecordView>
    decreases paths.len(),
{
    if paths.len() == 0 {
        Seq::empty()
    } else {
        symbols_in_paths(symbols, paths.drop_last()) + symbols_at(symbols, paths.last())
    }
}

/// The edges from a file, in order.
pub open spec fn edges_at(deps: Seq<DepEdgeView>, path: Chars) -> Seq<DepEdgeView>
    decreases deps.len(),
{
    if deps.len() == 0 {
        Seq::empty()
    } else {
        edges_at(deps.drop_last(), path) + if deps.last().from_path == path {
            seq![deps.last()]
        } else {
            Seq::empty()
        }
    }
}

/// The edges from the files, file after file.
pub open spec fn edges_in_paths(deps: Seq<DepEdgeView>, paths: Seq<Chars>) -> Seq<DepEdgeView>
    decreases paths.len(),
{
    if paths.len() == 0 {
        Seq::empty()
    } else {
        edges_in_paths(deps, paths.drop_last()) + edges_at(deps, paths.last())
    }
}

fn append_symbols_at(out: &mut Vec<SymbolRecord>, symbols: &Vec<SymbolRecord>, path: &str)
    ensures
        symbol_views(final(out)@) == symbol_views(old(out)@) + symbols_at(symbol_views(symbols@), path@),
{
    let ghost start = symbol_views(out@);
    let ghost sv = symbol_views(symbols@);
    let mut i: usize = 0;
    assert(sv.take(0) =~= Seq::<SymbolRecordView>::empty());
    assert(start + symbols_at(sv.take(0), path@) =~= start);
    while i < symbols.len()
        invariant
            i <= symbols@.len(),
            sv == symbol_views(symbols@),
            symbol_views(out@) == start + symbols_at(sv.take(i as int), path@),
        decreases symbols@.len() - i,
    {
        assert(sv.take(i + 1).drop_last() =~= sv.take(i as int));
        assert(sv.take(i + 1).last() == symbols@[i as int]@);
        let ghost prev = symbol_views(out@);
        if str_eq(symbols[i].path.as_str(), path) {
            out.push(symbols[i].duplicate());
            assert(symbol_views(out@) =~= prev.push(symbols@[i as int]@));
        } else {
            assert(symbol_views(out@) =~= prev + Seq::<SymbolRecordView>::empty());
        }
        i += 1;
    }
    assert(sv.take(symbols@.len() as int) =~= sv);
}

fn append_edges_at(out: &mut Vec<DepEdge>, deps: &Vec<DepEdge>, path: &str)
    ensures
        dep_views(final(out)@) == dep_views(old(out)@) + edges_at(dep_views(deps@), path@),
{
    let ghost start = dep_views(out@);
    let ghost dv = dep_views(deps@);
    let mut i: usize = 0;
    assert(dv.take(0) =~= Seq::<DepEdgeView>::empty());
    assert(start + edges_at(dv.take(0), path@) =~= start);
    while i < deps.len()
        invariant
            i <= deps@.len(),
            dv == dep_views(deps@),
            dep_views(out@) == start + edges_at(dv.take(i as int), path@),
        decreases deps@.len() - i,
    {
        assert(dv.take(i + 1).drop_last() =~= dv.take(i as int));
        assert(dv.take(i + 1).last() == deps@[i as int]@);
        let ghost prev = dep_views(out@);
        if str_eq(deps[i].from_path.as_str(), path) {
            out.push(deps[i].duplicate());
            assert(dep_views(out@) =~= prev.push(deps@[i as int]@));
        } else {
            assert(dep_views(out@) =~= prev + Seq::<DepEdgeView>::empty());
        }
        i += 1;
    }
    assert(dv.take(deps@.len() as int) =~= dv);
}

/// The symbols and the edges of the files.
fn symbols_and_edges_in(paths: &Vec<String>, symbols: &Vec<SymbolRecord>, deps: &Vec<DepEdge>, out_syms: &mut Vec<SymbolRecord>) -> (edges: Vec<DepEdge>)
    ensures
        symbol_views(final(out_syms)@) == symbol_views(old(out_syms)@) + symbols_in_paths(symbol_views(symbols@), views(paths@)),
        dep_views(edges@) == edges_in_paths(dep_views(deps@), views(paths@)),
{
    let ghost start = symbol_views(out_syms@);
    let ghost pv = views(paths@);
    let mut edges: Vec<DepEdge> = Vec::new();
    let mut i: usize = 0;
    assert(pv.take(0) =~= Seq::<Chars>::empty());
    assert(start + symbols_in_paths(symbol_views(symbols@), pv.take(0)) =~= start);
    assert(dep_views(edges@) =~= Seq::<DepEdgeView>::empty());
    while i < paths.len()
        invariant
            i <= paths@.len(),
            pv == views(paths@),
            symbol_views(out_syms@) == start + symbols_in_paths(symbol_views(symbols@), pv.take(i as int)),
            dep_views(edges@) == edges_in_paths(dep_views(deps@), pv.take(i as int)),
        decreases paths@.len() - i,
    {
        assert(pv.take(i + 1).drop_last() =~= pv.take(i as int));
        assert(pv.take(i + 1).last() == paths@[i as int]@);
        let ghost s0 = symbol_views(out_syms@);
        append_symbols_at(out_syms, symbols, paths[i].as_str());
        assert(symbol_views(out_syms@) =~= start + symbols_in_paths(symbol_views(symbols@), pv.take(i + 1)));
        append_edges_at(&mut edges, deps, paths[i].as_str());
        i += 1;
    }
    assert(pv.take(paths@.len() as int) =~= pv);
    edges
}

} // verus!

verus! {

/// `a` comes before `b` in a file's snippet order: by line, then by id.
pub open spec fn sym_before(a: SymbolRecordView, b: SymbolRecordView) -> bool {
    a.line < b.line || (a.line == b.line && crate::order::chars_lt(a.symbol_id, b.symbol_id))
}

/// The first symbol of a non-empty list in snippet order (the earliest of equals).
pub open spec fn earliest_min(g: Seq<SymbolRecordView>) -> SymbolRecordView
    decreases g.len(),
{
    if g.len() <= 1 {
        g[0]
    } else {
        let m = earliest_min(g.drop_last());
        if sym_before(g.last(), m) { g.last() } else { m }
    }
}

/// The symbol whose snippet stands for each file: the first of the file's
/// symbols in snippet order; files without symbols give none.
pub open spec fn file_snippet_symbols(syms: Seq<SymbolRecordView>, paths: Seq<Chars>) -> Seq<SymbolRecordView>
    decreases paths.len(),
{
    if paths.len() == 0 {
        Seq::empty()
    } else {
        let g = symbols_at(syms, paths.last());
        file_snippet_symbols(syms, paths.drop_last()) + if g.len() > 0 { seq![earliest_min(g)] } else { Seq::empty() }
    }
}

pub open spec fn opt_symbol_view(s: Option<SymbolRecord>) -> Option<SymbolRecordView> {
    match s {
        Some(x) => Some(x@),
        None => None,
    }
}

fn first_symbol_of_file(syms: &Vec<SymbolRecord>, path: &str) -> (r: Option<SymbolRecord>)
    ensures
        opt_symbol_view(r) == if symbols_at(symbol_views(syms@), path@).len() > 0 {
            Some(earliest_min(symbols_at(symbol_views(syms@), path@)))
        } else {
            None
        },
{
    let ghost sv = symbol_views(syms@);
    let mut best: Option<SymbolRecord> = None;
    let mut i: usize = 0;
    assert(sv.take(0) =~= Seq::<SymbolRecordView>::empty());
    while i < syms.len()
        invariant
            i <= syms@.len(),
            sv == symbol_views(syms@),
            opt_symbol_view(best) == if symbols_at(sv.take(i as int), path@).len() > 0 {
                Some(earliest_min(symbols_at(sv.take(i as int), path@)))
            } else {
                None
            },
        decreases syms@.len() - i,
    {
        assert(sv.take(i + 1).drop_last() =~= sv.take(i as int));
        assert(sv.take(i + 1).last() == syms@[i as int]@);
        let ghost g0 = symbols_at(sv.take(i as int), path@);
        let s = &syms[i];
        if str_eq(s.path.as_str(), path) {
            let ghost g1 = g0.push(s@);
            assert(symbols_at(sv.take(i + 1), path@) == g0 + seq![s@]);
            assert(g0 + seq![s@] =~= g1);
            assert(g1.drop_last() =~= g0);
            match &best {
                None => {
                    best = Some(s.duplicate());
                },
                Some(b) => {
                    let sid = chars_of(s.symbol_id.as_str());
                    let bid = chars_of(b.symbol_id.as_str());
                    let before = s.line < b.line || (s.line == b.line && crate::order::compare_chars(
                        sid.as_slice(),
                        bid.as_slice(),
                    ) < 0);
                    assert(before == sym_before(s@, b@));
                    if before {
                        best = Some(s.duplicate());
                    }
                },
            }
        } else {
            assert(symbols_at(sv.take(i + 1), path@) =~= g0 + Seq::<SymbolRecordView>::empty());
        }
        i += 1;
    }
    assert(sv.take(syms@.len() as int) =~= sv);
    best
}

/// The snippet symbols of the files (see `file_snippet_symbols`).
fn file_snippet_requests(syms: &Vec<SymbolRecord>, paths: &Vec<String>) -> (r: Vec<SymbolRecord>)
    ensures
        symbol_views(r@) == file_snippet_symbols(symbol_views(syms@), views(paths@)),
{
    let ghost pv = views(paths@);
    let mut out: Vec<SymbolRecord> = Vec::new();
    let mut i: usize = 0;
    assert(pv.take(0) =~= Seq::<Chars>::empty());
    assert(symbol_views(out@) =~= Seq::<SymbolRecordView>::empty());
    while i < paths.len()
        invariant
            i <= paths@.len(),
            pv == views(paths@),
            symbol_views(out@) == file_snippet_symbols(symbol_views(syms@), pv.take(i as int)),
        decreases paths@.len() - i,
    {
        assert(pv.take(i + 1).drop_last() =~= pv.take(i as int));
        assert(pv.take(i + 1).last() == paths@[i as int]@);
        let ghost prev = symbol_views(out@);
        match first_symbol_of_file(syms, paths[i].as_str()) {
            Some(s) => {
                out.push(s);
                assert(symbol_views(out@) =~= prev + seq![symbol_views(out@).last()]);
            },
            None => {
                assert(symbol_views(out@) =~= prev + Seq::<SymbolRecordView>::empty());
            },
        }
        i += 1;
    }
    assert(pv.take(paths@.len() as int) =~= pv);
    out
}

/// What a selector pack selects before any source is read.
#[derive(Debug)]
pub struct SelectorSelection {
    /// The module cards found, in selector order.
    pub modules: Vec<ModuleCard>,
    /// The fact ids asked for, directly or through module cards.
    pub fact_ids: Vec<String>,
    /// The tree records brought in (with repeats).
    pub tree: Vec<TreeRecord>,
    /// The symbols brought in (with repeats).
    pub symbols: Vec<SymbolRecord>,
    /// The edges from the selected files.
    pub deps: Vec<DepEdge>,
    /// The symbols whose snippets the pack holds, in order.
    pub snippet_symbols: Vec<SymbolRecord>,
    /// All the symbol records of the index.
    pub all_symbols: Vec<SymbolRecord>,
}

pub struct SelectionView {
    pub modules: Seq<(Chars, Chars, Chars)>,
    pub fact_ids: Seq<Chars>,
    pub tree: Seq<TreeRecordView>,
    pub symbols: Seq<SymbolRecordView>,
    pub deps: Seq<DepEdgeView>,
    pub snippet_symbols: Seq<SymbolRecordView>,
    pub all_symbols: Seq<SymbolRecordView>,
}

impl View for SelectorSelection {
    type V = SelectionView;

    open spec fn view(&self) -> SelectionView {
        SelectionView {
            modules: view_seq(self.modules@),
            fact_ids: views(self.fact_ids@),
            tree: tree_views(self.tree@),
            symbols: symbol_views(self.symbols@),
            deps: dep_views(self.deps@),
            snippet_symbols: symbol_views(self.snippet_symbols@),
            all_symbols: symbol_views(self.all_symbols@),
        }
    }
}

pub open spec fn selection_result(r: Result<SelectorSelection, KbError>) -> Result<SelectionView, KbErrorView> {
    match r {
        Ok(s) => Ok(s@),
        Err(e) => Err(e@),
    }
}

/// What selectors select, from the path table, the normalized selectors, the
/// reads of their module cards, and the symbol and dependency records: the
/// first error of the module cards, then of the path selectors; else the
/// cards found; the fact ids (selected, and related to the cards); the tree
/// records of the path selectors, then of the symbol selectors; the selected
/// symbols, then the symbols of the selected files (sorted, once each); the
/// edges from those files; the snippet symbols: the selected symbols, then
/// the first symbol of each selected file among those symbols.
pub open spec fn selection_spec(
    table: Seq<TreeRecordView>,
    paths: Seq<Chars>,
    modules: Seq<Chars>,
    symbol_ids: Seq<Chars>,
    facts: Seq<Chars>,
    reads: Seq<Result<(Chars, Result<ModuleCardView, Chars>), KbErrorView>>,
    symbols: Seq<SymbolRecordView>,
    deps: Seq<DepEdgeView>,
) -> Result<SelectionView, KbErrorView> {
    match selector_cards(modules, reads) {
        Err(e) => Err(e),
        Ok((cards, ps, fs)) => match path_selection(table, crate::overlay::norm_strings(paths + ps)) {
            Err(e) => Err(e),
            Ok((t1, sp_raw)) => {
                let sp = sorted_set(sp_raw);
                let (picked, t2) = symbol_selection(table, symbols, symbol_ids);
                let syms = picked + symbols_in_paths(symbols, sp);
                Ok(
                    SelectionView {
                        modules: cards,
                        fact_ids: crate::overlay::norm_strings(facts + fs),
                        tree: t1 + t2,
                        symbols: syms,
                        deps: edges_in_paths(deps, sp),
                        snippet_symbols: picked + file_snippet_symbols(syms, sp),
                        all_symbols: symbols,
                    },
                )
            },
        },
    }
}

/// Selects what normalized selectors bring into a pack (see
/// `selection_spec`); the path table is the tree records by path, the last
/// record of each path kept. `module_reads[i]` is the read of the card of
/// `selectors.modules[i]`.
pub fn select_for_selectors(
    selectors: &SelectorsSummary,
    module_reads: &Vec<Result<(String, Result<ModuleCardToml, String>), KbError>>,
    tree: Vec<TreeRecord>,
    symbols: Vec<SymbolRecord>,
    deps: Vec<DepEdge>,
) -> (r: Result<SelectorSelection, KbError>)
    requires
        module_reads@.len() == selectors.modules@.len(),
    ensures
        exists|table: Seq<crate::query::describe::ByPath>|
            #[trigger] sorted_unique_views(table, reversed(tree_views(tree@))) && selection_result(r) == selection_spec(
                crate::query::describe::by_path_views(table),
                views(selectors.paths@),
                views(selectors.modules@),
                views(selectors.symbols@),
                views(selectors.facts@),
                card_read_views(module_reads@),
                symbol_views(symbols@),
                dep_views(deps@),
            ),
{
    let ghost tv0 = tree_views(tree@);
    let table = crate::query::describe::tree_by_path(tree);
    let ghost tv = crate::query::describe::by_path_views(table@);
    let ghost want = selection_spec(
        tv,
        views(selectors.paths@),
        views(selectors.modules@),
        views(selectors.symbols@),
        views(selectors.facts@),
        card_read_views(module_reads@),
        symbol_views(symbols@),
        dep_views(deps@),
    );
    assert(sorted_unique_views(table@, reversed(tv0)));
    let (cards, ps, fs) = match read_selector_cards(&selectors.modules, module_reads) {
        Err(e) => {
            return Err(e);
        },
        Ok(x) => x,
    };
    let mut raw_paths = crate::text::copy_strings(&selectors.paths);
    crate::text::extend_strings(&mut raw_paths, &ps);
    let mut raw_facts = crate::text::copy_strings(&selectors.facts);
    crate::text::extend_strings(&mut raw_facts, &fs);
    let expanded_paths = crate::overlay::normalize_unique_strings(&raw_paths);
    let fact_ids = crate::overlay::normalize_unique_strings(&raw_facts);
    let (mut t1, sp_raw) = match select_paths(&table, &expanded_paths) {
        Err(e) => {
            return Err(e);
        },
        Ok(x) => x,
    };
    let sp = sort_dedup(sp_raw);
    proof {
        crate::order::lemma_sorted_set_of_is(views(sp@), views(sp_raw@));
    }
    let (picked, mut t2) = select_symbols(&table, &symbols, &selectors.symbols);
    let mut syms: Vec<SymbolRecord> = Vec::new();
    let mut k: usize = 0;
    while k < picked.len()
        invariant
            k <= picked@.len(),
            symbol_views(syms@) == symbol_views(picked@).take(k as int),
        decreases picked@.len() - k,
    {
        let ghost prev = symbol_views(syms@);
        syms.push(picked[k].duplicate());
        assert(symbol_views(syms@) =~= prev.push(picked@[k as int]@));
        assert(symbol_views(picked@).take(k + 1) =~= symbol_views(picked@).take(k as int).push(picked@[k as int]@));
        k += 1;
    }
    assert(symbol_views(picked@).take(picked@.len() as int) =~= symbol_views(picked@));
    let edges = symbols_and_edges_in(&sp, &symbols, &deps, &mut syms);
    let file_snips = file_snippet_requests(&syms, &sp);
    let mut snippet_symbols = picked;
    let ghost ps0 = symbol_views(snippet_symbols@);
    let mut file_snips = file_snips;
    snippet_symbols.append(&mut file_snips);
    assert(symbol_views(snippet_symbols@) =~= ps0 + file_snippet_symbols(symbol_views(syms@), views(sp@)));
    let ghost tt1 = tree_views(t1@);
    t1.append(&mut t2);
    assert(tree_views(t1@) =~= tt1 + symbol_selection(tv, symbol_views(symbols@), views(selectors.symbols@)).1);
    let out = SelectorSelection {
        modules: cards,
        fact_ids,
        tree: t1,
        symbols: syms,
        deps: edges,
        snippet_symbols,
        all_symbols: symbols,
    };
    assert(views(raw_paths@) == views(selectors.paths@) + views(ps@));
    assert(views(raw_facts@) == views(selectors.facts@) + views(fs@));
    assert(selection_result(Ok::<SelectorSelection, KbError>(out)) == want);
    Ok(out)
}

} // verus!

verus! {

// ---------------------------------------------------------------------------
// Snippets, facts, and the final order of a pack
// ---------------------------------------------------------------------------

pub open spec fn text_views(ts: Seq<Result<String, KbError>>) -> Seq<Result<Chars, KbErrorView>> {
    ts.map_values(|t: Result<String, KbError>| text_view(t))
}

/// Building the snippets of the requested symbols in order, `texts[i]` being
/// the read of the file of `reqs[i]`: the first error, else the snippets built.
pub open spec fn snippets_spec(n: u64, reqs: Seq<SymbolRecordView>, texts: Seq<Result<Chars, KbErrorView>>) -> Result<Seq<SnippetView>, KbErrorView>
    decreases reqs.len(),
{
    if reqs.len() == 0 {
        Ok(Seq::empty())
    } else {
        match snippets_spec(n, reqs.drop_last(), texts) {
            Err(e) => Err(e),
            Ok(done) => match snippet_result(n, reqs.last(), texts[reqs.len() - 1]) {
                Err(e) => Err(e),
                Ok(None) => Ok(done),
                Ok(Some(s)) => Ok(done.push(s)),
            },
        }
    }
}

proof fn lemma_snippets_error_stays(n: u64, reqs: Seq<SymbolRecordView>, texts: Seq<Result<Chars, KbErrorView>>, k: int, e: KbErrorView)
    requires
        0 <= k <= reqs.len(),
        snippets_spec(n, reqs.take(k), texts) == Err::<Seq<SnippetView>, KbErrorView>(e),
    ensures
        snippets_spec(n, reqs, texts) == Err::<Seq<SnippetView>, KbErrorView>(e),
    decreases reqs.len() - k,
{
    if k < reqs.len() {
        assert(reqs.take(k + 1).drop_last() =~= reqs.take(k));
        lemma_snippets_error_stays(n, reqs, texts, k + 1, e);
    } else {
        assert(reqs.take(k) =~= reqs);
    }
}

/// Builds the snippets of the requested symbols (see `snippets_spec`).
pub fn build_snippets(snippet_lines: u64, reqs: &Vec<SymbolRecord>, texts: &Vec<Result<String, KbError>>) -> (r: Result<Vec<Snippet>, KbError>)
    requires
        texts@.len() == reqs@.len(),
    ensures
        match r {
            Ok(v) => snippets_spec(snippet_lines, symbol_views(reqs@), text_views(texts@)) == Ok::<Seq<SnippetView>, KbErrorView>(view_seq(v@)),
            Err(e) => snippets_spec(snippet_lines, symbol_views(reqs@), text_views(texts@)) == Err::<Seq<SnippetView>, KbErrorView>(e@),
        },
{
    let ghost rv = symbol_views(reqs@);
    let ghost tv = text_views(texts@);
    let mut out: Vec<Snippet> = Vec::new();
    let mut i: usize = 0;
    assert(rv.take(0) =~= Seq::<SymbolRecordView>::empty());
    assert(view_seq(out@) =~= Seq::<SnippetView>::empty());
    while i < reqs.len()
        invariant
            i <= reqs@.len(),
            texts@.len() == reqs@.len(),
            rv == symbol_views(reqs@),
            tv == text_views(texts@),
            snippets_spec(snippet_lines, rv.take(i as int), tv) == Ok::<Seq<SnippetView>, KbErrorView>(view_seq(out@)),
        decreases reqs@.len() - i,
    {
        assert(rv.take(i + 1).drop_last() =~= rv.take(i as int));
        assert(rv.take(i + 1).last() == reqs@[i as int]@);
        assert(tv[i as int] == text_view(texts@[i as int]));
        let ghost prev = view_seq(out@);
        match build_symbol_snippet(snippet_lines, &reqs[i], &texts[i]) {
            Err(e) => {
                proof {
                    lemma_snippets_error_stays(snippet_lines, rv, tv, i + 1, e@);
                }
                return Err(e);
            },
            Ok(None) => {},
            Ok(Some(s)) => {
                out.push(s);
                assert(view_seq(out@) =~= prev.push(view_seq(out@).last()));
            },
        }
        i += 1;
    }
    assert(rv.take(reqs@.len() as int) =~= rv);
    Ok(out)
}

/// The records whose fact id is among `ids`, in order.
pub open spec fn facts_with_ids(recs: Seq<crate::json::JsonValue>, ids: Seq<Chars>) -> Seq<crate::json::JsonValue>
    decreases recs.len(),
{
    if recs.len() == 0 {
        Seq::empty()
    } else {
        facts_with_ids(recs.drop_last(), ids) + if crate::json::str_field(recs.last(), "fact_id"@) matches Some(s) && ids.contains(s) {
            seq![recs.last()]
        } else {
            Seq::empty()
        }
    }
}

/// The facts a selector pack brings in: none without fact ids; else, from
/// the read of the facts file (a missing file holds none), the first parse
/// error, then the first record without a string `fact_id`, then without a
/// string `type`; else the records with a selected id.
pub open spec fn selected_facts(
    ids: Seq<Chars>,
    facts: Result<Seq<Result<crate::json::JsonValue, Chars>>, KbErrorView>,
) -> Result<Seq<crate::json::JsonValue>, KbErrorView> {
    if ids.len() == 0 {
        Ok(Seq::empty())
    } else {
        match facts {
            Err(e) => if e.code == ErrorCode::NotFound { Ok(Seq::empty()) } else { Err(e) },
            Ok(lines) => match crate::query::read::collected(lines, "failed to parse jsonl"@) {
                Err(e) => Err(e),
                Ok(recs) => match crate::facts::records_check(recs, crate::facts::RecordCheck::IdThenType) {
                    Err(e) => Err(e),
                    Ok(_) => Ok(facts_with_ids(recs, ids)),
                },
            },
        }
    }
}

fn keep_facts_with_ids(recs: Vec<crate::json::JsonValue>, ids: &Vec<String>) -> (r: Vec<crate::json::JsonValue>)
    ensures
        r@ == facts_with_ids(recs@, views(ids@)),
{
    let ghost rv = recs@;
    let n = recs.len();
    let mut rest = recs;
    let mut stack: Vec<crate::json::JsonValue> = Vec::new();
    while rest.len() > 0
        invariant
            rest@.len() + stack@.len() == n,
            n == rv.len(),
            forall|k: int| 0 <= k < rest@.len() ==> #[trigger] rest@[k] == rv[k],
            forall|k: int| 0 <= k < stack@.len() ==> #[trigger] stack@[k] == rv[n - 1 - k],
        decreases rest@.len(),
    {
        let x = rest.pop().unwrap();
        stack.push(x);
    }
    let mut out: Vec<crate::json::JsonValue> = Vec::new();
    let mut i: usize = 0;
    assert(rv.take(0) =~= Seq::<crate::json::JsonValue>::empty());
    while stack.len() > 0
        invariant
            i + stack@.len() == n,
            n == rv.len(),
            forall|k: int| 0 <= k < stack@.len() ==> #[trigger] stack@[k] == rv[n - 1 - k],
            out@ == facts_with_ids(rv.take(i as int), views(ids@)),
        decreases stack@.len(),
    {
        let x = stack.pop().unwrap();
        assert(x == rv[i as int]);
        assert(rv.take(i + 1).drop_last() =~= rv.take(i as int));
        assert(rv.take(i + 1).last() == rv[i as int]);
        let keep = match crate::json::get_str_field(&x, "fact_id") {
            Some(s) => contains_str(ids, s),
            None => false,
        };
        let ghost prev = out@;
        if keep {
            out.push(x);
            assert(out@ =~= prev + seq![rv[i as int]]);
        } else {
            assert(out@ =~= prev + Seq::<crate::json::JsonValue>::empty());
        }
        i += 1;
    }
    assert(rv.take(n as int) =~= rv);
    out
}

/// The facts of a selector pack (see `selected_facts`).
fn select_facts(ids: &Vec<String>, facts: Result<Vec<Result<crate::json::JsonValue, String>>, KbError>) -> (r: Result<
    Vec<crate::json::JsonValue>,
    KbError,
>)
    ensures
        match r {
            Ok(v) => selected_facts(views(ids@), crate::query::list::facts_load_view(facts)) == Ok::<
                Seq<crate::json::JsonValue>,
                KbErrorView,
            >(v@),
            Err(e) => selected_facts(views(ids@), crate::query::list::facts_load_view(facts)) == Err::<
                Seq<crate::json::JsonValue>,
                KbErrorView,
            >(e@),
        },
{
    if ids.len() == 0 {
        return Ok(Vec::new());
    }
    let recs = match facts {
        Err(e) => {
            if e.code == ErrorCode::NotFound {
                return Ok(Vec::new());
            }
            return Err(e);
        },
        Ok(lines) => crate::query::read::collect_parsed(lines, "failed to parse jsonl")?,
    };
    crate::facts::check_records(&recs, crate::facts::RecordCheck::IdThenType)?;
    Ok(keep_facts_with_ids(recs, ids))
}

/// Sorts tree records by path, keeping the first of each path, then fills in
/// the top symbols of the files.
pub fn sort_tree_with_top_symbols(tree: &Vec<TreeRecord>, symbols: &Vec<SymbolRecord>) -> (out: Vec<TreeRecord>)
    ensures
        exists|t: Seq<crate::query::describe::ByPath>|
            #[trigger] sorted_unique_views(t, tree_views(tree@)) && tree_views(out@) == with_file_top_symbols(
                crate::query::describe::by_path_views(t),
                symbol_views(symbols@),
            ),
{
    let mut wrapped: Vec<crate::query::describe::ByPath> = Vec::new();
    let mut i: usize = 0;
    while i < tree.len()
        invariant
            i <= tree@.len(),
            crate::query::describe::by_path_views(wrapped@) == tree_views(tree@).take(i as int),
        decreases tree@.len() - i,
    {
        let ghost prev = crate::query::describe::by_path_views(wrapped@);
        wrapped.push(crate::query::describe::ByPath(tree[i].duplicate()));
        assert(crate::query::describe::by_path_views(wrapped@) =~= prev.push(tree@[i as int]@));
        assert(tree_views(tree@).take(i + 1) =~= tree_views(tree@).take(i as int).push(tree@[i as int]@));
        i += 1;
    }
    assert(tree_views(tree@).take(tree@.len() as int) =~= tree_views(tree@));
    let ghost w = wrapped@;
    let sorted = sort_unique_by_key(wrapped);
    assert(w.map_values(|x: crate::query::describe::ByPath| x@) =~= tree_views(tree@));
    assert(sorted_unique_views(sorted@, tree_views(tree@)));
    let mut plain: Vec<TreeRecord> = Vec::new();
    let mut j: usize = 0;
    while j < sorted.len()
        invariant
            j <= sorted@.len(),
            tree_views(plain@) == crate::query::describe::by_path_views(sorted@).take(j as int),
        decreases sorted@.len() - j,
    {
        let ghost prev = tree_views(plain@);
        plain.push(sorted[j].0.duplicate());
        assert(tree_views(plain@) =~= prev.push(sorted@[j as int]@));
        assert(crate::query::describe::by_path_views(sorted@).take(j + 1) =~= crate::query::describe::by_path_views(
            sorted@,
        ).take(j as int).push(sorted@[j as int]@));
        j += 1;
    }
    assert(crate::query::describe::by_path_views(sorted@).take(sorted@.len() as int) =~= crate::query::describe::by_path_views(
        sorted@,
    ));
    apply_top_symbols(plain, symbols)
}

} // verus!

verus! {

/// The lists of a pack, from what was selected, the snippets built and the
/// facts brought in: modules sorted by id, facts by fact id, snippets by path
/// then symbol id, symbols by id (each once, the first kept); tree records
/// by path (once each) with the top symbols of files filled in; edges in
/// edge order with repeated neighbours dropped.
pub open spec fn pack_lists_hold(
    modules: Seq<ModuleCard>,
    facts: Seq<crate::json::JsonValue>,
    tree: Seq<TreeRecord>,
    symbols: Seq<SymbolRecord>,
    deps: Seq<DepEdge>,
    snippets: Seq<Snippet>,
    sel_modules: Seq<(Chars, Chars, Chars)>,
    sel_facts: Seq<crate::json::JsonValue>,
    sel_tree: Seq<TreeRecordView>,
    sel_symbols: Seq<SymbolRecordView>,
    sel_deps: Seq<DepEdgeView>,
    sel_snippets: Seq<SnippetView>,
    all_symbols: Seq<SymbolRecordView>,
) -> bool {
    &&& sorted_unique_views(modules, sel_modules)
    &&& crate::order::sorted_unique(facts, sel_facts)
    &&& (exists|t: Seq<crate::query::describe::ByPath>|
        #[trigger] sorted_unique_views(t, sel_tree) && tree_views(tree) == with_file_top_symbols(
            crate::query::describe::by_path_views(t),
            all_symbols,
        ))
    &&& sorted_unique_views(symbols, sel_symbols)
    &&& crate::index::deps::deps_listed(dep_views(deps), sel_deps)
    &&& sorted_unique_views(snippets, sel_snippets)
}

fn sort_modules(v: Vec<ModuleCard>) -> (out: Vec<ModuleCard>)
    ensures
        sorted_unique_views(out@, view_seq(v@)),
{
    let ghost w = v@;
    let out = sort_unique_by_key(v);
    assert(w.map_values(|x: ModuleCard| x@) =~= view_seq(w));
    out
}

fn sort_symbols(v: Vec<SymbolRecord>) -> (out: Vec<SymbolRecord>)
    ensures
        sorted_unique_views(out@, symbol_views(v@)),
{
    let ghost w = v@;
    let out = sort_unique_by_key(v);
    assert(w.map_values(|x: SymbolRecord| x@) =~= symbol_views(w));
    out
}

fn sort_snippets(v: Vec<Snippet>) -> (out: Vec<Snippet>)
    ensures
        sorted_unique_views(out@, view_seq(v@)),
{
    let ghost w = v@;
    let out = sort_unique_by_key(v);
    assert(w.map_values(|x: Snippet| x@) =~= view_seq(w));
    out
}

/// A selector pack from what its selectors selected (see
/// `select_for_selectors`): `snippet_texts[i]` is the read of the file of
/// the i-th snippet symbol, `facts` the read of the facts file. The first
/// error building the snippets, then bringing in the facts; else the pack
/// (see `pack_lists_hold`), before its budget is applied.
pub fn pack_selectors_at(
    selectors: SelectorsSummary,
    selection: SelectorSelection,
    snippet_texts: &Vec<Result<String, KbError>>,
    facts: Result<Vec<Result<crate::json::JsonValue, String>>, KbError>,
    max_bytes: u64,
    snippet_lines: u64,
) -> (r: Result<PackSelectorsOutput, KbError>)
    requires
        snippet_texts@.len() == selection.snippet_symbols@.len(),
    ensures
        match snippets_spec(snippet_lines, selection@.snippet_symbols, text_views(snippet_texts@)) {
            Err(e) => r matches Err(e2) && e2@ == e,
            Ok(snips) => match selected_facts(selection@.fact_ids, crate::query::list::facts_load_view(facts)) {
                Err(e) => r matches Err(e2) && e2@ == e,
                Ok(fs) => r matches Ok(out) && out.selectors == selectors && out.budgets == (Budgets {
                    max_bytes,
                    snippet_lines,
                }) && pack_lists_hold(
                    out.modules@,
                    out.facts@,
                    out.tree@,
                    out.symbols@,
                    out.deps@,
                    out.snippets@,
                    selection@.modules,
                    fs,
                    selection@.tree,
                    selection@.symbols,
                    selection@.deps,
                    snips,
                    selection@.all_symbols,
                ),
            },
        },
{
    let snippets = build_snippets(snippet_lines, &selection.snippet_symbols, snippet_texts)?;
    let picked = select_facts(&selection.fact_ids, facts)?;
    let ghost pf = picked@;
    let facts_out = sort_unique_by_key(picked);
    let tree = sort_tree_with_top_symbols(&selection.tree, &selection.all_symbols);
    let symbols = sort_symbols(selection.symbols);
    let deps = crate::index::deps::sorted_dep_edges(&selection.deps);
    assert(view_seq(selection.deps@) =~= dep_views(selection.deps@));
    let modules = sort_modules(selection.modules);
    let snippets = sort_snippets(snippets);
    Ok(
        PackSelectorsOutput {
            selectors,
            budgets: Budgets { max_bytes, snippet_lines },
            modules,
            facts: facts_out,
            tree,
            symbols,
            deps,
            snippets,
        },
    )
}

} // verus!

verus! {

// ---------------------------------------------------------------------------
// Diff packs
// ---------------------------------------------------------------------------

/// Reading the cards a plan requires, `reads[i]` being the read of the card
/// of `ids[i]`: the first error (a card path that is not a repository path,
/// a failed read); else the cards found (id, path, normalized text). A
/// missing card is skipped.
pub open spec fn required_cards(ids: Seq<Chars>, reads: Seq<Result<Chars, KbErrorView>>) -> Result<Seq<(Chars, Chars, Chars)>, KbErrorView>
    decreases ids.len(),
{
    if ids.len() == 0 {
        Ok(Seq::empty())
    } else {
        let id = ids.last();
        match required_cards(ids.drop_last(), reads) {
            Err(e) => Err(e),
            Ok(cards) => match parse_repo_path(crate::overlay::module_card_path(id)) {
                Err(e) => Err(e),
                Ok(_) => match reads[ids.len() - 1] {
                    Err(e) => if e.code == ErrorCode::NotFound { Ok(cards) } else { Err(e) },
                    Ok(t) => Ok(cards.push((id, crate::overlay::module_card_path(id), normalized_text(t)))),
                },
            },
        }
    }
}

proof fn lemma_required_cards_error_stays(ids: Seq<Chars>, reads: Seq<Result<Chars, KbErrorView>>, n: int, e: KbErrorView)
    requires
        0 <= n <= ids.len(),
        required_cards(ids.take(n), reads) == Err::<Seq<(Chars, Chars, Chars)>, KbErrorView>(e),
    ensures
        required_cards(ids, reads) == Err::<Seq<(Chars, Chars, Chars)>, KbErrorView>(e),
    decreases ids.len() - n,
{
    if n < ids.len() {
        assert(ids.take(n + 1).drop_last() =~= ids.take(n));
        lemma_required_cards_error_stays(ids, reads, n + 1, e);
    } else {
        assert(ids.take(n) =~= ids);
    }
}

fn read_required_cards(ids: &Vec<String>, reads: &Vec<Result<String, KbError>>) -> (r: Result<Vec<ModuleCard>, KbError>)
    requires
        ids@.len() == reads@.len(),
    ensures
        match r {
            Ok(cards) => required_cards(views(ids@), text_views(reads@)) == Ok::<Seq<(Chars, Chars, Chars)>, KbErrorView>(view_seq(cards@)),
            Err(e) => required_cards(views(ids@), text_views(reads@)) == Err::<Seq<(Chars, Chars, Chars)>, KbErrorView>(e@),
        },
{
    let ghost iv = views(ids@);
    let ghost rv = text_views(reads@);
    let mut cards: Vec<ModuleCard> = Vec::new();
    let mut i: usize = 0;
    assert(iv.take(0) =~= Seq::<Chars>::empty());
    assert(view_seq(cards@) =~= Seq::<(Chars, Chars, Chars)>::empty());
    while i < ids.len()
        invariant
            i <= ids@.len(),
            ids@.len() == reads@.len(),
            iv == views(ids@),
            rv == text_views(reads@),
            required_cards(iv.take(i as int), rv) == Ok::<Seq<(Chars, Chars, Chars)>, KbErrorView>(view_seq(cards@)),
        decreases ids@.len() - i,
    {
        assert(iv.take(i + 1).drop_last() =~= iv.take(i as int));
        assert(iv.take(i + 1).last() == ids@[i as int]@);
        assert(rv[i as int] == text_view(reads@[i as int]));
        let id = ids[i].as_str();
        let rel = crate::policy::obligations::module_card_rel_path(id);
        match RepoPath::parse(rel.as_str()) {
            Err(e) => {
                proof {
                    lemma_required_cards_error_stays(iv, rv, i + 1, e@);
                }
                return Err(e);
            },
            Ok(_) => {},
        }
        match &reads[i] {
            Err(e) => {
                if e.code != ErrorCode::NotFound {
                    let e2 = e.duplicate();
                    proof {
                        lemma_required_cards_error_stays(iv, rv, i + 1, e2@);
                    }
                    return Err(e2);
                }
            },
            Ok(text) => {
                let ghost pc = view_seq(cards@);
                cards.push(ModuleCard { module_id: ids[i].clone(), path: rel, text: normalize_text(text.as_str()) });
                assert(view_seq(cards@) =~= pc.push(view_seq(cards@).last()));
            },
        }
        i += 1;
    }
    assert(iv.take(ids@.len() as int) =~= iv);
    Ok(cards)
}

/// The records whose type is among `types`, in order.
pub open spec fn facts_with_types(recs: Seq<crate::json::JsonValue>, types: Seq<Chars>) -> Seq<crate::json::JsonValue>
    decreases recs.len(),
{
    if recs.len() == 0 {
        Seq::empty()
    } else {
        facts_with_types(recs.drop_last(), types) + if crate::json::str_field(recs.last(), "type"@) matches Some(t) && types.contains(t) {
            seq![recs.last()]
        } else {
            Seq::empty()
        }
    }
}

/// The facts a plan requires: none without required types; else, from the
/// read of the facts file (a missing file holds none), the first parse
/// error, then the first record without a string `type`, then without a
/// string `fact_id`; else the records of a required type.
pub open spec fn required_facts(
    types: Seq<Chars>,
    facts: Result<Seq<Result<crate::json::JsonValue, Chars>>, KbErrorView>,
) -> Result<Seq<crate::json::JsonValue>, KbErrorView> {
    if types.len() == 0 {
        Ok(Seq::empty())
    } else {
        match facts {
            Err(e) => if e.code == ErrorCode::NotFound { Ok(Seq::empty()) } else { Err(e) },
            Ok(lines) => match crate::query::read::collected(lines, "failed to parse jsonl"@) {
                Err(e) => Err(e),
                Ok(recs) => match crate::facts::records_check(recs, crate::facts::RecordCheck::TypeThenId) {
                    Err(e) => Err(e),
                    Ok(_) => Ok(facts_with_types(recs, types)),
                },
            },
        }
    }
}

fn keep_facts_with_types(recs: Vec<crate::json::JsonValue>, types: &Vec<String>) -> (r: Vec<crate::json::JsonValue>)
    ensures
        r@ == facts_with_types(recs@, views(types@)),
{
    let ghost rv = recs@;
    let n = recs.len();
    let mut rest = recs;
    let mut stack: Vec<crate::json::JsonValue> = Vec::new();
    while rest.len() > 0
        invariant
            rest@.len() + stack@.len() == n,
            n == rv.len(),
            forall|k: int| 0 <= k < rest@.len() ==> #[trigger] rest@[k] == rv[k],
            forall|k: int| 0 <= k < stack@.len() ==> #[trigger] stack@[k] == rv[n - 1 - k],
        decreases rest@.len(),
    {
        let x = rest.pop().unwrap();
        stack.push(x);
    }
    let mut out: Vec<crate::json::JsonValue> = Vec::new();
    let mut i: usize = 0;
    assert(rv.take(0) =~= Seq::<crate::json::JsonValue>::empty());
    while stack.len() > 0
        invariant
            i + stack@.len() == n,
            n == rv.len(),
            forall|k: int| 0 <= k < stack@.len() ==> #[trigger] stack@[k] == rv[n - 1 - k],
            out@ == facts_with_types(rv.take(i as int), views(types@)),
        decreases stack@.len(),
    {
        let x = stack.pop().unwrap();
        assert(x == rv[i as int]);
        assert(rv.take(i + 1).drop_last() =~= rv.take(i as int));
        assert(rv.take(i + 1).last() == rv[i as int]);
        let keep = match crate::json::get_str_field(&x, "type") {
            Some(t) => contains_str(types, t),
            None => false,
        };
        let ghost prev = out@;
        if keep {
            out.push(x);
            assert(out@ =~= prev + seq![rv[i as int]]);
        } else {
            assert(out@ =~= prev + Seq::<crate::json::JsonValue>::empty());
        }
        i += 1;
    }
    assert(rv.take(n as int) =~= rv);
    out
}

fn select_required_facts(types: &Vec<String>, facts: Result<Vec<Result<crate::json::JsonValue, String>>, KbError>) -> (r: Result<
    Vec<crate::json::JsonValue>,
    KbError,
>)
    ensures
        match r {
            Ok(v) => required_facts(views(types@), crate::query::list::facts_load_view(facts)) == Ok::<
                Seq<crate::json::JsonValue>,
                KbErrorView,
            >(v@),
            Err(e) => required_facts(views(types@), crate::query::list::facts_load_view(facts)) == Err::<
                Seq<crate::json::JsonValue>,
                KbErrorView,
            >(e@),
        },
{
    if types.len() == 0 {
        return Ok(Vec::new());
    }
    let recs = match facts {
        Err(e) => {
            if e.code == ErrorCode::NotFound {
                return Ok(Vec::new());
            }
            return Err(e);
        },
        Ok(lines) => crate::query::read::collect_parsed(lines, "failed to parse jsonl")?,
    };
    crate::facts::check_records(&recs, crate::facts::RecordCheck::TypeThenId)?;
    Ok(keep_facts_with_types(recs, types))
}

/// The file records of the tree, in order.
pub open spec fn file_records(t: Seq<TreeRecordView>) -> Seq<TreeRecordView>
    decreases t.len(),
{
    if t.len() == 0 {
        Seq::empty()
    } else {
        file_records(t.drop_last()) + if t.last().kind == "file"@ { seq![t.last()] } else { Seq::empty() }
    }
}

fn keep_file_records(tree: &Vec<TreeRecord>) -> (r: Vec<TreeRecord>)
    ensures
        tree_views(r@) == file_records(tree_views(tree@)),
{
    let ghost tv = tree_views(tree@);
    let mut out: Vec<TreeRecord> = Vec::new();
    let mut i: usize = 0;
    assert(tv.take(0) =~= Seq::<TreeRecordView>::empty());
    assert(tree_views(out@) =~= Seq::<TreeRecordView>::empty());
    while i < tree.len()
        invariant
            i <= tree@.len(),
            tv == tree_views(tree@),
            tree_views(out@) == file_records(tv.take(i as int)),
        decreases tree@.len() - i,
    {
        assert(tv.take(i + 1).drop_last() =~= tv.take(i as int));
        assert(tv.take(i + 1).last() == tree@[i as int]@);
        let ghost prev = tree_views(out@);
        if str_eq(tree[i].kind.as_str(), "file") {
            out.push(tree[i].duplicate());
            assert(tree_views(out@) =~= prev + seq![tree@[i as int]@]);
        } else {
            assert(tree_views(out@) =~= prev + Seq::<TreeRecordView>::empty());
        }
        i += 1;
    }
    assert(tv.take(tree@.len() as int) =~= tv);
    out
}

/// The paths of a table, in order.
pub open spec fn table_paths(t: Seq<TreeRecordView>) -> Seq<Chars> {
    t.map_values(|r: TreeRecordView| r.path)
}

/// The records of the paths that the table holds, in path order.
pub open spec fn lookups(table: Seq<TreeRecordView>, paths: Seq<Chars>) -> Seq<TreeRecordView>
    decreases paths.len(),
{
    if paths.len() == 0 {
        Seq::empty()
    } else {
        lookups(table, paths.drop_last()) + match crate::query::describe::lookup_path(table, paths.last()) {
            Some(r) => seq![r],
            None => Seq::empty(),
        }
    }
}

fn lookup_all(table: &Vec<crate::query::describe::ByPath>, paths: &Vec<String>) -> (r: Vec<TreeRecord>)
    ensures
        tree_views(r@) == lookups(crate::query::describe::by_path_views(table@), views(paths@)),
{
    let ghost tv = crate::query::describe::by_path_views(table@);
    let ghost pv = views(paths@);
    let mut out: Vec<TreeRecord> = Vec::new();
    let mut i: usize = 0;
    assert(pv.take(0) =~= Seq::<Chars>::empty());
    assert(tree_views(out@) =~= Seq::<TreeRecordView>::empty());
    while i < paths.len()
        invariant
            i <= paths@.len(),
            tv == crate::query::describe::by_path_views(table@),
            pv == views(paths@),
            tree_views(out@) == lookups(tv, pv.take(i as int)),
        decreases paths@.len() - i,
    {
        assert(pv.take(i + 1).drop_last() =~= pv.take(i as int));
        assert(pv.take(i + 1).last() == paths@[i as int]@);
        let ghost prev = tree_views(out@);
        match crate::query::describe::find_path(table, paths[i].as_str()) {
            Some(j) => {
                out.push(table[j].0.duplicate());
                assert(tree_views(out@) =~= prev + seq![table@[j as int]@]);
            },
            None => {
                assert(tree_views(out@) =~= prev + Seq::<TreeRecordView>::empty());
            },
        }
        i += 1;
    }
    assert(pv.take(paths@.len() as int) =~= pv);
    out
}

/// The symbols in the files, in order.
pub open spec fn symbols_within(symbols: Seq<SymbolRecordView>, paths: Seq<Chars>) -> Seq<SymbolRecordView>
    decreases symbols.len(),
{
    if symbols.len() == 0 {
        Seq::empty()
    } else {
        symbols_within(symbols.drop_last(), paths) + if paths.contains(symbols.last().path) {
            seq![symbols.last()]
        } else {
            Seq::empty()
        }
    }
}

/// An edge stays in a diff pack when it leaves an included file and goes to
/// an external target or to an included file.
pub open spec fn edge_within(e: DepEdgeView, paths: Seq<Chars>) -> bool {
    paths.contains(e.from_path) && (e.to_external is Some || (e.to_path matches Some(p) && paths.contains(p)))
}

/// The edges that stay, in order.
pub open spec fn edges_within(deps: Seq<DepEdge>, paths: Seq<Chars>) -> Seq<DepEdge>
    decreases deps.len(),
{
    if deps.len() == 0 {
        Seq::empty()
    } else {
        edges_within(deps.drop_last(), paths) + if edge_within(deps.last()@, paths) {
            seq![deps.last()]
        } else {
            Seq::empty()
        }
    }
}

fn keep_symbols_within(symbols: &Vec<SymbolRecord>, paths: &Vec<String>) -> (r: Vec<SymbolRecord>)
    ensures
        symbol_views(r@) == symbols_within(symbol_views(symbols@), views(paths@)),
{
    let ghost sv = symbol_views(symbols@);
    let mut out: Vec<SymbolRecord> = Vec::new();
    let mut i: usize = 0;
    assert(sv.take(0) =~= Seq::<SymbolRecordView>::empty());
    assert(symbol_views(out@) =~= Seq::<SymbolRecordView>::empty());
    while i < symbols.len()
        invariant
            i <= symbols@.len(),
            sv == symbol_views(symbols@),
            symbol_views(out@) == symbols_within(sv.take(i as int), views(paths@)),
        decreases symbols@.len() - i,
    {
        assert(sv.take(i + 1).drop_last() =~= sv.take(i as int));
        assert(sv.take(i + 1).last() == symbols@[i as int]@);
        let ghost prev = symbol_views(out@);
        if contains_str(paths, symbols[i].path.as_str()) {
            out.push(symbols[i].duplicate());
            assert(symbol_views(out@) =~= prev + seq![symbols@[i as int]@]);
        } else {
            assert(symbol_views(out@) =~= prev + Seq::<SymbolRecordView>::empty());
        }
        i += 1;
    }
    assert(sv.take(symbols@.len() as int) =~= sv);
    out
}

fn keep_edges_within(deps: &Vec<DepEdge>, paths: &Vec<String>) -> (r: Vec<DepEdge>)
    ensures
        view_seq(r@) == view_seq(edges_within(deps@, views(paths@))),
{
    let mut out: Vec<DepEdge> = Vec::new();
    let mut i: usize = 0;
    assert(deps@.take(0) =~= Seq::<DepEdge>::empty());
    assert(view_seq(out@) =~= view_seq(Seq::<DepEdge>::empty()));
    while i < deps.len()
        invariant
            i <= deps@.len(),
            view_seq(out@) == view_seq(edges_within(deps@.take(i as int), views(paths@))),
        decreases deps@.len() - i,
    {
        assert(deps@.take(i + 1).drop_last() =~= deps@.take(i as int));
        assert(deps@.take(i + 1).last() == deps@[i as int]);
        let ghost prev = view_seq(out@);
        let e = &deps[i];
        let keep = contains_str(paths, e.from_path.as_str()) && (e.to_external.is_some() || match &e.to_path {
            Some(p) => contains_str(paths, p.as_str()),
            None => false,
        });
        assert(keep == edge_within(e@, views(paths@)));
        let ghost before = edges_within(deps@.take(i as int), views(paths@));
        if keep {
            out.push(e.duplicate());
            assert(view_seq(out@) =~= prev.push(e@));
            assert(view_seq(before + seq![deps@[i as int]]) =~= view_seq(before).push(e@));
        } else {
            assert(before + Seq::<DepEdge>::empty() =~= before);
        }
        i += 1;
    }
    assert(deps@.take(deps@.len() as int) =~= deps@);
    out
}

} // verus!

verus! {

/// What a diff pack selects before any source is read.
#[derive(Debug)]
pub struct DiffSelection {
    pub modules: Vec<ModuleCard>,
    pub facts: Vec<crate::json::JsonValue>,
    pub tree: Vec<TreeRecord>,
    pub symbols: Vec<SymbolRecord>,
    pub deps: Vec<DepEdge>,
    /// The files the pack covers, sorted, once each.
    pub included_paths: Vec<String>,
    /// The symbols whose snippets the pack holds, in order.
    pub snippet_symbols: Vec<SymbolRecord>,
}

/// What a diff pack selects, from the cards and facts the plan requires and
/// the index records: the cards sorted by id and the facts by fact id (each
/// once); the included files: the files within `radius` dependency steps of
/// the changed files that remain (the files being the file records by path,
/// the last record of each path kept); their tree records, sorted by path
/// with their top symbols; their symbols sorted by id, once each; the edges
/// that stay among them, in edge order, repeated neighbours dropped; and for
/// each included file its first symbol in snippet order.
pub open spec fn diff_selection_holds(
    sel: DiffSelection,
    cards: Seq<(Chars, Chars, Chars)>,
    fs: Seq<crate::json::JsonValue>,
    tree: Seq<TreeRecordView>,
    symbols: Seq<SymbolRecordView>,
    deps: Seq<DepEdge>,
    changed: Seq<(Chars, Chars)>,
    radius: u32,
) -> bool {
    let inc = views(sel.included_paths@);
    &&& sorted_unique_views(sel.modules@, cards)
    &&& crate::order::sorted_unique(sel.facts@, fs)
    &&& (exists|table: Seq<crate::query::describe::ByPath>|
        #[trigger] sorted_unique_views(table, reversed(file_records(tree))) && {
            let tv = crate::query::describe::by_path_views(table);
            let files = table_paths(tv);
            &&& inc == sorted_set(level(sorted_set(seed_candidates(changed, files)), dep_views(deps), files, radius as nat))
            &&& exists|t: Seq<crate::query::describe::ByPath>|
                #[trigger] sorted_unique_views(t, lookups(tv, inc)) && tree_views(sel.tree@) == with_file_top_symbols(
                    crate::query::describe::by_path_views(t),
                    symbol_views(sel.symbols@),
                )
        })
    &&& sorted_unique_views(sel.symbols@, symbols_within(symbols, inc))
    &&& crate::index::deps::deps_listed(dep_views(sel.deps@), view_seq(edges_within(deps, inc)))
    &&& symbol_views(sel.snippet_symbols@) == file_snippet_symbols(symbol_views(sel.symbols@), inc)
}

fn paths_of_table(table: &Vec<crate::query::describe::ByPath>) -> (r: Vec<String>)
    ensures
        views(r@) == table_paths(crate::query::describe::by_path_views(table@)),
{
    let mut out: Vec<String> = Vec::new();
    let mut i: usize = 0;
    while i < table.len()
        invariant
            i <= table@.len(),
            views(out@) == table_paths(crate::query::describe::by_path_views(table@)).take(i as int),
        decreases table@.len() - i,
    {
        let ghost prev = views(out@);
        out.push(table[i].0.path.clone());
        assert(views(out@) =~= prev.push(table@[i as int].0.path@));
        assert(table_paths(crate::query::describe::by_path_views(table@)).take(i + 1) =~= table_paths(
            crate::query::describe::by_path_views(table@),
        ).take(i as int).push(table@[i as int].0.path@));
        i += 1;
    }
    assert(table_paths(crate::query::describe::by_path_views(table@)).take(table@.len() as int) =~= table_paths(
        crate::query::describe::by_path_views(table@),
    ));
    out
}

/// Selects what a diff pack holds (see `diff_selection_holds`), from its
/// plan, the reads of the cards it requires (`module_reads[i]` for
/// `plan.required.module_cards[i]`), the read of the facts file and of the
/// index records: the first error of the cards, the facts, then the reads of
/// the tree, symbol and dependency records.
pub fn select_for_diff(
    plan: &crate::query::plan::PlanDiffOutput,
    module_reads: &Vec<Result<String, KbError>>,
    facts: Result<Vec<Result<crate::json::JsonValue, String>>, KbError>,
    tree: Result<Vec<TreeRecord>, KbError>,
    symbols: Result<Vec<SymbolRecord>, KbError>,
    deps: Result<Vec<DepEdge>, KbError>,
    radius: u32,
) -> (r: Result<DiffSelection, KbError>)
    requires
        module_reads@.len() == plan.required.module_cards@.len(),
    ensures
        match required_cards(views(plan.required.module_cards@), text_views(module_reads@)) {
            Err(e) => r matches Err(e2) && e2@ == e,
            Ok(cards) => match required_facts(views(plan.required.fact_types@), crate::query::list::facts_load_view(facts)) {
                Err(e) => r matches Err(e2) && e2@ == e,
                Ok(fs) => match (tree, symbols, deps) {
                    (Err(e), _, _) => r matches Err(e2) && e2@ == e@,
                    (Ok(_), Err(e), _) => r matches Err(e2) && e2@ == e@,
                    (Ok(_), Ok(_), Err(e)) => r matches Err(e2) && e2@ == e@,
                    (Ok(t), Ok(s), Ok(d)) => r matches Ok(sel) && diff_selection_holds(
                        sel,
                        cards,
                        fs,
                        tree_views(t@),
                        symbol_views(s@),
                        d@,
                        view_seq(plan.changed_paths@),
                        radius,
                    ),
                },
            },
        },
{
    let cards = read_required_cards(&plan.required.module_cards, module_reads)?;
    let picked = select_required_facts(&plan.required.fact_types, facts)?;
    let tree = tree?;
    let symbols = symbols?;
    let deps = deps?;
    let modules = sort_modules(cards);
    let facts_out = sort_unique_by_key(picked);
    let files_only = keep_file_records(&tree);
    let table = crate::query::describe::tree_by_path(files_only);
    let ghost tv = crate::query::describe::by_path_views(table@);
    let files = paths_of_table(&table);
    let seeds = seed_paths_from_plan(&plan.changed_paths, &files);
    let included = expand_paths(&seeds, &deps, &files, radius);
    proof {
        crate::order::lemma_sorted_set_of_is(
            views(included@),
            level(views(seeds@), dep_views(deps@), views(files@), radius as nat),
        );
    }
    let listed = lookup_all(&table, &included);
    let kept_symbols = keep_symbols_within(&symbols, &included);
    let symbols_out = sort_symbols(kept_symbols);
    let tree_out = sort_tree_with_top_symbols(&listed, &symbols_out);
    let kept_edges = keep_edges_within(&deps, &included);
    let deps_out = crate::index::deps::sorted_dep_edges(&kept_edges);
    let snippet_symbols = file_snippet_requests(&symbols_out, &included);
    let sel = DiffSelection {
        modules,
        facts: facts_out,
        tree: tree_out,
        symbols: symbols_out,
        deps: deps_out,
        included_paths: included,
        snippet_symbols,
    };
    proof {
        assert(sorted_unique_views(table@, reversed(file_records(tree_views(tree@)))));
    }
    Ok(sel)
}

/// A diff pack from its plan and what it selected (see `select_for_diff`):
/// `snippet_texts[i]` is the read of the file of the i-th snippet symbol.
/// The first error building the snippets; else the pack, its snippets sorted
/// by path then symbol id (once each), before its budget is applied.
pub fn pack_diff_at(
    plan: crate::query::plan::PlanDiffOutput,
    selection: DiffSelection,
    snippet_texts: &Vec<Result<String, KbError>>,
    radius: u32,
    max_bytes: u64,
    snippet_lines: u64,
) -> (r: Result<PackDiffOutput, KbError>)
    requires
        snippet_texts@.len() == selection.snippet_symbols@.len(),
    ensures
        match snippets_spec(snippet_lines, symbol_views(selection.snippet_symbols@), text_views(snippet_texts@)) {
            Err(e) => r matches Err(e2) && e2@ == e,
            Ok(snips) => r matches Ok(out) && out.diff_source == plan.diff_source && out.radius == radius && out.budgets == (Budgets {
                max_bytes,
                snippet_lines,
            }) && out.plan.policy == plan.policy && out.plan.changed_paths == plan.changed_paths
                && out.plan.affected_modules == plan.affected_modules && out.plan.triggered_rules == plan.triggered_rules
                && out.plan.required == plan.required && out.modules == selection.modules && out.facts == selection.facts
                && out.tree == selection.tree && out.symbols == selection.symbols && out.deps == selection.deps
                && sorted_unique_views(out.snippets@, snips),
        },
{
    let snippets = build_snippets(snippet_lines, &selection.snippet_symbols, snippet_texts)?;
    let snippets = sort_snippets(snippets);
    Ok(
        PackDiffOutput {
            diff_source: plan.diff_source,
            radius,
            budgets: Budgets { max_bytes, snippet_lines },
            plan: PlanSummary {
                policy: plan.policy,
                changed_paths: plan.changed_paths,
                affected_modules: plan.affected_modules,
                triggered_rules: plan.triggered_rules,
                required: plan.required,
            },
            modules: selection.modules,
            facts: selection.facts,
            tree: selection.tree,
            symbols: selection.symbols,
            deps: selection.deps,
            snippets,
        },
    )
}

} // verus!

verus! {

// ---------------------------------------------------------------------------
// Text forms
// ---------------------------------------------------------------------------

/// `- path` for each tree record.
pub open spec fn file_lines(tree: Seq<TreeRecordView>) -> Seq<Chars> {
    tree.map_values(|r: TreeRecordView| "- "@ + r.path)
}

/// Each snippet as a header line `--- path:start`, then its text fenced.
pub open spec fn snippet_block_lines(snips: Seq<SnippetView>) -> Seq<Chars>
    decreases snips.len(),
{
    if snips.len() == 0 {
        Seq::empty()
    } else {
        let s = snips.last();
        snippet_block_lines(snips.drop_last()) + seq![
            "--- "@ + s.path + ":"@ + decimal(s.start_line as nat),
            "```"@,
            s.text,
            "```"@,
        ]
    }
}

/// The common tail of a pack's text form: its files, its symbol and edge
/// counts, and its snippets when it has any.
pub open spec fn pack_tail_lines(tree: Seq<TreeRecordView>, n_symbols: nat, n_deps: nat, snips: Seq<SnippetView>) -> Seq<Chars> {
    seq!["included_files:"@] + file_lines(tree) + seq!["symbols: "@ + decimal(n_symbols), "deps: "@ + decimal(n_deps)] + if snips.len()
        > 0 {
        seq!["snippets:"@] + snippet_block_lines(snips)
    } else {
        Seq::empty()
    }
}

fn push_tail_lines(lines: &mut Vec<String>, tree: &Vec<TreeRecord>, n_symbols: usize, n_deps: usize, snips: &Vec<Snippet>)
    ensures
        views(final(lines)@) == views(old(lines)@) + pack_tail_lines(
            tree_views(tree@),
            n_symbols as nat,
            n_deps as nat,
            view_seq(snips@),
        ),
{
    let ghost start = views(lines@);
    lines.push(copy_str("included_files:"));
    let ghost l0 = views(lines@);
    assert(l0 =~= start + seq!["included_files:"@]);
    let ghost fl = file_lines(tree_views(tree@));
    let mut i: usize = 0;
    while i < tree.len()
        invariant
            i <= tree@.len(),
            fl == file_lines(tree_views(tree@)),
            views(lines@) == l0 + fl.take(i as int),
        decreases tree@.len() - i,
    {
        let ghost prev = views(lines@);
        lines.push(crate::text::concat2("- ", tree[i].path.as_str()));
        assert(views(lines@) =~= prev.push(fl[i as int]));
        assert(l0 + fl.take(i + 1) =~= (l0 + fl.take(i as int)).push(fl[i as int]));
        i += 1;
    }
    assert(fl.take(tree@.len() as int) =~= fl);
    let ghost lf = views(lines@);
    assert(lf == l0 + fl);
    lines.push(crate::text::concat2("symbols: ", decimal_string(n_symbols as u64).as_str()));
    lines.push(crate::text::concat2("deps: ", decimal_string(n_deps as u64).as_str()));
    let ghost l1 = views(lines@);
    assert(l1 =~= lf + seq!["symbols: "@ + decimal(n_symbols as nat), "deps: "@ + decimal(n_deps as nat)]);
    assert(l1 =~= start + seq!["included_files:"@] + fl + seq!["symbols: "@ + decimal(n_symbols as nat), "deps: "@ + decimal(n_deps as nat)]);
    if snips.len() > 0 {
        lines.push(copy_str("snippets:"));
        let ghost l2 = views(lines@);
        let ghost sv = view_seq(snips@);
        let mut j: usize = 0;
        assert(sv.take(0) =~= Seq::<SnippetView>::empty());
        while j < snips.len()
            invariant
                j <= snips@.len(),
                sv == view_seq(snips@),
                views(lines@) == l2 + snippet_block_lines(sv.take(j as int)),
            decreases snips@.len() - j,
        {
            assert(sv.take(j + 1).drop_last() =~= sv.take(j as int));
            assert(sv.take(j + 1).last() == snips@[j as int]@);
            let s = &snips[j];
            let ghost prev = views(lines@);
            let mut head = crate::text::concat3("--- ", s.path.as_str(), ":");
            append_str(&mut head, decimal_string(s.start_line).as_str());
            lines.push(head);
            lines.push(copy_str("```"));
            lines.push(s.text.clone());
            lines.push(copy_str("```"));
            assert(views(lines@) =~= prev + seq![
                "--- "@ + s.path@ + ":"@ + decimal(s.start_line as nat),
                "```"@,
                s.text@,
                "```"@,
            ]);
            j += 1;
        }
        assert(sv.take(snips@.len() as int) =~= sv);
        assert(views(lines@) =~= l1 + (seq!["snippets:"@] + snippet_block_lines(sv)));
    } else {
        assert(l1 =~= l1 + Seq::<Chars>::empty());
    }
}

/// The lines of a diff pack's text form.
pub open spec fn pack_diff_lines(out: PackDiffOutput) -> Seq<Chars> {
    seq![
        "diff_source: "@ + out.diff_source@,
        "radius: "@ + decimal(out.radius as nat),
        "budgets.max_bytes: "@ + decimal(out.budgets.max_bytes as nat),
        "budgets.snippet_lines: "@ + decimal(out.budgets.snippet_lines as nat),
        "changed_paths:"@,
    ] + crate::query::plan::changed_lines(view_seq(out.plan.changed_paths@)) + crate::query::plan::required_lines(
        views(out.plan.required.module_cards@),
        views(out.plan.required.fact_types@),
        out.plan.required.session_capsule,
    ) + pack_tail_lines(tree_views(out.tree@), out.symbols@.len(), out.deps@.len(), view_seq(out.snippets@))
}

/// The text form of a diff pack.
pub fn pack_diff_text(out: &PackDiffOutput) -> (s: String)
    ensures
        s@ == join(pack_diff_lines(*out), "\n"@),
{
    let mut lines: Vec<String> = Vec::new();
    lines.push(crate::text::concat2("diff_source: ", out.diff_source.as_str()));
    lines.push(crate::text::concat2("radius: ", decimal_string(out.radius as u64).as_str()));
    lines.push(crate::text::concat2("budgets.max_bytes: ", decimal_string(out.budgets.max_bytes).as_str()));
    lines.push(crate::text::concat2("budgets.snippet_lines: ", decimal_string(out.budgets.snippet_lines).as_str()));
    lines.push(copy_str("changed_paths:"));
    let ghost l0 = views(lines@);
    let ghost cl = crate::query::plan::changed_lines(view_seq(out.plan.changed_paths@));
    let mut i: usize = 0;
    while i < out.plan.changed_paths.len()
        invariant
            i <= out.plan.changed_paths@.len(),
            cl == crate::query::plan::changed_lines(view_seq(out.plan.changed_paths@)),
            views(lines@) == l0 + cl.take(i as int),
        decreases out.plan.changed_paths@.len() - i,
    {
        let c = &out.plan.changed_paths[i];
        let mut line = crate::text::concat3("- ", c.path.as_str(), " (");
        append_str(&mut line, c.change_kind.as_str());
        append_str(&mut line, ")");
        let ghost prev = views(lines@);
        lines.push(line);
        assert(view_seq(out.plan.changed_paths@)[i as int] == c@);
        assert(views(lines@) =~= prev.push(cl[i as int]));
        assert(l0 + cl.take(i + 1) =~= (l0 + cl.take(i as int)).push(cl[i as int]));
        i += 1;
    }
    assert(cl.take(out.plan.changed_paths@.len() as int) =~= cl);
    let ghost l1 = views(lines@);
    lines.push(copy_str("required:"));
    lines.push(crate::text::concat2("- module_cards: ", join_strings_of(&out.plan.required.module_cards).as_str()));
    lines.push(crate::text::concat2("- fact_types: ", join_strings_of(&out.plan.required.fact_types).as_str()));
    lines.push(
        crate::text::concat2("- session_capsule: ", if out.plan.required.session_capsule { "true" } else { "false" }),
    );
    assert(views(lines@) =~= l1 + crate::query::plan::required_lines(
        views(out.plan.required.module_cards@),
        views(out.plan.required.fact_types@),
        out.plan.required.session_capsule,
    ));
    push_tail_lines(&mut lines, &out.tree, out.symbols.len(), out.deps.len(), &out.snippets);
    assert(views(lines@) =~= pack_diff_lines(*out));
    crate::text::join_strings(&lines, "\n")
}

fn join_strings_of(v: &Vec<String>) -> (s: String)
    ensures
        s@ == join(views(v@), ", "@),
{
    crate::text::join_strings(v, ", ")
}

/// The lines of a selector pack's text form.
pub open spec fn pack_selectors_lines(out: PackSelectorsOutput) -> Seq<Chars> {
    seq![
        "budgets.max_bytes: "@ + decimal(out.budgets.max_bytes as nat),
        "budgets.snippet_lines: "@ + decimal(out.budgets.snippet_lines as nat),
        "selectors:"@,
        "- paths: "@ + join(views(out.selectors.paths@), ", "@),
        "- modules: "@ + join(views(out.selectors.modules@), ", "@),
        "- symbols: "@ + join(views(out.selectors.symbols@), ", "@),
        "- facts: "@ + join(views(out.selectors.facts@), ", "@),
    ] + pack_tail_lines(tree_views(out.tree@), out.symbols@.len(), out.deps@.len(), view_seq(out.snippets@))
}

/// The text form of a selector pack.
pub fn pack_selectors_text(out: &PackSelectorsOutput) -> (s: String)
    ensures
        s@ == join(pack_selectors_lines(*out), "\n"@),
{
    let mut lines: Vec<String> = Vec::new();
    lines.push(crate::text::concat2("budgets.max_bytes: ", decimal_string(out.budgets.max_bytes).as_str()));
    lines.push(crate::text::concat2("budgets.snippet_lines: ", decimal_string(out.budgets.snippet_lines).as_str()));
    lines.push(copy_str("selectors:"));
    lines.push(crate::text::concat2("- paths: ", join_strings_of(&out.selectors.paths).as_str()));
    lines.push(crate::text::concat2("- modules: ", join_strings_of(&out.selectors.modules).as_str()));
    lines.push(crate::text::concat2("- symbols: ", join_strings_of(&out.selectors.symbols).as_str()));
    lines.push(crate::text::concat2("- facts: ", join_strings_of(&out.selectors.facts).as_str()));
    push_tail_lines(&mut lines, &out.tree, out.symbols.len(), out.deps.len(), &out.snippets);
    assert(views(lines@) =~= pack_selectors_lines(*out));
    crate::text::join_strings(&lines, "\n")
}

} // verus!

verus! {

/// The number of list items of a pack, from the lengths of its six lists.
pub open spec fn pack_items(lens: Seq<nat>) -> nat {
    lens[0] + lens[1] + lens[2] + lens[3] + lens[4] + lens[5]
}

/// A shedding step on a selector pack that does not fit and still has an
/// item removes exactly one item, so fitting a pack into its budget takes at
/// most one step more than it has items; once every list is empty the step
/// fails.
pub proof fn law_selectors_shed_progress(old: PackSelectorsOutput, new: PackSelectorsOutput)
    requires
        ({
            let t = shed_target(selectors_lens(old));
            &&& shed_one(new.snippets@, old.snippets@, t == 0)
            &&& shed_one(new.deps@, old.deps@, t == 1)
            &&& shed_one(new.symbols@, old.symbols@, t == 2)
            &&& shed_one(new.tree@, old.tree@, t == 3)
            &&& shed_one(new.facts@, old.facts@, t == 4)
            &&& shed_one(new.modules@, old.modules@, t == 5)
        }),
    ensures
        shed_target(selectors_lens(old)) >= 0 <==> pack_items(selectors_lens(old)) > 0,
        shed_target(selectors_lens(old)) >= 0 ==> pack_items(selectors_lens(new)) + 1 == pack_items(selectors_lens(old)),
{
}

/// The same progress for a diff pack (see `law_selectors_shed_progress`).
pub proof fn law_diff_shed_progress(old: PackDiffOutput, new: PackDiffOutput)
    requires
        ({
            let t = shed_target(diff_lens(old));
            &&& shed_one(new.snippets@, old.snippets@, t == 0)
            &&& shed_one(new.deps@, old.deps@, t == 1)
            &&& shed_one(new.symbols@, old.symbols@, t == 2)
            &&& shed_one(new.tree@, old.tree@, t == 3)
            &&& shed_one(new.facts@, old.facts@, t == 4)
            &&& shed_one(new.modules@, old.modules@, t == 5)
        }),
    ensures
        shed_target(diff_lens(old)) >= 0 <==> pack_items(diff_lens(old)) > 0,
        shed_target(diff_lens(old)) >= 0 ==> pack_items(diff_lens(new)) + 1 == pack_items(diff_lens(old)),
{
}

/// With radius 0, a diff pack covers exactly its seed files.
pub proof fn law_expand_radius_zero(seeds: Seq<Chars>, deps: Seq<DepEdgeView>, files: Seq<Chars>)
    ensures
        forall|x: Chars| #[trigger] level(seeds, deps, files, 0).contains(x) <==> seeds.contains(x),
{
}

/// A larger radius never covers fewer files.
pub proof fn law_expand_monotone(seeds: Seq<Chars>, deps: Seq<DepEdgeView>, files: Seq<Chars>, j: nat, k: nat)
    requires
        j <= k,
    ensures
        forall|x: Chars| #[trigger] level(seeds, deps, files, j).contains(x) ==> level(seeds, deps, files, k).contains(x),
    decreases k - j,
{
    if j < k {
        let p = (k - 1) as nat;
        law_expand_monotone(seeds, deps, files, j, p);
        lemma_level_step(seeds, deps, files, p);
        assert((p + 1) as nat == k);
        assert forall|x: Chars| #[trigger] level(seeds, deps, files, p).contains(x) implies level(seeds, deps, files, k).contains(x) by {
            crate::text::lemma_contains_concat(
                level(seeds, deps, files, p),
                neighbors(level(seeds, deps, files, p), deps, files),
                x,
            );
        }
    }
}

proof fn lemma_neighbors_are_files(cur: Seq<Chars>, deps: Seq<DepEdgeView>, files: Seq<Chars>, x: Chars)
    requires
        neighbors(cur, deps, files).contains(x),
    ensures
        files.contains(x),
    decreases deps.len(),
{
    if deps.len() > 0 {
        let e = deps.last();
        let rest = neighbors(cur, deps.drop_last(), files);
        if e.to_path is Some && files.contains(e.from_path) && files.contains(e.to_path.unwrap()) {
            let a: Seq<Chars> = if cur.contains(e.from_path) { seq![e.to_path.unwrap()] } else { Seq::empty() };
            let b: Seq<Chars> = if cur.contains(e.to_path.unwrap()) { seq![e.from_path] } else { Seq::empty() };
            crate::text::lemma_contains_concat(rest + a, b, x);
            crate::text::lemma_contains_concat(rest, a, x);
            if rest.contains(x) {
                lemma_neighbors_are_files(cur, deps.drop_last(), files, x);
            } else if a.contains(x) {
                assert(x == e.to_path.unwrap());
            } else {
                assert(b.contains(x));
                assert(x == e.from_path);
            }
        } else {
            lemma_neighbors_are_files(cur, deps.drop_last(), files, x);
        }
    }
}

/// The edge at `i` (to a path, both ends indexed files) is walked both
/// ways: its importer in `cur` brings in the imported file, and the other
/// way round.
proof fn lemma_neighbors_follow_edge(cur: Seq<Chars>, deps: Seq<DepEdgeView>, files: Seq<Chars>, i: int)
    requires
        0 <= i < deps.len(),
        deps[i].to_path is Some,
        files.contains(deps[i].from_path),
        files.contains(deps[i].to_path.unwrap()),
    ensures
        cur.contains(deps[i].from_path) ==> neighbors(cur, deps, files).contains(deps[i].to_path.unwrap()),
        cur.contains(deps[i].to_path.unwrap()) ==> neighbors(cur, deps, files).contains(deps[i].from_path),
    decreases deps.len(),
{
    let e = deps.last();
    let rest = neighbors(cur, deps.drop_last(), files);
    let a: Seq<Chars> = if cur.contains(e.from_path) { seq![e.to_path.unwrap()] } else { Seq::empty() };
    let b: Seq<Chars> = if cur.contains(e.to_path.unwrap()) { seq![e.from_path] } else { Seq::empty() };
    let to = deps[i].to_path.unwrap();
    let from = deps[i].from_path;
    if i == deps.len() - 1 {
        assert(neighbors(cur, deps, files) == rest + a + b);
        if cur.contains(from) {
            assert(a[0] == to);
            assert(a.contains(to));
            crate::text::lemma_contains_concat(rest, a, to);
            crate::text::lemma_contains_concat(rest + a, b, to);
        }
        if cur.contains(to) {
            assert(b[0] == from);
            assert(b.contains(from));
            crate::text::lemma_contains_concat(rest + a, b, from);
        }
    } else {
        assert(deps.drop_last()[i] == deps[i]);
        lemma_neighbors_follow_edge(cur, deps.drop_last(), files, i);
        if e.to_path is Some && files.contains(e.from_path) && files.contains(e.to_path.unwrap()) {
            assert(neighbors(cur, deps, files) == rest + a + b);
            crate::text::lemma_contains_concat(rest, a, to);
            crate::text::lemma_contains_concat(rest + a, b, to);
            crate::text::lemma_contains_concat(rest, a, from);
            crate::text::lemma_contains_concat(rest + a, b, from);
        } else {
            assert(neighbors(cur, deps, files) == rest);
        }
    }
}

/// Every dependency edge to a path between two indexed files is walked both
/// ways, one step per radius: when its importer is covered at radius `k`,
/// the imported file is covered at radius `k + 1`, and when the imported
/// file is covered, so is its importer.
pub proof fn law_expand_follows_edges(seeds: Seq<Chars>, deps: Seq<DepEdgeView>, files: Seq<Chars>, k: nat, i: int)
    requires
        0 <= i < deps.len(),
        deps[i].to_path is Some,
        files.contains(deps[i].from_path),
        files.contains(deps[i].to_path.unwrap()),
    ensures
        level(seeds, deps, files, k).contains(deps[i].from_path) ==> level(seeds, deps, files, k + 1).contains(
            deps[i].to_path.unwrap(),
        ),
        level(seeds, deps, files, k).contains(deps[i].to_path.unwrap()) ==> level(seeds, deps, files, k + 1).contains(
            deps[i].from_path,
        ),
{
    let lk = level(seeds, deps, files, k);
    lemma_level_step(seeds, deps, files, k);
    lemma_neighbors_follow_edge(lk, deps, files, i);
    crate::text::lemma_contains_concat(lk, neighbors(lk, deps, files), deps[i].to_path.unwrap());
    crate::text::lemma_contains_concat(lk, neighbors(lk, deps, files), deps[i].from_path);
}

/// The edge at `i` points at a path, joins two indexed files, and has one
/// end in `cur` and `x` at the other.
pub open spec fn edge_reaches(cur: Seq<Chars>, deps: Seq<DepEdgeView>, files: Seq<Chars>, i: int, x: Chars) -> bool {
    &&& 0 <= i < deps.len()
    &&& deps[i].to_path is Some
    &&& files.contains(deps[i].from_path)
    &&& files.contains(deps[i].to_path.unwrap())
    &&& ((cur.contains(deps[i].from_path) && x == deps[i].to_path.unwrap()) || (cur.contains(deps[i].to_path.unwrap())
        && x == deps[i].from_path))
}

proof fn lemma_neighbor_has_edge(cur: Seq<Chars>, deps: Seq<DepEdgeView>, files: Seq<Chars>, x: Chars)
    requires
        neighbors(cur, deps, files).contains(x),
    ensures
        exists|i: int| #[trigger] edge_reaches(cur, deps, files, i, x),
    decreases deps.len(),
{
    if deps.len() > 0 {
        let e = deps.last();
        let n = deps.len() - 1;
        let rest = neighbors(cur, deps.drop_last(), files);
        if e.to_path is Some && files.contains(e.from_path) && files.contains(e.to_path.unwrap()) {
            let a: Seq<Chars> = if cur.contains(e.from_path) { seq![e.to_path.unwrap()] } else { Seq::empty() };
            let b: Seq<Chars> = if cur.contains(e.to_path.unwrap()) { seq![e.from_path] } else { Seq::empty() };
            crate::text::lemma_contains_concat(rest + a, b, x);
            crate::text::lemma_contains_concat(rest, a, x);
            if rest.contains(x) {
                lemma_neighbor_has_edge(cur, deps.drop_last(), files, x);
                let i = choose|i: int| #[trigger] edge_reaches(cur, deps.drop_last(), files, i, x);
                assert(deps.drop_last()[i] == deps[i]);
                assert(edge_reaches(cur, deps, files, i, x));
            } else if a.contains(x) {
                assert(x == e.to_path.unwrap());
                assert(edge_reaches(cur, deps, files, n, x));
            } else {
                assert(x == e.from_path);
                assert(edge_reaches(cur, deps, files, n, x));
            }
        } else {
            lemma_neighbor_has_edge(cur, deps.drop_last(), files, x);
            let i = choose|i: int| #[trigger] edge_reaches(cur, deps.drop_last(), files, i, x);
            assert(deps.drop_last()[i] == deps[i]);
            assert(edge_reaches(cur, deps, files, i, x));
        }
    }
}

/// A step of the expansion adds only files that an edge between indexed
/// files joins to one already covered: what radius `k + 1` covers beyond
/// radius `k` is the other end of such an edge.
pub proof fn law_expand_step_only_along_edges(seeds: Seq<Chars>, deps: Seq<DepEdgeView>, files: Seq<Chars>, k: nat, x: Chars)
    requires
        level(seeds, deps, files, k + 1).contains(x),
        !level(seeds, deps, files, k).contains(x),
    ensures
        exists|i: int| #[trigger] edge_reaches(level(seeds, deps, files, k), deps, files, i, x),
{
    let lk = level(seeds, deps, files, k);
    lemma_level_step(seeds, deps, files, k);
    crate::text::lemma_contains_concat(lk, neighbors(lk, deps, files), x);
    lemma_neighbor_has_edge(lk, deps, files, x);
}

/// A diff pack covers only its seeds and indexed files.
pub proof fn law_expansion_within_files(seeds: Seq<Chars>, deps: Seq<DepEdgeView>, files: Seq<Chars>, k: nat)
    ensures
        forall|x: Chars| #[trigger] level(seeds, deps, files, k).contains(x) ==> seeds.contains(x) || files.contains(x),
    decreases k,
{
    if k > 0 {
        let p = (k - 1) as nat;
        law_expansion_within_files(seeds, deps, files, p);
        lemma_level_step(seeds, deps, files, p);
        assert((p + 1) as nat == k);
        assert forall|x: Chars| #[trigger] level(seeds, deps, files, k).contains(x) implies seeds.contains(x) || files.contains(x) by {
            let lp = level(seeds, deps, files, p);
            crate::text::lemma_contains_concat(lp, neighbors(lp, deps, files), x);
            if !lp.contains(x) {
                lemma_neighbors_are_files(lp, deps, files, x);
            }
        }
    }
}

} // verus!

verus! {

pub open spec fn ten_pow(k: nat) -> nat
    decreases k,
{
    if k == 0 {
        1
    } else {
        10 * ten_pow((k - 1) as nat)
    }
}

proof fn lemma_decimal_len(n: nat, k: nat)
    requires
        k >= 1,
        n < ten_pow(k),
    ensures
        decimal(n).len() <= k,
    decreases k,
{
    if n >= 10 {
        let t = ten_pow((k - 1) as nat);
        if k == 1 {
            assert(ten_pow(1) == 10 * ten_pow(0));
        }
        assert(k >= 2);
        assert(n < 10 * t);
        assert(n / 10 < t) by (nonlinear_arith)
            requires
                n < 10 * t,
        ;
        lemma_decimal_len(n / 10, (k - 1) as nat);
    }
}

proof fn lemma_escape_len(s: Chars)
    ensures
        marker_escape(s).len() <= 2 * s.len(),
    decreases s.len(),
{
    if s.len() > 0 {
        lemma_escape_len(s.drop_last());
    }
}

proof fn lemma_trim_blanks_len(s: Chars)
    ensures
        trim_end_blanks(s).len() <= s.len(),
    decreases s.len(),
{
    if s.len() > 0 && (s.last() == ' ' || s.last() == '\t') {
        lemma_trim_blanks_len(s.drop_last());
    }
}

/// A snippet covers lines of its file, starting at line 1 or later, and
/// never more than `snippet_lines` of them.
pub proof fn law_snippet_within_line_budget(text: Chars, snippet_lines: u64, sym: SymbolRecordView)
    ensures
        snippet_in(text, snippet_lines, sym) matches Some(s) ==> {
            &&& 1 <= s.start_line <= s.end_line <= source_lines(text).len()
            &&& s.end_line - s.start_line + 1 <= snippet_lines
        },
{
}

/// A line of a snippet is never longer than the hard limit of 2000
/// characters (for any line a `String` can hold).
pub proof fn law_gated_line_bounded(line: Chars)
    requires
        line.len() <= u64::MAX,
    ensures
        gated_line(line).len() <= 2000,
{
    let t = trim_end_blanks(line);
    lemma_trim_blanks_len(line);
    if t.len() > 2000 {
        assert(ten_pow(20) == 100000000000000000000nat) by {
            reveal_with_fuel(ten_pow, 21);
        }
        lemma_decimal_len(t.len(), 20);
        lemma_escape_len(t.take(160));
        lemma_escape_len(t.skip(t.len() - 80));
        reveal_strlit("[kb truncated chars=");
        reveal_strlit(" head='");
        reveal_strlit("' tail='");
        reveal_strlit("']");
    }
}

} // verus!

verus! {

/// The symbols at a path are exactly the symbols whose path it is.
pub proof fn law_symbols_at_members(s: Seq<SymbolRecordView>, path: Chars, x: SymbolRecordView)
    ensures
        symbols_at(s, path).contains(x) <==> s.contains(x) && x.path == path,
    decreases s.len(),
{
    if s.len() > 0 {
        law_symbols_at_members(s.drop_last(), path, x);
        let y = s.last();
        let tail: Seq<SymbolRecordView> = if y.path == path { seq![y] } else { Seq::empty() };
        assert(symbols_at(s, path) == symbols_at(s.drop_last(), path) + tail);
        crate::text::lemma_contains_concat(symbols_at(s.drop_last(), path), tail, x);
        crate::text::lemma_contains_concat(s.drop_last(), seq![y], x);
        assert(s.drop_last() + seq![y] =~= s);
        if tail.contains(x) {
            assert(tail[0] == y);
        }
        if x == y {
            assert(seq![y][0] == x);
        }
    }
}

/// The edges from a file are exactly the edges whose source it is.
pub proof fn law_edges_at_members(s: Seq<DepEdgeView>, path: Chars, x: DepEdgeView)
    ensures
        edges_at(s, path).contains(x) <==> s.contains(x) && x.from_path == path,
    decreases s.len(),
{
    if s.len() > 0 {
        law_edges_at_members(s.drop_last(), path, x);
        let y = s.last();
        let tail: Seq<DepEdgeView> = if y.from_path == path { seq![y] } else { Seq::empty() };
        assert(edges_at(s, path) == edges_at(s.drop_last(), path) + tail);
        crate::text::lemma_contains_concat(edges_at(s.drop_last(), path), tail, x);
        crate::text::lemma_contains_concat(s.drop_last(), seq![y], x);
        assert(s.drop_last() + seq![y] =~= s);
        if tail.contains(x) {
            assert(tail[0] == y);
        }
        if x == y {
            assert(seq![y][0] == x);
        }
    }
}

/// The symbols a diff pack keeps are exactly those in its files.
pub proof fn law_symbols_within_members(s: Seq<SymbolRecordView>, paths: Seq<Chars>, x: SymbolRecordView)
    ensures
        symbols_within(s, paths).contains(x) <==> s.contains(x) && paths.contains(x.path),
    decreases s.len(),
{
    if s.len() > 0 {
        law_symbols_within_members(s.drop_last(), paths, x);
        let y = s.last();
        let tail: Seq<SymbolRecordView> = if paths.contains(y.path) { seq![y] } else { Seq::empty() };
        assert(symbols_within(s, paths) == symbols_within(s.drop_last(), paths) + tail);
        crate::text::lemma_contains_concat(symbols_within(s.drop_last(), paths), tail, x);
        crate::text::lemma_contains_concat(s.drop_last(), seq![y], x);
        assert(s.drop_last() + seq![y] =~= s);
        if tail.contains(x) {
            assert(tail[0] == y);
        }
        if x == y {
            assert(seq![y][0] == x);
        }
    }
}

/// The edges a diff pack keeps are exactly those that leave one of its
/// files for an external target or for another of its files.
pub proof fn law_edges_within_members(s: Seq<DepEdge>, paths: Seq<Chars>, x: DepEdge)
    ensures
        edges_within(s, paths).contains(x) <==> s.contains(x) && paths.contains(x@.from_path) && (x@.to_external is Some || (x@.to_path is Some && paths.contains(x@.to_path.unwrap()))),
    decreases s.len(),
{
    if s.len() > 0 {
        law_edges_within_members(s.drop_last(), paths, x);
        let y = s.last();
        let tail: Seq<DepEdge> = if edge_within(y@, paths) { seq![y] } else { Seq::empty() };
        assert(edges_within(s, paths) == edges_within(s.drop_last(), paths) + tail);
        crate::text::lemma_contains_concat(edges_within(s.drop_last(), paths), tail, x);
        crate::text::lemma_contains_concat(s.drop_last(), seq![y], x);
        assert(s.drop_last() + seq![y] =~= s);
        if tail.contains(x) {
            assert(tail[0] == y);
        }
        if x == y {
            assert(seq![y][0] == x);
        }
    }
}

/// The facts a selector pack brings in are exactly the records whose
/// string `fact_id` is a selected id.
pub proof fn law_facts_with_ids_members(s: Seq<crate::json::JsonValue>, ids: Seq<Chars>, x: crate::json::JsonValue)
    ensures
        facts_with_ids(s, ids).contains(x) <==> s.contains(x) && (crate::json::str_field(x, "fact_id"@) is Some && ids.contains(crate::json::str_field(x, "fact_id"@)->Some_0)),
    decreases s.len(),
{
    if s.len() > 0 {
        law_facts_with_ids_members(s.drop_last(), ids, x);
        let y = s.last();
        let tail: Seq<crate::json::JsonValue> = if (crate::json::str_field(y, "fact_id"@) matches Some(t) && ids.contains(t)) { seq![y] } else { Seq::empty() };
        assert(facts_with_ids(s, ids) == facts_with_ids(s.drop_last(), ids) + tail);
        crate::text::lemma_contains_concat(facts_with_ids(s.drop_last(), ids), tail, x);
        crate::text::lemma_contains_concat(s.drop_last(), seq![y], x);
        assert(s.drop_last() + seq![y] =~= s);
        if tail.contains(x) {
            assert(tail[0] == y);
        }
        if x == y {
            assert(seq![y][0] == x);
        }
    }
}

/// The facts a plan requires are exactly the records whose string `type`
/// is a required type.
pub proof fn law_facts_with_types_members(s: Seq<crate::json::JsonValue>, types: Seq<Chars>, x: crate::json::JsonValue)
    ensures
        facts_with_types(s, types).contains(x) <==> s.contains(x) && (crate::json::str_field(x, "type"@) is Some && types.contains(crate::json::str_field(x, "type"@)->Some_0)),
    decreases s.len(),
{
    if s.len() > 0 {
        law_facts_with_types_members(s.drop_last(), types, x);
        let y = s.last();
        let tail: Seq<crate::json::JsonValue> = if (crate::json::str_field(y, "type"@) matches Some(t) && types.contains(t)) { seq![y] } else { Seq::empty() };
        assert(facts_with_types(s, types) == facts_with_types(s.drop_last(), types) + tail);
        crate::text::lemma_contains_concat(facts_with_types(s.drop_last(), types), tail, x);
        crate::text::lemma_contains_concat(s.drop_last(), seq![y], x);
        assert(s.drop_last() + seq![y] =~= s);
        if tail.contains(x) {
            assert(tail[0] == y);
        }
        if x == y {
            assert(seq![y][0] == x);
        }
    }
}

/// The symbols of a list of files are exactly the symbols in one of them.
pub proof fn law_symbols_in_paths_members(symbols: Seq<SymbolRecordView>, paths: Seq<Chars>, x: SymbolRecordView)
    ensures
        symbols_in_paths(symbols, paths).contains(x) <==> symbols.contains(x) && paths.contains(x.path),
    decreases paths.len(),
{
    if paths.len() > 0 {
        law_symbols_in_paths_members(symbols, paths.drop_last(), x);
        law_symbols_at_members(symbols, paths.last(), x);
        crate::text::lemma_contains_concat(symbols_in_paths(symbols, paths.drop_last()), symbols_at(symbols, paths.last()), x);
        crate::text::lemma_contains_concat(paths.drop_last(), seq![paths.last()], x.path);
        assert(paths.drop_last() + seq![paths.last()] =~= paths);
        if x.path == paths.last() {
            assert(seq![paths.last()][0] == x.path);
        }
    }
}

/// The edges from a list of files are exactly the edges leaving one of them.
pub proof fn law_edges_in_paths_members(deps: Seq<DepEdgeView>, paths: Seq<Chars>, x: DepEdgeView)
    ensures
        edges_in_paths(deps, paths).contains(x) <==> deps.contains(x) && paths.contains(x.from_path),
    decreases paths.len(),
{
    if paths.len() > 0 {
        law_edges_in_paths_members(deps, paths.drop_last(), x);
        law_edges_at_members(deps, paths.last(), x);
        crate::text::lemma_contains_concat(edges_in_paths(deps, paths.drop_last()), edges_at(deps, paths.last()), x);
        crate::text::lemma_contains_concat(paths.drop_last(), seq![paths.last()], x.from_path);
        assert(paths.drop_last() + seq![paths.last()] =~= paths);
        if x.from_path == paths.last() {
            assert(seq![paths.last()][0] == x.from_path);
        }
    }
}

/// A diff pack starts from exactly the changed paths that were not deleted
/// and are indexed files.
pub proof fn law_seed_candidates_members(s: Seq<(Chars, Chars)>, files: Seq<Chars>, x: Chars)
    ensures
        seed_candidates(s, files).contains(x) <==> files.contains(x) && exists|i: int|
            0 <= i < s.len() && (#[trigger] s[i]).0 == x && s[i].1 != "delete"@,
    decreases s.len(),
{
    if s.len() > 0 {
        law_seed_candidates_members(s.drop_last(), files, x);
        let y = s.last();
        let tail: Seq<Chars> = if y.1 != "delete"@ && files.contains(y.0) { seq![y.0] } else { Seq::empty() };
        assert(seed_candidates(s, files) == seed_candidates(s.drop_last(), files) + tail);
        crate::text::lemma_contains_concat(seed_candidates(s.drop_last(), files), tail, x);
        if tail.contains(x) {
            assert(tail[0] == y.0);
            assert(s[s.len() - 1] == y);
        }
        if exists|i: int| 0 <= i < s.len() && (#[trigger] s[i]).0 == x && s[i].1 != "delete"@ {
            let i = choose|i: int| 0 <= i < s.len() && (#[trigger] s[i]).0 == x && s[i].1 != "delete"@;
            if i < s.len() - 1 {
                assert(s.drop_last()[i] == s[i]);
            } else if files.contains(x) {
                assert(tail[0] == x);
            }
        }
        if exists|i: int| 0 <= i < s.len() - 1 && (#[trigger] s.drop_last()[i]).0 == x && s.drop_last()[i].1 != "delete"@ {
            let i = choose|i: int| 0 <= i < s.len() - 1 && (#[trigger] s.drop_last()[i]).0 == x && s.drop_last()[i].1 != "delete"@;
            assert(s[i] == s.drop_last()[i]);
        }
    }
}

} // verus!
