//! `kb/gen/deps.jsonl`: import edges read line by line from Rust and JS/TS sources.
use vstd::prelude::*;

use crate::index::artifacts::{dep_views, opt_view, DepEdge, DepEdgeView};
use crate::order::{key_view, view_seq, SortKey};
use crate::text::{
    after_last, chars_of, concat2, contains_char, copy_str, decode_utf8_bytes, eq_lit, find_first,
    find_first_exec, find_last, find_last_exec, join, join_chars, lines, lines_of, split_char,
    split_chars, starts_with, starts_with_lit, string_of, sub_chars, trim, trim_chars, trim_end_char,
    trim_end_char_chars, trim_start, trim_start_chars, str_eq, Chars,
};

verus! {

// ---------------------------------------------------------------------------
// Languages
// ---------------------------------------------------------------------------

/// The languages whose imports the index reads.
pub open spec fn deps_lang_of_ext(ext: Chars) -> Chars {
    if ext == "rs"@ {
        "rust"@
    } else if ext == "js"@ || ext == "jsx"@ {
        "javascript"@
    } else if ext == "ts"@ || ext == "tsx"@ {
        "typescript"@
    } else {
        "unknown"@
    }
}

pub fn lang_for_path(path: &str) -> (lang: String)
    ensures
        lang@ == deps_lang_of_ext(after_last(path@, '.')),
{
    let e = crate::index::tree::extension_of(path);
    let e = e.as_slice();
    let name = if eq_lit(e, "rs") {
        "rust"
    } else if eq_lit(e, "js") || eq_lit(e, "jsx") {
        "javascript"
    } else if eq_lit(e, "ts") || eq_lit(e, "tsx") {
        "typescript"
    } else {
        "unknown"
    };
    copy_str(name)
}

// ---------------------------------------------------------------------------
// Quoted module names
// ---------------------------------------------------------------------------

pub open spec fn is_quote(c: char) -> bool {
    c == '"' || c == '\''
}

/// The first quote at or after `i`.
pub open spec fn open_quote_from(s: Chars, i: int) -> Option<int>
    decreases s.len() - i,
{
    if i < 0 || i >= s.len() {
        None
    } else if is_quote(s[i]) {
        Some(i)
    } else {
        open_quote_from(s, i + 1)
    }
}

/// The first `q` at or after `j`.
pub open spec fn close_quote_from(s: Chars, q: char, j: int) -> Option<int>
    decreases s.len() - j,
{
    if j < 0 || j >= s.len() {
        None
    } else if s[j] == q {
        Some(j)
    } else {
        close_quote_from(s, q, j + 1)
    }
}

/// The text between the first quote (`"` or `'`) and the next quote of the same kind.
pub open spec fn first_quoted(s: Chars) -> Option<Chars> {
    match open_quote_from(s, 0) {
        Some(i) => match close_quote_from(s, s[i], i + 1) {
            Some(j) => Some(s.subrange(i + 1, j)),
            None => None,
        },
        None => None,
    }
}

pub fn extract_first_quoted(text: &[char]) -> (r: Option<Vec<char>>)
    ensures
        r matches Some(v) ==> first_quoted(text@) == Some(v@),
        r is None ==> first_quoted(text@) is None,
{
    let mut i: usize = 0;
    while i < text.len() && !(text[i] == '"' || text[i] == '\'')
        invariant
            i <= text@.len(),
            open_quote_from(text@, 0) == open_quote_from(text@, i as int),
        decreases text@.len() - i,
    {
        i += 1;
    }
    if i == text.len() {
        return None;
    }
    let quote = text[i];
    let mut j: usize = i + 1;
    while j < text.len() && text[j] != quote
        invariant
            i < j <= text@.len(),
            close_quote_from(text@, quote, i + 1) == close_quote_from(text@, quote, j as int),
        decreases text@.len() - j,
    {
        j += 1;
    }
    if j == text.len() {
        return None;
    }
    Some(sub_chars(text, i + 1, j))
}

/// `import ... from "m"` (the quote after the last ` from `) or `import "m"`.
pub open spec fn import_module(line: Chars) -> Option<Chars> {
    match find_last(line, " from "@) {
        Some(idx) => first_quoted(line.skip(idx)),
        None => first_quoted(line),
    }
}

pub fn extract_import_module(line: &[char]) -> (r: Option<Vec<char>>)
    ensures
        r matches Some(v) ==> import_module(line@) == Some(v@),
        r is None ==> import_module(line@) is None,
{
    let needle = chars_of(" from ");
    match find_last_exec(line, needle.as_slice()) {
        Some(idx) => {
            let rest = sub_chars(line, idx, line.len());
            assert(rest@ =~= line@.skip(idx as int));
            extract_first_quoted(rest.as_slice())
        },
        None => extract_first_quoted(line),
    }
}

/// The quoted argument of the first `func(` call on a line.
pub open spec fn call_module(line: Chars, func: Chars) -> Option<Chars> {
    let needle = func.push('(');
    match find_first(line, needle) {
        Some(idx) => first_quoted(line.skip(idx + needle.len())),
        None => None,
    }
}

pub fn extract_call_module(line: &[char], func: &str) -> (r: Option<Vec<char>>)
    ensures
        r matches Some(v) ==> call_module(line@, func@) == Some(v@),
        r is None ==> call_module(line@, func@) is None,
{
    let mut needle = chars_of(func);
    needle.push('(');
    match find_first_exec(line, needle.as_slice()) {
        Some(idx) => {
            if needle.len() > line.len() - idx {
                assert(false) by {
                    assert(crate::text::occurs_at(line@, needle@, idx as int));
                }
                return None;
            }
            let rest = sub_chars(line, idx + needle.len(), line.len());
            assert(rest@ =~= line@.skip(idx + needle@.len()));
            extract_first_quoted(rest.as_slice())
        },
        None => None,
    }
}

// ---------------------------------------------------------------------------
// Rust
// ---------------------------------------------------------------------------

/// The crate (or first path segment) that a `use` line imports.
pub open spec fn rust_use_root(line: Chars) -> Option<Chars> {
    let t = trim_start(line);
    if starts_with(t, "use "@) {
        let raw = trim(trim_end_char(t.skip(4), ';'));
        let first = match find_first(raw, "::"@) {
            Some(k) => raw.take(k),
            None => raw,
        };
        let f = trim(first);
        if f.len() == 0 {
            None
        } else {
            Some(f)
        }
    } else {
        None
    }
}

fn rust_use_root_exec(line: &[char]) -> (r: Option<Vec<char>>)
    ensures
        r matches Some(v) ==> rust_use_root(line@) == Some(v@),
        r is None ==> rust_use_root(line@) is None,
{
    let t = trim_start_chars(line);
    if !starts_with_lit(t.as_slice(), "use ") {
        return None;
    }
    proof {
        reveal_strlit("use ");
    }
    let rest = sub_chars(t.as_slice(), 4, t.len());
    assert(rest@ =~= t@.skip(4));
    let no_semi = trim_end_char_chars(rest.as_slice(), ';');
    let raw = trim_chars(no_semi.as_slice());
    let sep = chars_of("::");
    let first = match find_first_exec(raw.as_slice(), sep.as_slice()) {
        Some(k) => {
            proof {
                assert(crate::text::occurs_at(raw@, sep@, k as int));
            }
            sub_chars(raw.as_slice(), 0, k)
        },
        None => sub_chars(raw.as_slice(), 0, raw.len()),
    };
    assert(raw@.take(raw@.len() as int) =~= raw@);
    let f = trim_chars(first.as_slice());
    if f.len() == 0 {
        None
    } else {
        Some(f)
    }
}

/// The import edge of a Rust `use` line.
pub open spec fn rust_edge(from: Chars, root: Chars) -> DepEdgeView {
    DepEdgeView { from_path: from, kind: "import"@, to_path: None, to_external: Some(root), raw: None }
}

/// The edges of a Rust file: one per `use` line, in line order.
pub open spec fn rust_edges(from: Chars, ls: Seq<Chars>) -> Seq<DepEdgeView>
    decreases ls.len(),
{
    if ls.len() == 0 {
        Seq::empty()
    } else {
        let rest = rust_edges(from, ls.drop_last());
        match rust_use_root(ls.last()) {
            Some(root) => rest.push(rust_edge(from, root)),
            None => rest,
        }
    }
}

pub open spec fn edge_views(v: Seq<DepEdge>) -> Seq<DepEdgeView> {
    v.map_values(|e: DepEdge| e@)
}

pub fn parse_rust_deps(from_path: &str, text: &str) -> (out: Vec<DepEdge>)
    ensures
        edge_views(out@) == rust_edges(from_path@, lines(text@)),
{
    let tv = chars_of(text);
    let ls = lines_of(tv.as_slice());
    let ghost lv = ls@.map_values(|p: Vec<char>| p@);
    let mut out: Vec<DepEdge> = Vec::new();
    let mut i: usize = 0;
    while i < ls.len()
        invariant
            i <= ls@.len(),
            lv == ls@.map_values(|p: Vec<char>| p@),
            lv == lines(text@),
            edge_views(out@) == rust_edges(from_path@, lv.take(i as int)),
        decreases ls@.len() - i,
    {
        assert(lv.take(i + 1).drop_last() =~= lv.take(i as int));
        assert(lv.take(i + 1).last() == ls@[i as int]@);
        let ghost prev = edge_views(out@);
        match rust_use_root_exec(ls[i].as_slice()) {
            Some(root) => {
                let e = DepEdge {
                    from_path: copy_str(from_path),
                    kind: copy_str("import"),
                    to_path: None,
                    to_external: Some(string_of(root.as_slice())),
                    raw: None,
                };
                out.push(e);
                assert(edge_views(out@) =~= prev.push(rust_edge(from_path@, root@)));
            },
            None => {},
        }
        i += 1;
    }
    assert(lv.take(ls@.len() as int) =~= lv);
    out
}

// ---------------------------------------------------------------------------
// JavaScript / TypeScript
// ---------------------------------------------------------------------------

/// `trim_start_matches("./")`.
pub open spec fn strip_dot_slash(s: Chars) -> Chars
    decreases s.len(),
{
    if s.len() >= 2 && s[0] == '.' && s[1] == '/' {
        strip_dot_slash(s.skip(2))
    } else {
        s
    }
}

/// Walks relative path pieces from a base: `..` goes up (and fails above the
/// root), empty pieces and `.` stay.
pub open spec fn walk_pieces(base: Seq<Chars>, pieces: Seq<Chars>) -> Option<Seq<Chars>>
    decreases pieces.len(),
{
    if pieces.len() == 0 {
        Some(base)
    } else {
        match walk_pieces(base, pieces.drop_last()) {
            None => None,
            Some(comps) => {
                let p = pieces.last();
                if p.len() == 0 || p == seq!['.'] {
                    Some(comps)
                } else if p == seq!['.', '.'] {
                    if comps.len() == 0 {
                        None
                    } else {
                        Some(comps.drop_last())
                    }
                } else {
                    Some(comps.push(p))
                }
            },
        }
    }
}

/// The directory pieces of the importing file: none when it has no `/` or
/// nothing stands before its last `/`.
pub open spec fn base_components(from: Chars) -> Seq<Chars> {
    let b = split_char(from, '/').drop_last();
    if !from.contains('/') || (b.len() == 1 && b[0].len() == 0) {
        Seq::empty()
    } else {
        b
    }
}

/// The files an extension-less import may name, in the order they are tried.
pub open spec fn js_candidates(joined: Chars) -> Seq<Chars> {
    if after_last(joined, '/').contains('.') {
        seq![joined]
    } else {
        seq![
            joined + ".ts"@,
            joined + ".tsx"@,
            joined + ".js"@,
            joined + ".jsx"@,
            joined + "/index.ts"@,
            joined + "/index.tsx"@,
            joined + "/index.js"@,
            joined + "/index.jsx"@,
        ]
    }
}

/// The candidates that are repo_files files.
pub open spec fn tracked_matches(cands: Seq<Chars>, repo_files: Seq<Chars>) -> Seq<Chars> {
    cands.filter(|c: Chars| repo_files.contains(c))
}

/// The repo_files file that a relative import names, when exactly one candidate is repo_files.
pub open spec fn resolve_relative(from: Chars, module: Chars, repo_files: Seq<Chars>) -> Option<Chars> {
    match walk_pieces(base_components(from), split_char(strip_dot_slash(module), '/')) {
        None => None,
        Some(comps) => {
            let m = tracked_matches(js_candidates(join(comps, seq!['/'])), repo_files);
            if m.len() == 1 {
                Some(m[0])
            } else {
                None
            }
        },
    }
}

proof fn lemma_split_join_base(from: Chars)
    ensures
        from.contains('/') ==> split_char(from, '/').len() >= 2,
    decreases from.len(),
{
    crate::text::lemma_split_char_nonempty(from, '/');
    if from.len() > 0 {
        lemma_split_join_base(from.drop_last());
        crate::text::lemma_split_char_nonempty(from.drop_last(), '/');
        if from.contains('/') && !from.drop_last().contains('/') {
            if from.last() != '/' {
                let k = choose|k: int| 0 <= k < from.len() && from[k] == '/';
                if k < from.len() - 1 {
                    assert(from.drop_last()[k] == '/');
                }
            }
        }
        if from.drop_last().contains('/') {
            let k = choose|k: int| 0 <= k < from.drop_last().len() && from.drop_last()[k] == '/';
            assert(from[k] == '/');
        }
    }
}

fn strip_dot_slash_exec(s: &[char]) -> (r: Vec<char>)
    ensures
        r@ == strip_dot_slash(s@),
{
    let mut i: usize = 0;
    assert(s@.skip(0) =~= s@);
    while i < s.len() && s.len() - i >= 2 && s[i] == '.' && s[i + 1] == '/'
        invariant
            i <= s@.len(),
            strip_dot_slash(s@) == strip_dot_slash(s@.skip(i as int)),
        decreases s@.len() - i,
    {
        assert(s@.skip(i as int).skip(2) =~= s@.skip(i + 2));
        i += 2;
    }
    let r = sub_chars(s, i, s.len());
    assert(r@ =~= s@.skip(i as int));
    r
}

fn contains_view(repo_files: &Vec<String>, c: &[char]) -> (b: bool)
    ensures
        b == repo_files@.map_values(|s: String| s@).contains(c@),
{
    let ghost tv = repo_files@.map_values(|s: String| s@);
    let mut i: usize = 0;
    while i < repo_files.len()
        invariant
            i <= repo_files@.len(),
            tv == repo_files@.map_values(|s: String| s@),
            forall|k: int| 0 <= k < i ==> tv[k] != c@,
        decreases repo_files@.len() - i,
    {
        let t = chars_of(repo_files[i].as_str());
        if crate::text::chars_eq(t.as_slice(), c) {
            assert(tv[i as int] == c@);
            return true;
        }
        i += 1;
    }
    false
}

fn with_suffix(base: &[char], suffix: &str) -> (r: Vec<char>)
    ensures
        r@ == base@ + suffix@,
{
    let mut r = sub_chars(base, 0, base.len());
    assert(r@ =~= base@);
    let s = chars_of(suffix);
    crate::text::append_chars(&mut r, s.as_slice());
    r
}

/// Resolves `./x` or `../x` against the importing file and the repo_files files.
pub fn resolve_js_relative(from_path: &str, module: &str, repo_files: &Vec<String>) -> (r: Option<String>)
    ensures
        r matches Some(p) ==> resolve_relative(from_path@, module@, repo_files@.map_values(|s: String| s@)) == Some(p@),
        r is None ==> resolve_relative(from_path@, module@, repo_files@.map_values(|s: String| s@)) is None,
{
    let ghost tv = repo_files@.map_values(|s: String| s@);
    let fv = chars_of(from_path);
    let mut comps: Vec<Vec<char>> = Vec::new();
    if contains_char(fv.as_slice(), '/') {
        let mut parts = split_chars(fv.as_slice(), '/');
        proof {
            lemma_split_join_base(from_path@);
        }
        let ghost pv = parts@.map_values(|p: Vec<char>| p@);
        parts.pop();
        assert(parts@.map_values(|p: Vec<char>| p@) =~= pv.drop_last());
        if parts.len() == 1 && parts[0].len() == 0 {
            assert(pv.drop_last()[0] == parts@[0]@);
            assert(comps@.map_values(|p: Vec<char>| p@) =~= Seq::<Chars>::empty());
        } else {
            proof {
                if pv.drop_last().len() == 1 {
                    assert(pv.drop_last()[0] == parts@[0]@);
                }
            }
            comps = parts;
        }
    } else {
        assert(comps@.map_values(|p: Vec<char>| p@) =~= Seq::<Chars>::empty());
    }
    let ghost base = comps@.map_values(|p: Vec<char>| p@);
    assert(base == base_components(from_path@));
    let mv = chars_of(module);
    let target = strip_dot_slash_exec(mv.as_slice());
    let pieces = split_chars(target.as_slice(), '/');
    let ghost piv = pieces@.map_values(|p: Vec<char>| p@);
    let mut i: usize = 0;
    assert(piv.take(0) =~= Seq::<Chars>::empty());
    while i < pieces.len()
        invariant
            i <= pieces@.len(),
            piv == pieces@.map_values(|p: Vec<char>| p@),
            piv == split_char(strip_dot_slash(module@), '/'),
            base == base_components(from_path@),
            walk_pieces(base, piv.take(i as int)) == Some(comps@.map_values(|p: Vec<char>| p@)),
        decreases pieces@.len() - i,
    {
        assert(piv.take(i + 1).drop_last() =~= piv.take(i as int));
        assert(piv.take(i + 1).last() == pieces@[i as int]@);
        let p = &pieces[i];
        let ghost cv = comps@.map_values(|p: Vec<char>| p@);
        if p.len() == 0 || crate::repo::path::is_dot(p.as_slice()) {
        } else if crate::repo::path::is_dot_dot(p.as_slice()) {
            if comps.len() == 0 {
                proof {
                    assert(cv.len() == 0);
                    assert(piv[i as int] == seq!['.', '.']);
                    assert(piv.take(i + 1).last() == piv[i as int]);
                    assert(walk_pieces(base, piv.take(i + 1)) is None);
                    lemma_walk_none_extends(base, piv, i as int + 1);
                }
                return None;
            }
            comps.pop();
            assert(comps@.map_values(|p: Vec<char>| p@) =~= cv.drop_last());
        } else {
            let piece = sub_chars(p.as_slice(), 0, p.len());
            assert(piece@ =~= p@);
            comps.push(piece);
            assert(comps@.map_values(|p: Vec<char>| p@) =~= cv.push(p@));
        }
        i += 1;
    }
    assert(piv.take(pieces@.len() as int) =~= piv);
    let joined = join_chars(&comps, &['/']);
    assert(['/']@ =~= seq!['/']);
    let last_parts = split_chars(joined.as_slice(), '/');
    proof {
        crate::text::lemma_split_char_nonempty(joined@, '/');
    }
    let last = &last_parts[last_parts.len() - 1];
    let mut cands: Vec<Vec<char>> = Vec::new();
    if contains_char(last.as_slice(), '.') {
        cands.push(sub_chars(joined.as_slice(), 0, joined.len()));
        assert(joined@.subrange(0, joined@.len() as int) =~= joined@);
    } else {
        cands.push(with_suffix(joined.as_slice(), ".ts"));
        cands.push(with_suffix(joined.as_slice(), ".tsx"));
        cands.push(with_suffix(joined.as_slice(), ".js"));
        cands.push(with_suffix(joined.as_slice(), ".jsx"));
        cands.push(with_suffix(joined.as_slice(), "/index.ts"));
        cands.push(with_suffix(joined.as_slice(), "/index.tsx"));
        cands.push(with_suffix(joined.as_slice(), "/index.js"));
        cands.push(with_suffix(joined.as_slice(), "/index.jsx"));
    }
    let ghost cv = cands@.map_values(|p: Vec<char>| p@);
    assert(cv =~= js_candidates(joined@));
    let mut matches: Vec<Vec<char>> = Vec::new();
    let mut k: usize = 0;
    while k < cands.len()
        invariant
            k <= cands@.len(),
            cv == cands@.map_values(|p: Vec<char>| p@),
            tv == repo_files@.map_values(|s: String| s@),
            matches@.map_values(|p: Vec<char>| p@) == tracked_matches(cv.take(k as int), tv),
        decreases cands@.len() - k,
    {
        proof {
            let t1 = cv.take(k + 1);
            assert(t1.drop_last() =~= cv.take(k as int));
            reveal_with_fuel(Seq::<Chars>::filter, 1);
        }
        let ghost prev = matches@.map_values(|p: Vec<char>| p@);
        if contains_view(repo_files, cands[k].as_slice()) {
            let m = sub_chars(cands[k].as_slice(), 0, cands[k].len());
            assert(m@ =~= cv[k as int]);
            matches.push(m);
            assert(matches@.map_values(|p: Vec<char>| p@) =~= prev.push(cv[k as int]));
        }
        k += 1;
    }
    assert(cv.take(cands@.len() as int) =~= cv);
    if matches.len() == 1 {
        Some(string_of(matches[0].as_slice()))
    } else {
        None
    }
}

proof fn lemma_walk_none_extends(base: Seq<Chars>, pieces: Seq<Chars>, n: int)
    requires
        0 <= n <= pieces.len(),
        walk_pieces(base, pieces.take(n)) is None,
    ensures
        walk_pieces(base, pieces) is None,
    decreases pieces.len() - n,
{
    if n < pieces.len() {
        assert(pieces.take(n + 1).drop_last() =~= pieces.take(n));
        lemma_walk_none_extends(base, pieces, n + 1);
    } else {
        assert(pieces.take(n) =~= pieces);
    }
}

/// A JS edge: to the repo_files file a relative import resolves to, else to the module name.
pub open spec fn js_edge(from: Chars, kind: Chars, module: Chars, repo_files: Seq<Chars>) -> DepEdgeView {
    let rel = starts_with(module, "./"@) || starts_with(module, "../"@);
    match (if rel { resolve_relative(from, module, repo_files) } else { None }) {
        Some(p) => DepEdgeView { from_path: from, kind, to_path: Some(p), to_external: None, raw: None },
        None => DepEdgeView { from_path: from, kind, to_path: None, to_external: Some(module), raw: None },
    }
}

pub fn make_js_edge(from_path: &str, kind: &str, module: &str, repo_files: &Vec<String>) -> (e: DepEdge)
    ensures
        e@ == js_edge(from_path@, kind@, module@, repo_files@.map_values(|s: String| s@)),
{
    let mv = chars_of(module);
    if starts_with_lit(mv.as_slice(), "./") || starts_with_lit(mv.as_slice(), "../") {
        if let Some(to_path) = resolve_js_relative(from_path, module, repo_files) {
            return DepEdge {
                from_path: copy_str(from_path),
                kind: copy_str(kind),
                to_path: Some(to_path),
                to_external: None,
                raw: None,
            };
        }
    }
    DepEdge {
        from_path: copy_str(from_path),
        kind: copy_str(kind),
        to_path: None,
        to_external: Some(copy_str(module)),
        raw: None,
    }
}

/// The (kind, module) that a JS/TS line imports, if any.
pub open spec fn js_line_import(line: Chars) -> Option<(Chars, Chars)> {
    let t = trim(line);
    if t.len() == 0 {
        None
    } else if starts_with(t, "import "@) {
        match import_module(t) {
            Some(m) => Some(("import"@, m)),
            None => None,
        }
    } else if call_module(t, "require"@) is Some {
        Some(("require"@, call_module(t, "require"@)->0))
    } else if call_module(t, "import"@) is Some {
        Some(("dynamic"@, call_module(t, "import"@)->0))
    } else {
        None
    }
}

/// The edges of a JS/TS file, in line order.
pub open spec fn js_edges(from: Chars, ls: Seq<Chars>, repo_files: Seq<Chars>) -> Seq<DepEdgeView>
    decreases ls.len(),
{
    if ls.len() == 0 {
        Seq::empty()
    } else {
        let rest = js_edges(from, ls.drop_last(), repo_files);
        match js_line_import(ls.last()) {
            Some((kind, m)) => rest.push(js_edge(from, kind, m, repo_files)),
            None => rest,
        }
    }
}

pub fn parse_js_deps(from_path: &str, text: &str, repo_files: &Vec<String>) -> (out: Vec<DepEdge>)
    ensures
        edge_views(out@) == js_edges(from_path@, lines(text@), repo_files@.map_values(|s: String| s@)),
{
    let ghost tv = repo_files@.map_values(|s: String| s@);
    let chars = chars_of(text);
    let ls = lines_of(chars.as_slice());
    let ghost lv = ls@.map_values(|p: Vec<char>| p@);
    let mut out: Vec<DepEdge> = Vec::new();
    let mut i: usize = 0;
    while i < ls.len()
        invariant
            i <= ls@.len(),
            lv == ls@.map_values(|p: Vec<char>| p@),
            lv == lines(text@),
            tv == repo_files@.map_values(|s: String| s@),
            edge_views(out@) == js_edges(from_path@, lv.take(i as int), tv),
        decreases ls@.len() - i,
    {
        assert(lv.take(i + 1).drop_last() =~= lv.take(i as int));
        assert(lv.take(i + 1).last() == ls@[i as int]@);
        let ghost prev = edge_views(out@);
        let t = trim_chars(ls[i].as_slice());
        if t.len() > 0 {
            if starts_with_lit(t.as_slice(), "import ") {
                if let Some(m) = extract_import_module(t.as_slice()) {
                    let ms = string_of(m.as_slice());
                    let e = make_js_edge(from_path, "import", ms.as_str(), repo_files);
                    out.push(e);
                    assert(edge_views(out@) =~= prev.push(js_edge(from_path@, "import"@, m@, tv)));
                }
            } else if let Some(m) = extract_call_module(t.as_slice(), "require") {
                let ms = string_of(m.as_slice());
                let e = make_js_edge(from_path, "require", ms.as_str(), repo_files);
                out.push(e);
                assert(edge_views(out@) =~= prev.push(js_edge(from_path@, "require"@, m@, tv)));
            } else if let Some(m) = extract_call_module(t.as_slice(), "import") {
                let ms = string_of(m.as_slice());
                let e = make_js_edge(from_path, "dynamic", ms.as_str(), repo_files);
                out.push(e);
                assert(edge_views(out@) =~= prev.push(js_edge(from_path@, "dynamic"@, m@, tv)));
            }
        }
        i += 1;
    }
    assert(lv.take(ls@.len() as int) =~= lv);
    out
}

// ---------------------------------------------------------------------------
// Ordering and the per-file entry point
// ---------------------------------------------------------------------------

/// Where an edge points: its path, else its external module, else nothing.
pub open spec fn edge_target(e: DepEdgeView) -> Chars {
    match e.to_path {
        Some(p) => p,
        None => match e.to_external {
            Some(x) => x,
            None => Seq::empty(),
        },
    }
}

pub open spec fn flag(b: bool) -> Chars {
    if b {
        seq!['1']
    } else {
        seq!['0']
    }
}

pub open spec fn opt_text(o: Option<Chars>) -> Chars {
    match o {
        Some(s) => s,
        None => Seq::empty(),
    }
}

/// Edges are listed by source, kind, target text, then by the raw text
/// (absent first).
pub open spec fn edge_key(e: DepEdgeView) -> Seq<Chars> {
    seq![e.from_path, e.kind, edge_target(e), flag(e.raw is Some), opt_text(e.raw)]
}

fn flag_chars(b: bool) -> (v: Vec<char>)
    ensures
        v@ == flag(b),
{
    let mut v: Vec<char> = Vec::new();
    v.push(if b { '1' } else { '0' });
    assert(v@ =~= flag(b));
    v
}

impl SortKey for DepEdge {
    open spec fn key(&self) -> Seq<Chars> {
        edge_key(self@)
    }

    fn exec_key(&self) -> (k: Vec<Vec<char>>) {
        let mut k: Vec<Vec<char>> = Vec::new();
        k.push(chars_of(self.from_path.as_str()));
        k.push(chars_of(self.kind.as_str()));
        let target = match &self.to_path {
            Some(p) => chars_of(p.as_str()),
            None => match &self.to_external {
                Some(x) => chars_of(x.as_str()),
                None => Vec::new(),
            },
        };
        k.push(target);
        k.push(flag_chars(self.raw.is_some()));
        k.push(
            match &self.raw {
                Some(r) => chars_of(r.as_str()),
                None => Vec::new(),
            },
        );
        assert(key_view(k) =~= edge_key(self@));
        k
    }
}

/// The edges of one file, given its contents: Rust `use` lines, JS/TS imports;
/// nothing for other languages or for contents that are not UTF-8.
pub open spec fn file_edges(from: Chars, bytes: Seq<u8>, repo_files: Seq<Chars>) -> Seq<DepEdgeView> {
    let lang = deps_lang_of_ext(after_last(from, '.'));
    if lang == "unknown"@ || !vstd::utf8::valid_utf8(bytes) {
        Seq::empty()
    } else if lang == "rust"@ {
        rust_edges(from, lines(vstd::utf8::decode_utf8(bytes)))
    } else {
        js_edges(from, lines(vstd::utf8::decode_utf8(bytes)), repo_files)
    }
}

pub fn file_dep_edges(from_path: &str, bytes: &[u8], repo_files: &Vec<String>) -> (out: Vec<DepEdge>)
    ensures
        edge_views(out@) == file_edges(from_path@, bytes@, repo_files@.map_values(|s: String| s@)),
{
    let lang = lang_for_path(from_path);
    let lv = chars_of(lang.as_str());
    if eq_lit(lv.as_slice(), "unknown") {
        let out: Vec<DepEdge> = Vec::new();
        assert(edge_views(out@) =~= Seq::<DepEdgeView>::empty());
        return out;
    }
    let text = match decode_utf8_bytes(bytes) {
        Ok(t) => t,
        Err(_) => {
            let out: Vec<DepEdge> = Vec::new();
            assert(edge_views(out@) =~= Seq::<DepEdgeView>::empty());
            return out;
        },
    };
    if eq_lit(lv.as_slice(), "rust") {
        parse_rust_deps(from_path, text)
    } else {
        parse_js_deps(from_path, text, repo_files)
    }
}

/// `out` is `inp` stably sorted by edge order with repeated neighbours dropped.
pub open spec fn deps_listed(out: Seq<DepEdgeView>, inp: Seq<DepEdgeView>) -> bool {
    exists|u: Seq<DepEdge>, s: Seq<DepEdge>|
        view_seq(u) == inp && #[trigger] crate::order::stably_sorted(s, u) && out == crate::query::plan::dedup_adjacent(view_seq(s))
}

fn opt_str_eq(a: &Option<String>, b: &Option<String>) -> (r: bool)
    ensures
        r == (opt_view(*a) == opt_view(*b)),
{
    match (a, b) {
        (Some(x), Some(y)) => str_eq(x.as_str(), y.as_str()),
        (None, None) => true,
        _ => false,
    }
}

fn same_edge(a: &DepEdge, b: &DepEdge) -> (r: bool)
    ensures
        r == (a@ == b@),
{
    str_eq(a.from_path.as_str(), b.from_path.as_str()) && str_eq(a.kind.as_str(), b.kind.as_str()) && opt_str_eq(
        &a.to_path,
        &b.to_path,
    ) && opt_str_eq(&a.to_external, &b.to_external) && opt_str_eq(&a.raw, &b.raw)
}

proof fn lemma_dedup_last<A>(s: Seq<A>)
    requires
        s.len() > 0,
    ensures
        crate::query::plan::dedup_adjacent(s).len() > 0,
        crate::query::plan::dedup_adjacent(s).last() == s.last(),
    decreases s.len(),
{
    if s.len() > 1 {
        lemma_dedup_last(s.drop_last());
    }
}

/// All edges stably sorted by `edge_key`, repeated neighbours dropped (what
/// `sort_by` on the edge order and then `dedup` give; see `deps_listed`).
pub fn sorted_dep_edges(deps: &Vec<DepEdge>) -> (out: Vec<DepEdge>)
    ensures
        deps_listed(dep_views(out@), view_seq(deps@)),
{
    let s = crate::order::stable_sort_by_key(deps);
    let ghost sv = view_seq(s@);
    let mut out: Vec<DepEdge> = Vec::new();
    let mut i: usize = 0;
    assert(sv.take(0) =~= Seq::<DepEdgeView>::empty());
    assert(dep_views(out@) =~= Seq::<DepEdgeView>::empty());
    while i < s.len()
        invariant
            i <= s@.len(),
            sv == view_seq(s@),
            dep_views(out@) == crate::query::plan::dedup_adjacent(sv.take(i as int)),
        decreases s@.len() - i,
    {
        let ghost prev = dep_views(out@);
        assert(sv.take(i + 1).drop_last() =~= sv.take(i as int));
        assert(sv.take(i + 1).last() == sv[i as int]);
        let same = if out.len() > 0 {
            same_edge(&out[out.len() - 1], &s[i])
        } else {
            false
        };
        proof {
            if i > 0 {
                lemma_dedup_last(sv.take(i as int));
                assert(sv.take(i as int).last() == sv[i - 1]);
                assert(sv.take(i + 1)[i - 1] == sv[i - 1]);
                assert(prev.last() == out@[out@.len() - 1]@);
            }
        }
        if !same {
            out.push(s[i].duplicate());
            assert(dep_views(out@) =~= prev.push(sv[i as int]));
        }
        i += 1;
    }
    assert(sv.take(s@.len() as int) =~= sv);
    assert(crate::order::stably_sorted(s@, deps@));
    out
}

} // verus!

verus! {

impl crate::order::KeyedCopy for DepEdge {
    fn duplicate(&self) -> (r: DepEdge) {
        DepEdge::duplicate(self)
    }
}

} // verus!

verus! {

/// An edge as the index makes it from `from`: no raw text, an `import`,
/// `require` or `dynamic` kind, exactly one target, a target path only when
/// it is one of `repo_files`.
pub open spec fn generated_edge(e: DepEdgeView, from: Chars, repo_files: Seq<Chars>) -> bool {
    &&& e.from_path == from
    &&& e.raw is None
    &&& (e.kind == "import"@ || e.kind == "require"@ || e.kind == "dynamic"@)
    &&& (e.to_path is Some) != (e.to_external is Some)
    &&& (e.to_path matches Some(p) ==> repo_files.contains(p))
}

proof fn lemma_rust_edges_generated(from: Chars, ls: Seq<Chars>, repo_files: Seq<Chars>)
    ensures
        forall|i: int| 0 <= i < rust_edges(from, ls).len() ==> generated_edge(#[trigger] rust_edges(from, ls)[i], from, repo_files),
    decreases ls.len(),
{
    if ls.len() > 0 {
        lemma_rust_edges_generated(from, ls.drop_last(), repo_files);
        let rest = rust_edges(from, ls.drop_last());
        let all = rust_edges(from, ls);
        assert forall|i: int| 0 <= i < all.len() implies generated_edge(#[trigger] all[i], from, repo_files) by {
            if i < rest.len() {
                assert(all[i] == rest[i]);
            }
        }
    }
}

proof fn lemma_js_edge_generated(from: Chars, kind: Chars, m: Chars, repo_files: Seq<Chars>)
    requires
        kind == "import"@ || kind == "require"@ || kind == "dynamic"@,
    ensures
        generated_edge(js_edge(from, kind, m, repo_files), from, repo_files),
{
    let rel = starts_with(m, "./"@) || starts_with(m, "../"@);
    if rel {
        match walk_pieces(base_components(from), split_char(strip_dot_slash(m), '/')) {
            None => {},
            Some(comps) => {
                let cands = js_candidates(join(comps, seq!['/']));
                let pred = |c: Chars| repo_files.contains(c);
                let t = tracked_matches(cands, repo_files);
                if t.len() == 1 {
                    cands.lemma_filter_pred(pred, 0);
                }
            },
        }
    }
}

proof fn lemma_js_edges_generated(from: Chars, ls: Seq<Chars>, repo_files: Seq<Chars>)
    ensures
        forall|i: int|
            0 <= i < js_edges(from, ls, repo_files).len() ==> generated_edge(#[trigger] js_edges(from, ls, repo_files)[i], from, repo_files),
    decreases ls.len(),
{
    if ls.len() > 0 {
        lemma_js_edges_generated(from, ls.drop_last(), repo_files);
        let rest = js_edges(from, ls.drop_last(), repo_files);
        let all = js_edges(from, ls, repo_files);
        match js_line_import(ls.last()) {
            Some((kind, m)) => {
                lemma_js_edge_generated(from, kind, m, repo_files);
            },
            None => {},
        }
        assert forall|i: int| 0 <= i < all.len() implies generated_edge(#[trigger] all[i], from, repo_files) by {
            if i < rest.len() {
                assert(all[i] == rest[i]);
            }
        }
    }
}

/// Every edge that `file_dep_edges` reads from a file is a generated edge of
/// that file.
pub proof fn law_file_edges_are_generated(from: Chars, bytes: Seq<u8>, repo_files: Seq<Chars>)
    ensures
        forall|i: int|
            0 <= i < file_edges(from, bytes, repo_files).len() ==> generated_edge(
                #[trigger] file_edges(from, bytes, repo_files)[i],
                from,
                repo_files,
            ),
{
    let lang = deps_lang_of_ext(after_last(from, '.'));
    if lang == "unknown"@ || !vstd::utf8::valid_utf8(bytes) {
    } else if lang == "rust"@ {
        lemma_rust_edges_generated(from, lines(vstd::utf8::decode_utf8(bytes)), repo_files);
    } else {
        lemma_js_edges_generated(from, lines(vstd::utf8::decode_utf8(bytes)), repo_files);
    }
}

} // verus!

verus! {

} // verus!

verus! {

/// Listing edges is deterministic: two lists that meet `sorted_dep_edges`'
/// contract for the same edges are the same list.
pub proof fn law_sorted_dep_edges_deterministic(inp: Seq<DepEdgeView>, o1: Seq<DepEdgeView>, o2: Seq<DepEdgeView>)
    requires
        deps_listed(o1, inp),
        deps_listed(o2, inp),
    ensures
        o1 == o2,
{
    let (u1, s1) = choose|u: Seq<DepEdge>, s: Seq<DepEdge>|
        view_seq(u) == inp && #[trigger] crate::order::stably_sorted(s, u) && o1 == crate::query::plan::dedup_adjacent(view_seq(s));
    let (u2, s2) = choose|u: Seq<DepEdge>, s: Seq<DepEdge>|
        view_seq(u) == inp && #[trigger] crate::order::stably_sorted(s, u) && o2 == crate::query::plan::dedup_adjacent(view_seq(s));
    assert forall|x: DepEdge, y: DepEdge| x@ == y@ implies #[trigger] x.key() == #[trigger] y.key() by {}
    crate::order::lemma_stably_sorted_determined(s1, u1, s2, u2);
}

} // verus!
