//! Typed descriptions of a path, a module card or a symbol, from the index.
use vstd::prelude::*;

use crate::error::{error_with, plain_error, ErrorCode, KbError, KbErrorView};
use crate::index::artifacts::{
    dep_views, opt_view, symbol_views, tree_views, DepEdge, DepEdgeView, SymbolRecord, SymbolRecordView,
    TreeRecord, TreeRecordView,
};
use crate::order::{
    key_view, reversed, sort_dedup, sort_unique_by_key, sorted_key_set_of, sorted_set, sorted_unique_views, views, SortKey,
};
use crate::query::module_card::{ModuleCardToml, ModuleCardView};
use crate::repo::path::{parse_repo_path, RepoPath};
use crate::text::{
    chars_of, copy_str, ends_with, eq_lit, push_char, split_char, split_chars, starts_with,
    starts_with_chars, str_eq, string_of, trim, trim_end_char, trim_end_char_chars, trim_str, Chars,
};

verus! {

/// How many records a file lists at most as its top symbols.
pub const TOP_SYMBOLS_PER_FILE: usize = 5;

#[derive(Clone, Copy, Debug, PartialEq, Eq, Structural)]
pub enum DescribePathInclude {
    Dirs,
    Files,
    TopSymbols,
    Entrypoints,
}

/// The description of a path.
#[derive(Debug)]
pub struct DescribePathOutput {
    pub path: String,
    pub depth: u32,
    pub dirs: Option<Vec<String>>,
    pub files: Option<Vec<TreeRecord>>,
    pub entrypoints: Option<Vec<String>>,
}

pub struct DescribePathView {
    pub path: Chars,
    pub depth: u32,
    pub dirs: Option<Seq<Chars>>,
    pub files: Option<Seq<TreeRecordView>>,
    pub entrypoints: Option<Seq<Chars>>,
}

impl View for DescribePathOutput {
    type V = DescribePathView;

    open spec fn view(&self) -> DescribePathView {
        DescribePathView {
            path: self.path@,
            depth: self.depth,
            dirs: crate::index::artifacts::opt_views(self.dirs),
            files: match self.files {
                Some(f) => Some(tree_views(f@)),
                None => None,
            },
            entrypoints: crate::index::artifacts::opt_views(self.entrypoints),
        }
    }
}

/// How many `/`-separated segments a path has (a trailing `/` aside).
pub open spec fn segment_count(p: Chars) -> int {
    let t = trim_end_char(p, '/');
    if t.len() == 0 {
        0
    } else {
        split_char(t, '/').len() as int
    }
}

/// Counts the segments of a path.
pub fn count_segments(path: &str) -> (n: usize)
    ensures
        n == segment_count(path@),
{
    let v = chars_of(path);
    let t = trim_end_char_chars(v.as_slice(), '/');
    if t.len() == 0 {
        return 0;
    }
    split_chars(t.as_slice(), '/').len()
}

/// What a path argument means: `.` is the root; otherwise the normalized
/// path and whether it names a directory (a trailing `/`).
pub open spec fn describe_input(input: Chars) -> Result<(Chars, bool, bool), KbErrorView> {
    let t = trim(input);
    if t == seq!['.'] {
        Ok((Seq::empty(), true, true))
    } else {
        match parse_repo_path(trim_end_char(t, '/')) {
            Err(e) => Err(e),
            Ok(p) => Ok((p, ends_with(t, seq!['/']), false)),
        }
    }
}

/// Reads a path argument (see `describe_input`).
pub fn normalize_describe_path_input(input: &str) -> (r: Result<(String, bool, bool), KbError>)
    ensures
        match r {
            Ok((p, d, root)) => describe_input(input@) == Ok::<(Chars, bool, bool), KbErrorView>((p@, d, root)),
            Err(e) => describe_input(input@) == Err::<(Chars, bool, bool), KbErrorView>(e@),
        },
{
    let t = trim_str(input);
    if t.len() == 1 && t[0] == '.' {
        assert(t@ =~= seq!['.']);
        return Ok((String::new(), true, true));
    }
    assert(t@ != seq!['.']);
    let is_dir = t.len() > 0 && t[t.len() - 1] == '/';
    assert(is_dir == ends_with(t@, seq!['/'])) by {
        if t@.len() > 0 {
            assert(t@.skip(t@.len() - 1) =~= seq![t@.last()]);
            if ends_with(t@, seq!['/']) {
                assert(t@.skip(t@.len() - 1)[0] == '/');
            }
        }
    }
    let raw = string_of(trim_end_char_chars(t.as_slice(), '/').as_slice());
    let p = RepoPath::parse(raw.as_str())?;
    Ok((copy_str(p.as_str()), is_dir, false))
}

/// A tree record keyed by its path alone.
pub struct ByPath(pub TreeRecord);

impl View for ByPath {
    type V = TreeRecordView;

    open spec fn view(&self) -> TreeRecordView {
        self.0@
    }
}

impl SortKey for ByPath {
    open spec fn key(&self) -> Seq<Chars> {
        seq![self.0.path@]
    }

    fn exec_key(&self) -> (k: Vec<Vec<char>>) {
        let mut k: Vec<Vec<char>> = Vec::new();
        k.push(chars_of(self.0.path.as_str()));
        assert(key_view(k) =~= seq![self.0.path@]);
        k
    }
}

pub open spec fn by_path_views(t: Seq<ByPath>) -> Seq<TreeRecordView> {
    t.map_values(|b: ByPath| b@)
}

/// The tree records by path, sorted, the last record of each path kept
/// (a map from path to record).
pub fn tree_by_path(tree: Vec<TreeRecord>) -> (table: Vec<ByPath>)
    ensures
        sorted_unique_views(table@, reversed(tree_views(tree@))),
{
    let ghost tv = tree_views(tree@);
    let n = tree.len();
    let mut rest = tree;
    let mut input: Vec<ByPath> = Vec::new();
    while rest.len() > 0
        invariant
            rest@.len() <= n,
            n == tv.len(),
            tree_views(rest@) == tv.take(rest@.len() as int),
            by_path_views(input@) == reversed(tv).take(n - rest@.len()),
        decreases rest@.len(),
    {
        let ghost old_rest = rest@;
        let x = rest.pop().unwrap();
        let ghost prev = by_path_views(input@);
        assert(tree_views(old_rest)[rest@.len() as int] == old_rest[rest@.len() as int]@);
        assert(tv.take(old_rest.len() as int)[rest@.len() as int] == tv[rest@.len() as int]);
        assert(x@ == tv[rest@.len() as int]);
        input.push(ByPath(x));
        assert(by_path_views(input@) =~= prev.push(tv[rest@.len() as int]));
        assert(reversed(tv).take(n - rest@.len()) =~= reversed(tv).take(n - rest@.len() - 1).push(tv[rest@.len() as int]));
        assert(tree_views(rest@) =~= tv.take(rest@.len() as int));
    }
    assert(reversed(tv).take(n as int) =~= reversed(tv));
    let ghost unsorted = input@;
    let table = sort_unique_by_key(input);
    assert(unsorted.map_values(|x: ByPath| x@) == by_path_views(unsorted));
    table
}

/// The record of a path, if the table has one.
pub open spec fn lookup_path(table: Seq<TreeRecordView>, target: Chars) -> Option<TreeRecordView>
    decreases table.len(),
{
    if table.len() == 0 {
        None
    } else if table[0].path == target {
        Some(table[0])
    } else {
        lookup_path(table.drop_first(), target)
    }
}

/// The position of a path's record in the table.
pub fn find_path(table: &Vec<ByPath>, target: &str) -> (r: Option<usize>)
    ensures
        match r {
            Some(i) => i < table@.len() && lookup_path(by_path_views(table@), target@) == Some(table@[i as int]@),
            None => lookup_path(by_path_views(table@), target@) is None,
        },
{
    let ghost tv = by_path_views(table@);
    let mut i: usize = 0;
    assert(tv.skip(0) =~= tv);
    while i < table.len()
        invariant
            i <= table@.len(),
            tv == by_path_views(table@),
            lookup_path(tv, target@) == lookup_path(tv.skip(i as int), target@),
        decreases table@.len() - i,
    {
        assert(tv.skip(i as int)[0] == table@[i as int]@);
        assert(tv.skip(i as int).drop_first() =~= tv.skip(i + 1));
        if str_eq(table[i].0.path.as_str(), target) {
            return Some(i);
        }
        i += 1;
    }
    assert(tv.skip(table@.len() as int) =~= Seq::<TreeRecordView>::empty());
    None
}

/// The directories and files under `base` within `max_segments` segments, in
/// table order.
pub open spec fn dir_listing(table: Seq<TreeRecordView>, base: Chars, max_segments: int) -> (Seq<Chars>, Seq<TreeRecordView>)
    decreases table.len(),
{
    if table.len() == 0 {
        (Seq::empty(), Seq::empty())
    } else {
        let (d, f) = dir_listing(table.drop_last(), base, max_segments);
        let r = table.last();
        if !starts_with(r.path, base) || segment_count(r.path) > max_segments {
            (d, f)
        } else if r.kind == "dir"@ {
            (d.push(r.path), f)
        } else if r.kind == "file"@ {
            (d, f.push(r))
        } else {
            (d, f)
        }
    }
}

/// The symbol ids of the symbols in a file, in order.
pub open spec fn ids_in_file(symbols: Seq<SymbolRecordView>, path: Chars) -> Seq<Chars>
    decreases symbols.len(),
{
    if symbols.len() == 0 {
        Seq::empty()
    } else {
        ids_in_file(symbols.drop_last(), path) + if symbols.last().path == path {
            seq![symbols.last().symbol_id]
        } else {
            Seq::empty()
        }
    }
}

/// The first ids of a file's symbols in id order, at most five.
pub open spec fn top_ids(symbols: Seq<SymbolRecordView>, path: Chars) -> Seq<Chars> {
    let ids = sorted_set(ids_in_file(symbols, path));
    if ids.len() <= 5 { ids } else { ids.take(5) }
}

/// The files with their top symbols filled in.
pub open spec fn with_top_symbols(files: Seq<TreeRecordView>, symbols: Seq<SymbolRecordView>) -> Seq<TreeRecordView> {
    files.map_values(|f: TreeRecordView| TreeRecordView { top_symbols: Some(top_ids(symbols, f.path)), ..f })
}

/// The top symbol ids of a file.
pub fn top_symbols_for(symbols: &Vec<SymbolRecord>, path: &str) -> (r: Vec<String>)
    ensures
        views(r@) == top_ids(symbol_views(symbols@), path@),
{
    let ghost sv = symbol_views(symbols@);
    let mut ids: Vec<String> = Vec::new();
    let mut i: usize = 0;
    while i < symbols.len()
        invariant
            i <= symbols@.len(),
            sv == symbol_views(symbols@),
            views(ids@) == ids_in_file(sv.take(i as int), path@),
        decreases symbols@.len() - i,
    {
        assert(sv.take(i + 1).drop_last() =~= sv.take(i as int));
        assert(sv.take(i + 1).last() == symbols@[i as int]@);
        let ghost prev = views(ids@);
        if str_eq(symbols[i].path.as_str(), path) {
            ids.push(symbols[i].symbol_id.clone());
            assert(views(ids@) =~= prev + seq![symbols@[i as int].symbol_id@]);
        } else {
            assert(views(ids@) =~= prev + Seq::<Chars>::empty());
        }
        i += 1;
    }
    assert(sv.take(symbols@.len() as int) =~= sv);
    let sorted = sort_dedup(ids);
    proof {
        crate::order::lemma_sorted_set_of_is(views(sorted@), ids_in_file(sv, path@));
    }
    let mut out: Vec<String> = Vec::new();
    let mut k: usize = 0;
    while k < sorted.len() && k < TOP_SYMBOLS_PER_FILE
        invariant
            k <= sorted@.len(),
            k <= 5,
            views(out@) == views(sorted@).take(k as int),
        decreases sorted@.len() - k,
    {
        let ghost prev = views(out@);
        out.push(sorted[k].clone());
        assert(views(out@) =~= prev.push(sorted@[k as int]@));
        assert(views(sorted@).take(k + 1) =~= views(sorted@).take(k as int).push(sorted@[k as int]@));
        k += 1;
    }
    assert(views(out@) =~= top_ids(sv, path@)) by {
        if views(sorted@).len() <= 5 {
            assert(views(sorted@).take(views(sorted@).len() as int) =~= views(sorted@));
        }
    }
    out
}

/// The entry points of the cards that lie under `target` (all of them at the
/// root), in card order; or the first error reading the cards.
pub open spec fn card_entrypoints(cards: Seq<Result<ModuleCardView, KbErrorView>>, target: Chars, is_root: bool) -> Result<Seq<Chars>, KbErrorView>
    decreases cards.len(),
{
    if cards.len() == 0 {
        Ok(Seq::empty())
    } else {
        match card_entrypoints(cards.drop_last(), target, is_root) {
            Err(e) => Err(e),
            Ok(done) => match cards.last() {
                Err(e) => Err(e),
                Ok(c) => Ok(done + entrypoints_under(c.entrypoints, target, is_root)),
            },
        }
    }
}

/// The entry points under `target` (all of them at the root), in order.
pub open spec fn entrypoints_under(eps: Seq<Chars>, target: Chars, is_root: bool) -> Seq<Chars>
    decreases eps.len(),
{
    if eps.len() == 0 {
        Seq::empty()
    } else {
        entrypoints_under(eps.drop_last(), target, is_root) + if is_root || starts_with(eps.last(), target) {
            seq![eps.last()]
        } else {
            Seq::empty()
        }
    }
}

pub open spec fn card_result_views(cards: Seq<Result<ModuleCardToml, KbError>>) -> Seq<Result<ModuleCardView, KbErrorView>> {
    cards.map_values(|r: Result<ModuleCardToml, KbError>| match r {
        Ok(c) => Ok(c@),
        Err(e) => Err(e@),
    })
}

pub open spec fn cards_load_view(r: Result<Vec<Result<ModuleCardToml, KbError>>, KbError>) -> Result<Seq<Result<ModuleCardView, KbErrorView>>, KbErrorView> {
    match r {
        Ok(v) => Ok(card_result_views(v@)),
        Err(e) => Err(e@),
    }
}

pub open spec fn symbols_load_view(r: Result<Vec<SymbolRecord>, KbError>) -> Result<Seq<SymbolRecordView>, KbErrorView> {
    match r {
        Ok(v) => Ok(symbol_views(v@)),
        Err(e) => Err(e@),
    }
}

proof fn lemma_card_eps_error_stays(cards: Seq<Result<ModuleCardView, KbErrorView>>, target: Chars, is_root: bool, n: int, e: KbErrorView)
    requires
        0 <= n <= cards.len(),
        card_entrypoints(cards.take(n), target, is_root) == Err::<Seq<Chars>, KbErrorView>(e),
    ensures
        card_entrypoints(cards, target, is_root) == Err::<Seq<Chars>, KbErrorView>(e),
    decreases cards.len() - n,
{
    if n < cards.len() {
        assert(cards.take(n + 1).drop_last() =~= cards.take(n));
        lemma_card_eps_error_stays(cards, target, is_root, n + 1, e);
    } else {
        assert(cards.take(n) =~= cards);
    }
}

/// Gathers the entry points under `target` of the cards (see `card_entrypoints`).
pub fn collect_card_entrypoints(cards: Result<Vec<Result<ModuleCardToml, KbError>>, KbError>, target: &str, is_root: bool) -> (r: Result<Vec<String>, KbError>)
    ensures
        match r {
            Ok(v) => cards_load_view(cards) matches Ok(cs) && card_entrypoints(cs, target@, is_root) == Ok::<Seq<Chars>, KbErrorView>(views(v@)),
            Err(e) => match cards_load_view(cards) {
                Err(e2) => e@ == e2,
                Ok(cs) => card_entrypoints(cs, target@, is_root) == Err::<Seq<Chars>, KbErrorView>(e@),
            },
        },
{
    let list = match cards {
        Err(e) => return Err(e),
        Ok(l) => l,
    };
    let ghost cv = card_result_views(list@);
    assert(cards_load_view(cards) == Ok::<Seq<Result<ModuleCardView, KbErrorView>>, KbErrorView>(cv));
    let tchars = chars_of(target);
    let mut out: Vec<String> = Vec::new();
    let mut i: usize = 0;
    assert(cv.take(0) =~= Seq::<Result<ModuleCardView, KbErrorView>>::empty());
    assert(views(out@) =~= Seq::<Chars>::empty());
    while i < list.len()
        invariant
            i <= list@.len(),
            cv == card_result_views(list@),
            cards_load_view(cards) == Ok::<Seq<Result<ModuleCardView, KbErrorView>>, KbErrorView>(cv),
            tchars@ == target@,
            card_entrypoints(cv.take(i as int), target@, is_root) == Ok::<Seq<Chars>, KbErrorView>(views(out@)),
        decreases list@.len() - i,
    {
        assert(cv.take(i + 1).drop_last() =~= cv.take(i as int));
        assert(cv.take(i + 1).last() == cv[i as int]);
        match &list[i] {
            Err(e) => {
                let e2 = e.duplicate();
                proof {
                    lemma_card_eps_error_stays(cv, target@, is_root, i + 1, e2@);
                }
                return Err(e2);
            },
            Ok(card) => {
                let eps = &card.entrypoints;
                let ghost ev = views(eps@);
                let ghost base = views(out@);
                let mut j: usize = 0;
                while j < eps.len()
                    invariant
                        j <= eps@.len(),
                        ev == views(eps@),
                        tchars@ == target@,
                        views(out@) == base + entrypoints_under(ev.take(j as int), target@, is_root),
                    decreases eps@.len() - j,
                {
                    assert(ev.take(j + 1).drop_last() =~= ev.take(j as int));
                    assert(ev.take(j + 1).last() == eps@[j as int]@);
                    let ghost prev = views(out@);
                    let e = chars_of(eps[j].as_str());
                    if is_root || starts_with_chars(e.as_slice(), tchars.as_slice()) {
                        out.push(eps[j].clone());
                        assert(views(out@) =~= prev + seq![eps@[j as int]@]);
                    } else {
                        assert(views(out@) =~= prev + Seq::<Chars>::empty());
                    }
                    j += 1;
                }
                assert(ev.take(eps@.len() as int) =~= ev);
            },
        }
        i += 1;
    }
    assert(cv.take(list@.len() as int) =~= cv);
    Ok(out)
}

} // verus!

verus! {

fn list_dir(table: &Vec<ByPath>, base: &str, base_segments: usize, depth: u32) -> (r: (Vec<String>, Vec<TreeRecord>))
    ensures
        (views(r.0@), tree_views(r.1@)) == dir_listing(by_path_views(table@), base@, base_segments + depth),
{
    let ghost tv = by_path_views(table@);
    let ghost max = base_segments + depth;
    let bchars = chars_of(base);
    let mut dirs: Vec<String> = Vec::new();
    let mut files: Vec<TreeRecord> = Vec::new();
    let mut i: usize = 0;
    assert(tv.take(0) =~= Seq::<TreeRecordView>::empty());
    assert(views(dirs@) =~= Seq::<Chars>::empty());
    assert(tree_views(files@) =~= Seq::<TreeRecordView>::empty());
    while i < table.len()
        invariant
            i <= table@.len(),
            tv == by_path_views(table@),
            max == base_segments + depth,
            bchars@ == base@,
            (views(dirs@), tree_views(files@)) == dir_listing(tv.take(i as int), base@, max),
        decreases table@.len() - i,
    {
        assert(tv.take(i + 1).drop_last() =~= tv.take(i as int));
        assert(tv.take(i + 1).last() == table@[i as int]@);
        let r = &table[i].0;
        let p = chars_of(r.path.as_str());
        let segs = count_segments(r.path.as_str());
        let ghost pd = views(dirs@);
        let ghost pf = tree_views(files@);
        let too_deep = segs > base_segments && (segs - base_segments) as u64 > depth as u64;
        assert(too_deep == (segment_count(r.path@) > max));
        if starts_with_chars(p.as_slice(), bchars.as_slice()) && !too_deep {
            if str_eq(r.kind.as_str(), "dir") {
                dirs.push(r.path.clone());
                assert(views(dirs@) =~= pd.push(r.path@));
            } else if str_eq(r.kind.as_str(), "file") {
                files.push(r.duplicate());
                assert(tree_views(files@) =~= pf.push(r@));
            }
        }
        i += 1;
    }
    assert(tv.take(table@.len() as int) =~= tv);
    (dirs, files)
}

/// Whether the wanted list names the item.
pub fn wants(wanted: &Vec<DescribePathInclude>, x: DescribePathInclude) -> (b: bool)
    ensures
        b == wanted@.contains(x),
{
    let mut i: usize = 0;
    while i < wanted.len()
        invariant
            i <= wanted@.len(),
            forall|k: int| 0 <= k < i ==> wanted@[k] != x,
        decreases wanted@.len() - i,
    {
        if wanted[i] == x {
            return true;
        }
        i += 1;
    }
    false
}

/// The description of a path, read from the tree table (sorted by path, one
/// record per path): the first error, else the listing.
pub open spec fn describe_path_spec(
    table: Seq<TreeRecordView>,
    input: Chars,
    depth: u32,
    wanted: Seq<DescribePathInclude>,
    symbols: Result<Seq<SymbolRecordView>, KbErrorView>,
    cards: Result<Seq<Result<ModuleCardView, KbErrorView>>, KbErrorView>,
) -> Result<DescribePathView, KbErrorView> {
    let want_dirs = wanted.contains(DescribePathInclude::Dirs);
    let want_top = wanted.contains(DescribePathInclude::TopSymbols);
    let want_files = wanted.contains(DescribePathInclude::Files) || want_top;
    let want_eps = wanted.contains(DescribePathInclude::Entrypoints);
    match describe_input(input) {
        Err(e) => Err(e),
        Ok((norm, is_dir, is_root)) => {
            let target = if is_dir && norm.len() > 0 { norm.push('/') } else { norm };
            let rec = lookup_path(table, target);
            if !is_root && rec is None {
                Err(error_with(ErrorCode::NotFound, "path not found"@, "path"@, input))
            } else if !is_root && is_dir && rec.unwrap().kind != "dir"@ {
                Err(error_with(ErrorCode::NotFound, "directory not found"@, "path"@, input))
            } else if !is_root && !is_dir && rec.unwrap().kind != "file"@ {
                Err(error_with(ErrorCode::NotFound, "file not found"@, "path"@, input))
            } else {
                let base = if is_root { Seq::empty() } else { target };
                let base_segments = if is_root { 0 } else { segment_count(target) };
                let listing = if is_dir {
                    dir_listing(table, base, base_segments + depth)
                } else {
                    (Seq::empty(), if want_files { seq![rec.unwrap()] } else { Seq::empty() })
                };
                let files = if want_top {
                    match symbols {
                        Err(e) => Err(e),
                        Ok(s) => Ok(with_top_symbols(listing.1, s)),
                    }
                } else {
                    Ok(listing.1)
                };
                match files {
                    Err(e) => Err(e),
                    Ok(fs) => {
                        let eps = if want_eps && is_dir {
                            match cards {
                                Err(e) => Err(e),
                                Ok(cs) => match card_entrypoints(cs, target, is_root) {
                                    Err(e) => Err(e),
                                    Ok(x) => Ok(Some(sorted_set(x))),
                                },
                            }
                        } else {
                            Ok(None)
                        };
                        match eps {
                            Err(e) => Err(e),
                            Ok(ep) => Ok(DescribePathView {
                                path: input,
                                depth,
                                dirs: if want_dirs { Some(listing.0) } else { None },
                                files: if want_files { Some(fs) } else { None },
                                entrypoints: ep,
                            }),
                        }
                    },
                }
            }
        },
    }
}

pub open spec fn path_result_view(r: Result<DescribePathOutput, KbError>) -> Result<DescribePathView, KbErrorView> {
    match r {
        Ok(o) => Ok(o@),
        Err(e) => Err(e@),
    }
}

/// What describing a path gives for a loaded tree.
pub open spec fn describe_path_holds(
    r: Result<DescribePathView, KbErrorView>,
    tree: Seq<TreeRecordView>,
    input: Chars,
    depth: u32,
    wanted: Seq<DescribePathInclude>,
    symbols: Result<Seq<SymbolRecordView>, KbErrorView>,
    cards: Result<Seq<Result<ModuleCardView, KbErrorView>>, KbErrorView>,
) -> bool {
    exists|table: Seq<ByPath>|
        #[trigger] sorted_unique_views(table, reversed(tree))
        && r == describe_path_spec(by_path_views(table), input, depth, wanted, symbols, cards)
}

fn fill_top_symbols(files: &mut Vec<TreeRecord>, symbols: &Vec<SymbolRecord>)
    ensures
        tree_views(final(files)@) == with_top_symbols(tree_views(old(files)@), symbol_views(symbols@)),
{
    let ghost start = tree_views(files@);
    let mut out: Vec<TreeRecord> = Vec::new();
    let mut i: usize = 0;
    while i < files.len()
        invariant
            i <= files@.len(),
            start == tree_views(files@),
            tree_views(out@) == with_top_symbols(start, symbol_views(symbols@)).take(i as int),
        decreases files@.len() - i,
    {
        let f = &files[i];
        let top = top_symbols_for(symbols, f.path.as_str());
        let lang = crate::text::copy_opt_string(&f.lang);
        let rec = TreeRecord {
            path: f.path.clone(),
            kind: f.kind.clone(),
            bytes: f.bytes,
            lines: f.lines,
            lang,
            top_symbols: Some(top),
        };
        let ghost prev = tree_views(out@);
        out.push(rec);
        assert(opt_view(rec.lang) == opt_view(f.lang));
        assert(tree_views(out@) =~= prev.push(with_top_symbols(start, symbol_views(symbols@))[i as int]));
        assert(with_top_symbols(start, symbol_views(symbols@)).take(i + 1) =~= with_top_symbols(start, symbol_views(symbols@)).take(i as int).push(
            with_top_symbols(start, symbol_views(symbols@))[i as int],
        ));
        i += 1;
    }
    assert(with_top_symbols(start, symbol_views(symbols@)).take(files@.len() as int) =~= with_top_symbols(start, symbol_views(symbols@)));
    *files = out;
}

/// Describes a path from the index: its directories and files within `depth`
/// more segments (a file describes itself), optionally with top symbols and
/// the module entry points under it. The loads are those of
/// `kb/gen/tree.jsonl`, `kb/gen/symbols.jsonl` and the module cards; each is
/// read from only when the description needs it.
pub fn describe_path_at(
    path: &str,
    depth: u32,
    wanted: &Vec<DescribePathInclude>,
    tree: Result<Vec<TreeRecord>, KbError>,
    symbols: Result<Vec<SymbolRecord>, KbError>,
    cards: Result<Vec<Result<ModuleCardToml, KbError>>, KbError>,
) -> (r: Result<DescribePathOutput, KbError>)
    ensures
        match tree {
            Err(e) => r matches Err(e2) && e2@ == e@,
            Ok(t) => describe_path_holds(
                path_result_view(r),
                tree_views(t@),
                path@,
                depth,
                wanted@,
                symbols_load_view(symbols),
                cards_load_view(cards),
            ),
        },
{
    let want_dirs = wants(wanted, DescribePathInclude::Dirs);
    let want_top = wants(wanted, DescribePathInclude::TopSymbols);
    let want_files = wants(wanted, DescribePathInclude::Files) || want_top;
    let want_eps = wants(wanted, DescribePathInclude::Entrypoints);
    let records = match tree {
        Err(e) => return Err(e),
        Ok(t) => t,
    };
    let ghost tv = tree_views(records@);
    let table = tree_by_path(records);
    let ghost table_v = by_path_views(table@);
    let ghost spec = describe_path_spec(table_v, path@, depth, wanted@, symbols_load_view(symbols), cards_load_view(cards));
    let r = describe_path_with_table(path, depth, want_dirs, want_files, want_top, want_eps, &table, symbols, cards);
    proof {
        assert(path_result_view(r) == spec);
        assert(sorted_unique_views(table@, reversed(tv)));
    }
    r
}

fn describe_path_with_table(
    path: &str,
    depth: u32,
    want_dirs: bool,
    want_files: bool,
    want_top: bool,
    want_eps: bool,
    table: &Vec<ByPath>,
    symbols: Result<Vec<SymbolRecord>, KbError>,
    cards: Result<Vec<Result<ModuleCardToml, KbError>>, KbError>,
) -> (r: Result<DescribePathOutput, KbError>)
    ensures
        forall|wanted: Seq<DescribePathInclude>|
            want_dirs == wanted.contains(DescribePathInclude::Dirs) && want_top == wanted.contains(DescribePathInclude::TopSymbols)
                && want_files == (wanted.contains(DescribePathInclude::Files) || want_top)
                && want_eps == wanted.contains(DescribePathInclude::Entrypoints)
                ==> path_result_view(r) == #[trigger] describe_path_spec(
                by_path_views(table@),
                path@,
                depth,
                wanted,
                symbols_load_view(symbols),
                cards_load_view(cards),
            ),
{
    let (norm, is_dir, is_root) = normalize_describe_path_input(path)?;
    let target = if is_dir && !norm.as_str().is_empty() {
        let mut t = norm.clone();
        push_char(&mut t, '/');
        t
    } else {
        norm.clone()
    };
    proof {
        if is_dir && norm@.len() > 0 {
            assert(target@ == norm@.push('/'));
        }
    }
    let found = find_path(table, target.as_str());
    if !is_root {
        match found {
            None => {
                return Err(KbError::coded_with(ErrorCode::NotFound, "path not found", "path", path));
            },
            Some(i) => {
                if is_dir && !str_eq(table[i].0.kind.as_str(), "dir") {
                    return Err(KbError::coded_with(ErrorCode::NotFound, "directory not found", "path", path));
                }
                if !is_dir && !str_eq(table[i].0.kind.as_str(), "file") {
                    return Err(KbError::coded_with(ErrorCode::NotFound, "file not found", "path", path));
                }
            },
        }
    }
    let (dirs, mut files) = if is_dir {
        let base = if is_root { String::new() } else { target.clone() };
        let base_segments = if is_root { 0 } else { count_segments(target.as_str()) };
        assert(base@ == (if is_root { Seq::<char>::empty() } else { target@ }));
        list_dir(table, base.as_str(), base_segments, depth)
    } else {
        let mut f: Vec<TreeRecord> = Vec::new();
        if want_files {
            match found {
                Some(i) => f.push(table[i].0.duplicate()),
                None => {},
            }
        }
        (Vec::new(), f)
    };
    proof {
        if !is_dir {
            assert(views(dirs@) =~= Seq::<Chars>::empty());
            if want_files {
                assert(tree_views(files@) =~= seq![lookup_path(by_path_views(table@), target@).unwrap()]);
            } else {
                assert(tree_views(files@) =~= Seq::<TreeRecordView>::empty());
            }
        }
    }
    if want_top {
        match &symbols {
            Err(e) => return Err(e.duplicate()),
            Ok(s) => fill_top_symbols(&mut files, s),
        }
    }
    let entrypoints = if want_eps && is_dir {
        let eps = collect_card_entrypoints(cards, target.as_str(), is_root)?;
        let sorted = sort_dedup(eps);
        proof {
            crate::order::lemma_sorted_set_of_is(views(sorted@), views(eps@));
        }
        Some(sorted)
    } else {
        None
    };
    Ok(DescribePathOutput {
        path: copy_str(path),
        depth,
        dirs: if want_dirs { Some(dirs) } else { None },
        files: if want_files { Some(files) } else { None },
        entrypoints,
    })
}

} // verus!

verus! {

// ---------------------------------------------------------------------------
// Modules
// ---------------------------------------------------------------------------

#[derive(Clone, Copy, Debug, PartialEq, Eq, Structural)]
pub enum DescribeModuleInclude {
    All,
    Card,
    Entrypoints,
    EditPoints,
    RelatedFacts,
}

/// The card part of a module description.
#[derive(Debug)]
pub struct ModuleCardOut {
    pub id: String,
    pub title: String,
    pub owners: Vec<String>,
    pub tags: Vec<String>,
}

/// The description of a module.
#[derive(Debug)]
pub struct DescribeModuleOutput {
    pub module_id: String,
    pub card: Option<ModuleCardOut>,
    pub entrypoints: Option<Vec<String>>,
    pub edit_points: Option<Vec<String>>,
    pub related_facts: Option<Vec<String>>,
}

pub fn wants_module(wanted: &Vec<DescribeModuleInclude>, x: DescribeModuleInclude) -> (b: bool)
    ensures
        b == wanted@.contains(x),
{
    let mut i: usize = 0;
    while i < wanted.len()
        invariant
            i <= wanted@.len(),
            forall|k: int| 0 <= k < i ==> wanted@[k] != x,
        decreases wanted@.len() - i,
    {
        if wanted[i] == x {
            return true;
        }
        i += 1;
    }
    false
}

pub open spec fn card_load_view(r: Result<Option<ModuleCardToml>, KbError>) -> Result<Option<ModuleCardView>, KbErrorView> {
    match r {
        Err(e) => Err(e@),
        Ok(None) => Ok(None),
        Ok(Some(c)) => Ok(Some(c@)),
    }
}

/// Describing a module: the card read error (`Err(Some(..))`), `module card
/// not found`, or a card whose id is not the module's (`Err(None)`); else the card.
pub open spec fn describe_module_check(module_id: Chars, card: Result<Option<ModuleCardView>, KbErrorView>) -> Result<ModuleCardView, Option<KbErrorView>> {
    match card {
        Err(e) => Err(Some(e)),
        Ok(None) => Err(Some(error_with(ErrorCode::NotFound, "module card not found"@, "module_id"@, module_id))),
        Ok(Some(c)) => if c.id != module_id { Err(None) } else { Ok(c) },
    }
}

/// The id of a loaded card (empty without one).
pub open spec fn loaded_card_id(card: Result<Option<ModuleCardView>, KbErrorView>) -> Chars {
    match card {
        Ok(Some(c)) => c.id,
        _ => Seq::empty(),
    }
}

/// Describes a module from its card (`card` is the card read and parsed, or
/// none when the file is missing): the card's title, owners and tags, and its
/// entry points, edit points and related facts, each sorted once each.
pub fn describe_module_at(
    module_id: &str,
    wanted: &Vec<DescribeModuleInclude>,
    card: Result<Option<ModuleCardToml>, KbError>,
) -> (r: Result<DescribeModuleOutput, KbError>)
    ensures
        match (r, describe_module_check(module_id@, card_load_view(card))) {
            (Err(e), Err(Some(e2))) => e@ == e2,
            (Err(e), Err(None)) => e@.code == ErrorCode::InvalidArgument && e@.message == "module card id must match filename"@
                && sorted_key_set_of(e@.details, seq![seq!["module_id"@, module_id@], seq!["id"@, loaded_card_id(card_load_view(card))]]),
            (Ok(out), Ok(c)) => {
                let all = wanted@.contains(DescribeModuleInclude::All);
                &&& out.module_id@ == module_id@
                &&& (out.card is Some <==> (all || wanted@.contains(DescribeModuleInclude::Card)))
                &&& out.card matches Some(co) ==> co.id@ == module_id@ && co.title@ == c.title && views(co.owners@) == c.owners
                    && views(co.tags@) == c.tags
                &&& crate::index::artifacts::opt_views(out.entrypoints) == if all || wanted@.contains(DescribeModuleInclude::Entrypoints) {
                    Some(sorted_set(c.entrypoints))
                } else {
                    None
                }
                &&& crate::index::artifacts::opt_views(out.edit_points) == if all || wanted@.contains(DescribeModuleInclude::EditPoints) {
                    Some(sorted_set(c.edit_points))
                } else {
                    None
                }
                &&& crate::index::artifacts::opt_views(out.related_facts) == if all || wanted@.contains(DescribeModuleInclude::RelatedFacts) {
                    Some(sorted_set(c.related_facts))
                } else {
                    None
                }
            },
            _ => false,
        },
{
    let all = wants_module(wanted, DescribeModuleInclude::All);
    let want_card = all || wants_module(wanted, DescribeModuleInclude::Card);
    let want_eps = all || wants_module(wanted, DescribeModuleInclude::Entrypoints);
    let want_edit = all || wants_module(wanted, DescribeModuleInclude::EditPoints);
    let want_rf = all || wants_module(wanted, DescribeModuleInclude::RelatedFacts);
    let ghost cv = card_load_view(card);
    let c = match card {
        Err(e) => return Err(e),
        Ok(None) => {
            return Err(KbError::coded_with(ErrorCode::NotFound, "module card not found", "module_id", module_id));
        },
        Ok(Some(c)) => c,
    };
    if !str_eq(c.id.as_str(), module_id) {
        let e0 = KbError::invalid_with_detail("module card id must match filename", "module_id", module_id);
        let e = e0.with_detail("id", c.id.as_str());
        proof {
            let p0 = seq![seq!["module_id"@, module_id@]];
            crate::error::lemma_single_sorted(e0@.details, seq!["module_id"@, module_id@]);
            assert(sorted_key_set_of(e0@.details, p0)) by {
                assert(e0@.details == p0);
            }
            crate::error::lemma_details_grow(e@.details, e0@.details, p0, "id"@, c.id@);
            assert(p0.push(seq!["id"@, c.id@]) =~= seq![seq!["module_id"@, module_id@], seq!["id"@, c.id@]]);
        }
        return Err(e);
    }
    let eps = sort_dedup(crate::text::copy_strings(&c.entrypoints));
    let edits = sort_dedup(crate::text::copy_strings(&c.edit_points));
    let rfs = sort_dedup(crate::text::copy_strings(&c.related_facts));
    proof {
        crate::order::lemma_sorted_set_of_is(views(eps@), views(c.entrypoints@));
        crate::order::lemma_sorted_set_of_is(views(edits@), views(c.edit_points@));
        crate::order::lemma_sorted_set_of_is(views(rfs@), views(c.related_facts@));
    }
    let card_out = if want_card {
        Some(ModuleCardOut { id: copy_str(module_id), title: c.title, owners: c.owners, tags: c.tags })
    } else {
        None
    };
    Ok(DescribeModuleOutput {
        module_id: copy_str(module_id),
        card: card_out,
        entrypoints: if want_eps { Some(eps) } else { None },
        edit_points: if want_edit { Some(edits) } else { None },
        related_facts: if want_rf { Some(rfs) } else { None },
    })
}

} // verus!

verus! {

// ---------------------------------------------------------------------------
// Symbols
// ---------------------------------------------------------------------------

#[derive(Clone, Copy, Debug, PartialEq, Eq, Structural)]
pub enum DescribeSymbolInclude {
    Def,
    Signature,
    Uses,
    Deps,
}

/// Where and what a symbol is.
#[derive(Debug)]
pub struct SymbolDef {
    pub path: String,
    pub line: u64,
    pub end_line: Option<u64>,
    pub kind: String,
    pub name: String,
    pub qualified_name: String,
}

/// A cross-reference from one symbol to another.
#[derive(Debug)]
pub struct XrefEdge {
    pub from_symbol_id: String,
    pub kind: String,
    pub to_symbol_id: String,
    pub path: Option<String>,
    pub line: Option<u64>,
}

pub struct XrefEdgeView {
    pub from_symbol_id: Chars,
    pub kind: Chars,
    pub to_symbol_id: Chars,
    pub path: Option<Chars>,
    pub line: Option<u64>,
}

impl View for XrefEdge {
    type V = XrefEdgeView;

    open spec fn view(&self) -> XrefEdgeView {
        XrefEdgeView {
            from_symbol_id: self.from_symbol_id@,
            kind: self.kind@,
            to_symbol_id: self.to_symbol_id@,
            path: opt_view(self.path),
            line: self.line,
        }
    }
}

/// An optional value as a sort key part: none first, then the values in order.
pub open spec fn opt_key(o: Option<Chars>) -> Chars {
    match o {
        Some(s) => seq!['s'] + s,
        None => Seq::empty(),
    }
}

/// An optional number as a sort key part: none first, then the numbers in order.
pub open spec fn opt_num_key(o: Option<u64>) -> Chars {
    match o {
        Some(n) => seq!['s'] + crate::text::fixed_digits(n as nat, 20),
        None => Seq::empty(),
    }
}

/// Cross-references are ordered by source, kind, target, path and line.
pub open spec fn xref_key(e: XrefEdgeView) -> Seq<Chars> {
    seq![e.from_symbol_id, e.kind, e.to_symbol_id, opt_key(e.path), opt_num_key(e.line)]
}

impl SortKey for XrefEdge {
    open spec fn key(&self) -> Seq<Chars> {
        xref_key(self@)
    }

    fn exec_key(&self) -> (k: Vec<Vec<char>>) {
        let mut k: Vec<Vec<char>> = Vec::new();
        k.push(chars_of(self.from_symbol_id.as_str()));
        k.push(chars_of(self.kind.as_str()));
        k.push(chars_of(self.to_symbol_id.as_str()));
        let p = match &self.path {
            Some(s) => {
                let mut v: Vec<char> = Vec::new();
                v.push('s');
                crate::text::append_chars(&mut v, chars_of(s.as_str()).as_slice());
                v
            },
            None => Vec::new(),
        };
        k.push(p);
        let l = match self.line {
            Some(n) => {
                let mut v: Vec<char> = Vec::new();
                v.push('s');
                crate::text::append_chars(&mut v, crate::text::padded_decimal(n).as_slice());
                v
            },
            None => Vec::new(),
        };
        k.push(l);
        assert(key_view(k) =~= xref_key(self@));
        k
    }
}

impl crate::order::KeyedCopy for XrefEdge {
    fn duplicate(&self) -> (r: XrefEdge) {
        let path = crate::text::copy_opt_string(&self.path);
        let r = XrefEdge {
            from_symbol_id: self.from_symbol_id.clone(),
            kind: self.kind.clone(),
            to_symbol_id: self.to_symbol_id.clone(),
            path,
            line: self.line,
        };
        assert(opt_view(r.path) == opt_view(self.path));
        r
    }
}

/// The description of a symbol.
#[derive(Debug)]
pub struct DescribeSymbolOutput {
    pub symbol_id: String,
    pub def: Option<SymbolDef>,
    pub signature: Option<String>,
    pub uses: Option<Vec<XrefEdge>>,
    pub deps: Option<Vec<DepEdge>>,
}

pub fn wants_symbol(wanted: &Vec<DescribeSymbolInclude>, x: DescribeSymbolInclude) -> (b: bool)
    ensures
        b == wanted@.contains(x),
{
    let mut i: usize = 0;
    while i < wanted.len()
        invariant
            i <= wanted@.len(),
            forall|k: int| 0 <= k < i ==> wanted@[k] != x,
        decreases wanted@.len() - i,
    {
        if wanted[i] == x {
            return true;
        }
        i += 1;
    }
    false
}

/// The position of the first symbol with the id.
pub open spec fn first_symbol(symbols: Seq<SymbolRecordView>, id: Chars) -> int
    decreases symbols.len(),
{
    if symbols.len() == 0 {
        -1
    } else if symbols[0].symbol_id == id {
        0
    } else if first_symbol(symbols.drop_first(), id) < 0 {
        -1
    } else {
        first_symbol(symbols.drop_first(), id) + 1
    }
}

/// The dependency edges of a file, in order.
pub open spec fn edges_from(edges: Seq<DepEdge>, path: Chars) -> Seq<DepEdge>
    decreases edges.len(),
{
    if edges.len() == 0 {
        Seq::empty()
    } else {
        edges_from(edges.drop_last(), path) + if edges.last().from_path@ == path { seq![edges.last()] } else { Seq::empty() }
    }
}

/// The cross-references to a symbol, in order.
pub open spec fn xrefs_to(edges: Seq<XrefEdge>, id: Chars) -> Seq<XrefEdge>
    decreases edges.len(),
{
    if edges.len() == 0 {
        Seq::empty()
    } else {
        xrefs_to(edges.drop_last(), id) + if edges.last().to_symbol_id@ == id { seq![edges.last()] } else { Seq::empty() }
    }
}

fn find_symbol(symbols: &Vec<SymbolRecord>, id: &str) -> (r: Option<usize>)
    ensures
        match r {
            Some(i) => i < symbols@.len() && first_symbol(symbol_views(symbols@), id@) == i,
            None => first_symbol(symbol_views(symbols@), id@) == -1,
        },
{
    let ghost sv = symbol_views(symbols@);
    let mut i: usize = 0;
    assert(sv.skip(0) =~= sv);
    while i < symbols.len()
        invariant
            i <= symbols@.len(),
            sv == symbol_views(symbols@),
            first_symbol(sv, id@) == if first_symbol(sv.skip(i as int), id@) < 0 { -1 } else { first_symbol(sv.skip(i as int), id@) + i },
        decreases symbols@.len() - i,
    {
        assert(sv.skip(i as int)[0] == symbols@[i as int]@);
        assert(sv.skip(i as int).drop_first() =~= sv.skip(i + 1));
        if str_eq(symbols[i].symbol_id.as_str(), id) {
            return Some(i);
        }
        i += 1;
    }
    assert(sv.skip(symbols@.len() as int) =~= Seq::<SymbolRecordView>::empty());
    None
}

fn filter_edges_from(edges: &Vec<DepEdge>, path: &str) -> (r: Vec<DepEdge>)
    ensures
        crate::order::view_seq(r@) == crate::order::view_seq(edges_from(edges@, path@)),
{
    let mut r: Vec<DepEdge> = Vec::new();
    let mut i: usize = 0;
    while i < edges.len()
        invariant
            i <= edges@.len(),
            crate::order::view_seq(r@) == crate::order::view_seq(edges_from(edges@.take(i as int), path@)),
        decreases edges@.len() - i,
    {
        assert(edges@.take(i + 1).drop_last() =~= edges@.take(i as int));
        assert(edges@.take(i + 1).last() == edges@[i as int]);
        let ghost prev = crate::order::view_seq(r@);
        if str_eq(edges[i].from_path.as_str(), path) {
            r.push(edges[i].duplicate());
            assert(crate::order::view_seq(r@) =~= prev.push(edges@[i as int]@));
            assert(crate::order::view_seq(edges_from(edges@.take(i + 1), path@)) =~= prev.push(edges@[i as int]@));
        } else {
            assert(edges_from(edges@.take(i + 1), path@) =~= edges_from(edges@.take(i as int), path@) + Seq::<DepEdge>::empty());
        }
        i += 1;
    }
    assert(edges@.take(edges@.len() as int) =~= edges@);
    r
}

fn filter_xrefs_to(edges: &Vec<XrefEdge>, id: &str) -> (r: Vec<XrefEdge>)
    ensures
        crate::order::view_seq(r@) == crate::order::view_seq(xrefs_to(edges@, id@)),
{
    let mut r: Vec<XrefEdge> = Vec::new();
    let mut i: usize = 0;
    while i < edges.len()
        invariant
            i <= edges@.len(),
            crate::order::view_seq(r@) == crate::order::view_seq(xrefs_to(edges@.take(i as int), id@)),
        decreases edges@.len() - i,
    {
        assert(edges@.take(i + 1).drop_last() =~= edges@.take(i as int));
        assert(edges@.take(i + 1).last() == edges@[i as int]);
        let ghost prev = crate::order::view_seq(r@);
        if str_eq(edges[i].to_symbol_id.as_str(), id) {
            r.push(crate::order::KeyedCopy::duplicate(&edges[i]));
            assert(crate::order::view_seq(r@) =~= prev.push(edges@[i as int]@));
            assert(crate::order::view_seq(xrefs_to(edges@.take(i + 1), id@)) =~= prev.push(edges@[i as int]@));
        } else {
            assert(xrefs_to(edges@.take(i + 1), id@) =~= xrefs_to(edges@.take(i as int), id@) + Seq::<XrefEdge>::empty());
        }
        i += 1;
    }
    assert(edges@.take(edges@.len() as int) =~= edges@);
    r
}

/// A symbol's description matches its record and the loads it needed: the
/// definition and signature from the record; the file's dependency edges in
/// key order (stably); the cross-references to it in key order (stably), none
/// when the optional `xrefs.jsonl` is missing.
pub open spec fn symbol_description(
    out: DescribeSymbolOutput,
    sym: SymbolRecordView,
    wanted: Seq<DescribeSymbolInclude>,
    deps: Result<Vec<DepEdge>, KbError>,
    xrefs: Result<Option<Vec<Result<XrefEdge, String>>>, KbError>,
) -> bool {
    &&& out.symbol_id@ == sym.symbol_id
    &&& (out.def is Some <==> wanted.contains(DescribeSymbolInclude::Def))
    &&& out.def matches Some(d) ==> d.path@ == sym.path && d.line == sym.line && d.end_line == sym.end_line
        && d.kind@ == sym.kind && d.name@ == sym.name && d.qualified_name@ == sym.qualified_name
    &&& opt_view(out.signature) == if wanted.contains(DescribeSymbolInclude::Signature) { sym.signature } else { None }
    &&& (out.deps is Some <==> wanted.contains(DescribeSymbolInclude::Deps))
    &&& out.deps matches Some(d) ==> deps matches Ok(all) && crate::order::stably_sorted(d@, edges_from(all@, sym.path))
    &&& (out.uses is Some <==> wanted.contains(DescribeSymbolInclude::Uses))
    &&& out.uses matches Some(u) ==> match xrefs {
        Ok(None) => u@.len() == 0,
        Ok(Some(lines)) => crate::query::read::collected(crate::facts::parse_views(lines@), "failed to parse xrefs.jsonl"@) matches Ok(all)
            && crate::order::stably_sorted(u@, xrefs_to(all, sym.symbol_id)),
        Err(_) => false,
    }
}

/// The first error of describing a symbol: loading the symbols, the symbol
/// missing, loading the dependency edges (when asked for), loading and parsing
/// the cross-references (when asked for).
pub open spec fn describe_symbol_error(
    symbol_id: Chars,
    wanted: Seq<DescribeSymbolInclude>,
    symbols: Result<Seq<SymbolRecordView>, KbErrorView>,
    deps: Result<Vec<DepEdge>, KbError>,
    xrefs: Result<Option<Vec<Result<XrefEdge, String>>>, KbError>,
) -> Option<KbErrorView> {
    match symbols {
        Err(e) => Some(e),
        Ok(s) => if first_symbol(s, symbol_id) < 0 {
            Some(plain_error(ErrorCode::NotFound, "symbol not found"@))
        } else if wanted.contains(DescribeSymbolInclude::Deps) && deps is Err {
            Some(deps->Err_0@)
        } else if wanted.contains(DescribeSymbolInclude::Uses) && xrefs is Err {
            Some(xrefs->Err_0@)
        } else if wanted.contains(DescribeSymbolInclude::Uses) && (xrefs matches Ok(Some(lines))
            && crate::query::read::collected(crate::facts::parse_views(lines@), "failed to parse xrefs.jsonl"@) is Err) {
            Some(crate::query::read::collected(crate::facts::parse_views(xrefs->Ok_0->Some_0@), "failed to parse xrefs.jsonl"@)->Err_0)
        } else {
            None
        }
    }
}

/// Describes a symbol of the index: its definition, its signature, the
/// dependency edges of its file and the cross-references to it, as asked for.
pub fn describe_symbol_at(
    symbol_id: &str,
    wanted: &Vec<DescribeSymbolInclude>,
    symbols: Result<Vec<SymbolRecord>, KbError>,
    deps: Result<Vec<DepEdge>, KbError>,
    xrefs: Result<Option<Vec<Result<XrefEdge, String>>>, KbError>,
) -> (r: Result<DescribeSymbolOutput, KbError>)
    ensures
        match r {
            Ok(out) => describe_symbol_error(symbol_id@, wanted@, symbols_load_view(symbols), deps, xrefs) is None
                && symbol_description(
                out,
                symbols->Ok_0@[first_symbol(symbol_views(symbols->Ok_0@), symbol_id@)]@,
                wanted@,
                deps,
                xrefs,
            ),
            Err(e) => describe_symbol_error(symbol_id@, wanted@, symbols_load_view(symbols), deps, xrefs) == Some(e@),
        },
{
    let want_def = wants_symbol(wanted, DescribeSymbolInclude::Def);
    let want_sig = wants_symbol(wanted, DescribeSymbolInclude::Signature);
    let want_uses = wants_symbol(wanted, DescribeSymbolInclude::Uses);
    let want_deps = wants_symbol(wanted, DescribeSymbolInclude::Deps);
    let list = match &symbols {
        Err(e) => return Err(e.duplicate()),
        Ok(l) => l,
    };
    let idx = match find_symbol(list, symbol_id) {
        None => return Err(KbError::not_found("symbol not found")),
        Some(i) => i,
    };
    let sym = &list[idx];
    let def = if want_def {
        Some(SymbolDef {
            path: sym.path.clone(),
            line: sym.line,
            end_line: sym.end_line,
            kind: sym.kind.clone(),
            name: sym.name.clone(),
            qualified_name: sym.qualified_name.clone(),
        })
    } else {
        None
    };
    let signature = if want_sig { crate::text::copy_opt_string(&sym.signature) } else { None };
    proof {
        if want_sig {
            assert(opt_view(signature) == opt_view(sym.signature));
        }
    }
    let dep_out = if want_deps {
        match &deps {
            Err(e) => return Err(e.duplicate()),
            Ok(all) => {
                let mine = filter_edges_from(all, sym.path.as_str());
                let sorted = crate::order::stable_sort_by_key(&mine);
                proof {
                    let target = edges_from(all@, sym.path@);
                    assert(crate::order::view_seq(mine@).len() == mine@.len());
                    assert(crate::order::view_seq(target).len() == target.len());
                    assert(crate::order::keys_of(mine@) =~= crate::order::keys_of(target)) by {
                        assert forall|k: int| 0 <= k < mine@.len() implies mine@[k].key() == target[k].key() by {
                            assert(crate::order::view_seq(mine@)[k] == mine@[k]@);
                            assert(crate::order::view_seq(target)[k] == target[k]@);
                        }
                    }
                    crate::order::lemma_stably_sorted_views(sorted@, mine@, target);
                }
                Some(sorted)
            },
        }
    } else {
        None
    };
    let uses = if want_uses {
        match xrefs {
            Err(e) => return Err(e),
            Ok(None) => Some(Vec::new()),
            Ok(Some(lines)) => {
                let all = crate::query::read::collect_parsed(lines, "failed to parse xrefs.jsonl")?;
                let mine = filter_xrefs_to(&all, sym.symbol_id.as_str());
                let sorted = crate::order::stable_sort_by_key(&mine);
                proof {
                    let target = xrefs_to(all@, sym.symbol_id@);
                    assert(crate::order::view_seq(mine@).len() == mine@.len());
                    assert(crate::order::view_seq(target).len() == target.len());
                    assert(crate::order::keys_of(mine@) =~= crate::order::keys_of(target)) by {
                        assert forall|k: int| 0 <= k < mine@.len() implies mine@[k].key() == target[k].key() by {
                            assert(crate::order::view_seq(mine@)[k] == mine@[k]@);
                            assert(crate::order::view_seq(target)[k] == target[k]@);
                        }
                    }
                    crate::order::lemma_stably_sorted_views(sorted@, mine@, target);
                }
                Some(sorted)
            },
        }
    } else {
        None
    };
    Ok(DescribeSymbolOutput { symbol_id: sym.symbol_id.clone(), def, signature, uses, deps: dep_out })
}

} // verus!

verus! {

// ---------------------------------------------------------------------------
// Text forms
// ---------------------------------------------------------------------------

/// `- item` for each item.
pub open spec fn dash_lines(items: Seq<Chars>) -> Seq<Chars> {
    items.map_values(|x: Chars| "- "@ + x)
}

/// A heading and its items, or nothing.
pub open spec fn section(heading: Chars, items: Option<Seq<Chars>>) -> Seq<Chars> {
    match items {
        Some(v) => seq![heading] + dash_lines(v),
        None => Seq::empty(),
    }
}

/// Pushes `- item` for each item.
pub fn push_dash_lines(lines: &mut Vec<String>, items: &Vec<String>)
    ensures
        views(final(lines)@) == views(old(lines)@) + dash_lines(views(items@)),
{
    let ghost start = views(lines@);
    let ghost want = dash_lines(views(items@));
    let mut i: usize = 0;
    while i < items.len()
        invariant
            i <= items@.len(),
            want == dash_lines(views(items@)),
            views(lines@) == start + want.take(i as int),
        decreases items@.len() - i,
    {
        let ghost prev = views(lines@);
        lines.push(crate::text::concat2("- ", items[i].as_str()));
        assert(views(lines@) =~= prev.push(want[i as int]));
        assert(start + want.take(i + 1) =~= (start + want.take(i as int)).push(want[i as int]));
        i += 1;
    }
    assert(want.take(items@.len() as int) =~= want);
}

fn push_section(lines: &mut Vec<String>, heading: &str, items: &Option<Vec<String>>)
    ensures
        views(final(lines)@) == views(old(lines)@) + section(heading@, crate::index::artifacts::opt_views(*items)),
{
    match items {
        Some(v) => {
            let ghost start = views(lines@);
            lines.push(copy_str(heading));
            push_dash_lines(lines, v);
            assert(views(lines@) =~= start + section(heading@, crate::index::artifacts::opt_views(*items)));
        },
        None => {
            assert(views(lines@) =~= views(lines@) + Seq::<Chars>::empty());
        },
    }
}

fn tree_paths(files: &Vec<TreeRecord>) -> (r: Vec<String>)
    ensures
        views(r@) == tree_views(files@).map_values(|f: TreeRecordView| f.path),
{
    let mut r: Vec<String> = Vec::new();
    let mut i: usize = 0;
    while i < files.len()
        invariant
            i <= files@.len(),
            views(r@) == tree_views(files@).map_values(|f: TreeRecordView| f.path).take(i as int),
        decreases files@.len() - i,
    {
        let ghost prev = views(r@);
        r.push(files[i].path.clone());
        assert(views(r@) =~= prev.push(files@[i as int].path@));
        assert(tree_views(files@).map_values(|f: TreeRecordView| f.path).take(i + 1) =~= tree_views(files@).map_values(
            |f: TreeRecordView| f.path,
        ).take(i as int).push(files@[i as int].path@));
        i += 1;
    }
    assert(tree_views(files@).map_values(|f: TreeRecordView| f.path).take(files@.len() as int) =~= tree_views(files@).map_values(
        |f: TreeRecordView| f.path,
    ));
    r
}

/// The lines of a path description's text form.
pub open spec fn describe_path_lines(out: DescribePathView) -> Seq<Chars> {
    seq!["path: "@ + out.path, "depth: "@ + crate::text::decimal(out.depth as nat)] + section("dirs:"@, out.dirs)
        + section(
        "files:"@,
        match out.files {
            Some(f) => Some(f.map_values(|r: TreeRecordView| r.path)),
            None => None,
        },
    ) + section("entrypoints:"@, out.entrypoints)
}

/// The text form of a path description.
pub fn describe_path_text(out: &DescribePathOutput) -> (s: String)
    ensures
        s@ == crate::text::join(describe_path_lines(out@), "\n"@),
{
    let mut lines: Vec<String> = Vec::new();
    lines.push(crate::text::concat2("path: ", out.path.as_str()));
    lines.push(crate::text::concat2("depth: ", crate::text::decimal_string(out.depth as u64).as_str()));
    push_section(&mut lines, "dirs:", &out.dirs);
    let file_paths = match &out.files {
        Some(f) => Some(tree_paths(f)),
        None => None,
    };
    push_section(&mut lines, "files:", &file_paths);
    push_section(&mut lines, "entrypoints:", &out.entrypoints);
    assert(views(lines@) =~= describe_path_lines(out@));
    crate::text::join_strings(&lines, "\n")
}

/// The lines of a module description's text form.
pub open spec fn describe_module_lines(out: DescribeModuleOutput) -> Seq<Chars> {
    seq!["module_id: "@ + out.module_id@] + match out.card {
        Some(c) => seq!["title: "@ + c.title@],
        None => Seq::empty(),
    } + section("entrypoints:"@, crate::index::artifacts::opt_views(out.entrypoints)) + section(
        "edit_points:"@,
        crate::index::artifacts::opt_views(out.edit_points),
    ) + section("related_facts:"@, crate::index::artifacts::opt_views(out.related_facts))
}

/// The text form of a module description.
pub fn describe_module_text(out: &DescribeModuleOutput) -> (s: String)
    ensures
        s@ == crate::text::join(describe_module_lines(*out), "\n"@),
{
    let mut lines: Vec<String> = Vec::new();
    lines.push(crate::text::concat2("module_id: ", out.module_id.as_str()));
    match &out.card {
        Some(c) => lines.push(crate::text::concat2("title: ", c.title.as_str())),
        None => {},
    }
    let ghost l1 = views(lines@);
    push_section(&mut lines, "entrypoints:", &out.entrypoints);
    push_section(&mut lines, "edit_points:", &out.edit_points);
    push_section(&mut lines, "related_facts:", &out.related_facts);
    assert(views(lines@) =~= describe_module_lines(*out));
    crate::text::join_strings(&lines, "\n")
}

/// The lines of a symbol description's text form.
pub open spec fn describe_symbol_lines(out: DescribeSymbolOutput) -> Seq<Chars> {
    seq!["symbol_id: "@ + out.symbol_id@] + match out.def {
        Some(d) => seq!["def: "@ + d.path@ + ":"@ + crate::text::decimal(d.line as nat)],
        None => Seq::empty(),
    } + match out.signature {
        Some(sig) => seq!["signature: "@ + sig@],
        None => Seq::empty(),
    } + match out.deps {
        Some(d) => seq!["deps: "@ + crate::text::decimal(d@.len())],
        None => Seq::empty(),
    } + match out.uses {
        Some(u) => seq!["uses: "@ + crate::text::decimal(u@.len())],
        None => Seq::empty(),
    }
}

/// The text form of a symbol description.
pub fn describe_symbol_text(out: &DescribeSymbolOutput) -> (s: String)
    ensures
        s@ == crate::text::join(describe_symbol_lines(*out), "\n"@),
{
    let mut lines: Vec<String> = Vec::new();
    lines.push(crate::text::concat2("symbol_id: ", out.symbol_id.as_str()));
    let ghost l0 = views(lines@);
    match &out.def {
        Some(d) => {
            let mut t = crate::text::concat2("def: ", d.path.as_str());
            crate::text::append_str(&mut t, ":");
            crate::text::append_str(&mut t, crate::text::decimal_string(d.line).as_str());
            lines.push(t);
        },
        None => {},
    }
    let ghost l1 = views(lines@);
    match &out.signature {
        Some(sig) => lines.push(crate::text::concat2("signature: ", sig.as_str())),
        None => {},
    }
    let ghost l2 = views(lines@);
    match &out.deps {
        Some(d) => lines.push(crate::text::concat2("deps: ", crate::text::decimal_string(d.len() as u64).as_str())),
        None => {},
    }
    let ghost l3 = views(lines@);
    match &out.uses {
        Some(u) => lines.push(crate::text::concat2("uses: ", crate::text::decimal_string(u.len() as u64).as_str())),
        None => {},
    }
    assert(views(lines@) =~= describe_symbol_lines(*out));
    crate::text::join_strings(&lines, "\n")
}

} // verus!

verus! {

// ---------------------------------------------------------------------------
// Facts
// ---------------------------------------------------------------------------

/// The description of a fact: its id and its record.
#[derive(Debug)]
pub struct DescribeFactOutput {
    pub fact_id: String,
    pub fact: crate::json::JsonValue,
}

/// Finding a fact among the records, in order: each record is checked (a
/// string `type`, then a string `fact_id`) until the one with the id; none
/// found is a not-found error.
pub open spec fn fact_lookup(recs: Seq<crate::json::JsonValue>, id: Chars) -> Result<crate::json::JsonValue, KbErrorView>
    decreases recs.len(),
{
    if recs.len() == 0 {
        Err(error_with(ErrorCode::NotFound, "fact not found"@, "fact_id"@, id))
    } else {
        match crate::facts::record_check(recs[0], crate::facts::RecordCheck::TypeThenId) {
            Err(e) => Err(e),
            Ok(_) => if crate::json::str_field(recs[0], "fact_id"@) == Some(id) {
                Ok(recs[0])
            } else {
                fact_lookup(recs.drop_first(), id)
            },
        }
    }
}

/// Describing a fact from the read of the facts file: a missing file is a
/// not-found error for the id; the first parse error; else the lookup.
pub open spec fn describe_fact_spec(
    id: Chars,
    facts: Result<Seq<Result<crate::json::JsonValue, Chars>>, KbErrorView>,
) -> Result<crate::json::JsonValue, KbErrorView> {
    match facts {
        Err(e) => if e.code == ErrorCode::NotFound {
            Err(error_with(ErrorCode::NotFound, "fact not found"@, "fact_id"@, id))
        } else {
            Err(e)
        },
        Ok(lines) => match crate::query::read::collected(lines, "failed to parse jsonl"@) {
            Err(e) => Err(e),
            Ok(recs) => fact_lookup(recs, id),
        },
    }
}

fn find_fact(recs: &Vec<crate::json::JsonValue>, id: &str) -> (r: Result<usize, KbError>)
    ensures
        match r {
            Ok(i) => i < recs@.len() && fact_lookup(recs@, id@) == Ok::<crate::json::JsonValue, KbErrorView>(recs@[i as int]),
            Err(e) => fact_lookup(recs@, id@) == Err::<crate::json::JsonValue, KbErrorView>(e@),
        },
{
    let mut i: usize = 0;
    assert(recs@.skip(0) =~= recs@);
    while i < recs.len()
        invariant
            i <= recs@.len(),
            fact_lookup(recs@, id@) == fact_lookup(recs@.skip(i as int), id@),
        decreases recs@.len() - i,
    {
        assert(recs@.skip(i as int)[0] == recs@[i as int]);
        assert(recs@.skip(i as int).drop_first() =~= recs@.skip(i + 1));
        crate::facts::check_record(&recs[i], crate::facts::RecordCheck::TypeThenId)?;
        let found = match crate::json::get_str_field(&recs[i], "fact_id") {
            Some(s) => crate::text::str_eq(s, id),
            None => false,
        };
        if found {
            return Ok(i);
        }
        i += 1;
    }
    assert(recs@.skip(recs@.len() as int) =~= Seq::<crate::json::JsonValue>::empty());
    Err(KbError::coded_with(ErrorCode::NotFound, "fact not found", "fact_id", id))
}

/// Describes a fact (see `describe_fact_spec`); `facts` is the read of
/// `kb/facts/facts.jsonl`, line by line.
pub fn describe_fact_at(fact_id: &str, facts: Result<Vec<Result<crate::json::JsonValue, String>>, KbError>) -> (r: Result<
    DescribeFactOutput,
    KbError,
>)
    ensures
        match r {
            Ok(out) => out.fact_id@ == fact_id@ && describe_fact_spec(fact_id@, crate::query::list::facts_load_view(facts))
                == Ok::<crate::json::JsonValue, KbErrorView>(out.fact),
            Err(e) => describe_fact_spec(fact_id@, crate::query::list::facts_load_view(facts)) == Err::<
                crate::json::JsonValue,
                KbErrorView,
            >(e@),
        },
{
    let mut recs = match facts {
        Err(e) => {
            if e.code == ErrorCode::NotFound {
                return Err(KbError::coded_with(ErrorCode::NotFound, "fact not found", "fact_id", fact_id));
            }
            return Err(e);
        },
        Ok(lines) => crate::query::read::collect_parsed(lines, "failed to parse jsonl")?,
    };
    let i = find_fact(&recs, fact_id)?;
    let fact = recs.remove(i);
    Ok(DescribeFactOutput { fact_id: copy_str(fact_id), fact })
}

} // verus!

verus! {

/// Describing a path is deterministic: two results that both meet
/// `describe_path_at`'s contract on the same tree, symbols and cards are the
/// same result.
pub proof fn law_describe_path_deterministic(
    r1: Result<DescribePathView, KbErrorView>,
    r2: Result<DescribePathView, KbErrorView>,
    tree: Seq<TreeRecordView>,
    input: Chars,
    depth: u32,
    wanted: Seq<DescribePathInclude>,
    symbols: Result<Seq<SymbolRecordView>, KbErrorView>,
    cards: Result<Seq<Result<ModuleCardView, KbErrorView>>, KbErrorView>,
)
    requires
        describe_path_holds(r1, tree, input, depth, wanted, symbols, cards),
        describe_path_holds(r2, tree, input, depth, wanted, symbols, cards),
    ensures
        r1 == r2,
{
    let t1 = choose|table: Seq<ByPath>|
        #[trigger] sorted_unique_views(table, reversed(tree))
        && r1 == describe_path_spec(by_path_views(table), input, depth, wanted, symbols, cards);
    let t2 = choose|table: Seq<ByPath>|
        #[trigger] sorted_unique_views(table, reversed(tree))
        && r2 == describe_path_spec(by_path_views(table), input, depth, wanted, symbols, cards);
    assert forall|x: ByPath, y: ByPath| x@ == y@ implies #[trigger] x.key() == #[trigger] y.key() by {}
    crate::order::lemma_sorted_unique_views_determined(t1, t2, reversed(tree));
    assert(by_path_views(t1) == crate::order::view_seq(t1));
    assert(by_path_views(t2) == crate::order::view_seq(t2));
}

} // verus!

verus! {

/// Everything a directory listing holds lies under its base, within the
/// segment limit.
proof fn lemma_dir_listing_under(table: Seq<TreeRecordView>, base: Chars, max_segments: int)
    ensures
        forall|k: int|
            0 <= k < dir_listing(table, base, max_segments).0.len() ==> starts_with(
                #[trigger] dir_listing(table, base, max_segments).0[k],
                base,
            ) && segment_count(dir_listing(table, base, max_segments).0[k]) <= max_segments,
        forall|k: int|
            0 <= k < dir_listing(table, base, max_segments).1.len() ==> starts_with(
                (#[trigger] dir_listing(table, base, max_segments).1[k]).path,
                base,
            ) && segment_count(dir_listing(table, base, max_segments).1[k].path) <= max_segments,
    decreases table.len(),
{
    if table.len() > 0 {
        lemma_dir_listing_under(table.drop_last(), base, max_segments);
        let (d, f) = dir_listing(table.drop_last(), base, max_segments);
        let (d2, f2) = dir_listing(table, base, max_segments);
        assert forall|k: int| 0 <= k < d2.len() implies starts_with(#[trigger] d2[k], base) && segment_count(d2[k]) <= max_segments by {
            if k < d.len() {
                assert(d2[k] == d[k]);
            }
        }
        assert forall|k: int| 0 <= k < f2.len() implies starts_with((#[trigger] f2[k]).path, base) && segment_count(f2[k].path)
            <= max_segments by {
            if k < f.len() {
                assert(f2[k] == f[k]);
            }
        }
    }
}

/// Describing a directory (other than the root) lists only what lies under
/// it: every directory and every file it gives starts with the directory's
/// path (ending in `/`), and has at most `depth` more segments.
pub proof fn law_describe_dir_stays_under_it(
    tree: Seq<TreeRecordView>,
    input: Chars,
    depth: u32,
    wanted: Seq<DescribePathInclude>,
    symbols: Result<Seq<SymbolRecordView>, KbErrorView>,
    cards: Result<Seq<Result<ModuleCardView, KbErrorView>>, KbErrorView>,
    v: DescribePathView,
    norm: Chars,
)
    requires
        describe_path_holds(Ok::<DescribePathView, KbErrorView>(v), tree, input, depth, wanted, symbols, cards),
        describe_input(input) == Ok::<(Chars, bool, bool), KbErrorView>((norm, true, false)),
    ensures
        ({
            let target = if norm.len() > 0 { norm.push('/') } else { norm };
            &&& v.dirs matches Some(ds) ==> forall|k: int|
                0 <= k < ds.len() ==> starts_with(#[trigger] ds[k], target) && segment_count(ds[k]) <= segment_count(target)
                    + depth
            &&& v.files matches Some(fs) ==> forall|k: int|
                0 <= k < fs.len() ==> starts_with((#[trigger] fs[k]).path, target) && segment_count(fs[k].path)
                    <= segment_count(target) + depth
        }),
{
    let table = choose|table: Seq<ByPath>|
        #[trigger] sorted_unique_views(table, reversed(tree))
        && Ok::<DescribePathView, KbErrorView>(v) == describe_path_spec(by_path_views(table), input, depth, wanted, symbols, cards);
    let tv = by_path_views(table);
    let target = if norm.len() > 0 { norm.push('/') } else { norm };
    let max = segment_count(target) + depth;
    lemma_dir_listing_under(tv, target, max);
    let listing = dir_listing(tv, target, max);
    if v.files is Some {
        let fs = v.files->Some_0;
        assert forall|k: int| 0 <= k < fs.len() implies starts_with((#[trigger] fs[k]).path, target) && segment_count(fs[k].path)
            <= max by {
            if wanted.contains(DescribePathInclude::TopSymbols) {
                let s = symbols->Ok_0;
                assert(fs == with_top_symbols(listing.1, s));
                assert(fs[k].path == listing.1[k].path);
            } else {
                assert(fs[k] == listing.1[k]);
            }
        }
    }
}

} // verus!

verus! {

/// A directory listing holds every directory and every file record of the
/// table that lies under its base within the segment limit.
proof fn lemma_dir_listing_complete(table: Seq<TreeRecordView>, base: Chars, max_segments: int)
    ensures
        forall|k: int|
            0 <= k < table.len() && starts_with(#[trigger] table[k].path, base) && segment_count(table[k].path) <= max_segments
                ==> (table[k].kind == "dir"@ ==> dir_listing(table, base, max_segments).0.contains(table[k].path)) && (
            table[k].kind == "file"@ ==> dir_listing(table, base, max_segments).1.contains(table[k])),
    decreases table.len(),
{
    if table.len() > 0 {
        let p = table.drop_last();
        lemma_dir_listing_complete(p, base, max_segments);
        let (d, f) = dir_listing(p, base, max_segments);
        let (d2, f2) = dir_listing(table, base, max_segments);
        assert forall|k: int|
            0 <= k < table.len() && starts_with(#[trigger] table[k].path, base) && segment_count(table[k].path) <= max_segments
                implies (table[k].kind == "dir"@ ==> d2.contains(table[k].path)) && (table[k].kind == "file"@ ==> f2.contains(
            table[k],
        )) by {
            if k < table.len() - 1 {
                assert(p[k] == table[k]);
                assert(starts_with(p[k].path, base));
                if table[k].kind == "dir"@ {
                    assert(d.contains(table[k].path));
                    let j = choose|j: int| 0 <= j < d.len() && d[j] == table[k].path;
                    assert(d2[j] == d[j]);
                }
                if table[k].kind == "file"@ {
                    assert(f.contains(table[k]));
                    let j = choose|j: int| 0 <= j < f.len() && f[j] == table[k];
                    assert(f2[j] == f[j]);
                }
            } else {
                assert(table.last() == table[k]);
                reveal_strlit("dir");
                reveal_strlit("file");
                assert("dir"@ != "file"@) by {
                    assert("dir"@[0] != "file"@[0]);
                }
                if table[k].kind == "dir"@ {
                    assert(d2[d.len() as int] == table[k].path);
                }
                if table[k].kind == "file"@ {
                    assert(f2[f.len() as int] == table[k]);
                }
            }
        }
    }
}

/// Describing a directory (other than the root) lists everything under it
/// within the depth: for each record of the table whose path starts with
/// the directory's path (ending in `/`) and has at most `depth` more
/// segments, a directory's path is among the listed directories (when
/// directories are wanted), and a file is among the listed files (when files
/// are wanted), with its top symbols when those are wanted.
pub proof fn law_describe_dir_lists_all_under_it(
    table: Seq<TreeRecordView>,
    input: Chars,
    depth: u32,
    wanted: Seq<DescribePathInclude>,
    symbols: Result<Seq<SymbolRecordView>, KbErrorView>,
    cards: Result<Seq<Result<ModuleCardView, KbErrorView>>, KbErrorView>,
    v: DescribePathView,
    norm: Chars,
    k: int,
)
    requires
        describe_path_spec(table, input, depth, wanted, symbols, cards) == Ok::<DescribePathView, KbErrorView>(v),
        describe_input(input) == Ok::<(Chars, bool, bool), KbErrorView>((norm, true, false)),
        0 <= k < table.len(),
        starts_with(table[k].path, if norm.len() > 0 { norm.push('/') } else { norm }),
        segment_count(table[k].path) <= segment_count(if norm.len() > 0 { norm.push('/') } else { norm }) + depth,
    ensures
        table[k].kind == "dir"@ && wanted.contains(DescribePathInclude::Dirs) ==> v.dirs is Some && (v.dirs->Some_0).contains(
            table[k].path,
        ),
        table[k].kind == "file"@ && wanted.contains(DescribePathInclude::Files) && !wanted.contains(DescribePathInclude::TopSymbols)
            ==> v.files is Some && (v.files->Some_0).contains(table[k]),
        table[k].kind == "file"@ && wanted.contains(DescribePathInclude::TopSymbols) ==> v.files is Some && (v.files->Some_0).contains(
            (TreeRecordView { top_symbols: Some(top_ids(symbols->Ok_0, table[k].path)), ..table[k] }),
        ),
{
    let target = if norm.len() > 0 { norm.push('/') } else { norm };
    let max = segment_count(target) + depth;
    lemma_dir_listing_complete(table, target, max);
    let listing = dir_listing(table, target, max);
    if table[k].kind == "file"@ && wanted.contains(DescribePathInclude::TopSymbols) {
        let s = symbols->Ok_0;
        assert(listing.1.contains(table[k]));
        let j = choose|j: int| 0 <= j < listing.1.len() && listing.1[j] == table[k];
        let fs = with_top_symbols(listing.1, s);
        assert(fs[j] == TreeRecordView { top_symbols: Some(top_ids(s, table[k].path)), ..table[k] });
        assert(v.files == Some(fs));
        assert(fs.contains(fs[j]));
    }
}

/// Describing a symbol picks the first record with that id: `first_symbol`
/// is negative exactly when no record has the id, and otherwise is the
/// position of a record with the id that no earlier record shares.
pub proof fn law_first_symbol_finds_first(s: Seq<SymbolRecordView>, id: Chars)
    ensures
        first_symbol(s, id) < 0 <==> forall|i: int| 0 <= i < s.len() ==> (#[trigger] s[i]).symbol_id != id,
        first_symbol(s, id) >= 0 ==> 0 <= first_symbol(s, id) < s.len() && s[first_symbol(s, id)].symbol_id == id && forall|j: int|
            0 <= j < first_symbol(s, id) ==> (#[trigger] s[j]).symbol_id != id,
    decreases s.len(),
{
    if s.len() > 0 {
        let t = s.drop_first();
        law_first_symbol_finds_first(t, id);
        assert forall|i: int| 0 <= i < t.len() implies t[i] == s[i + 1] by {}
        if s[0].symbol_id != id {
            if forall|i: int| 0 <= i < t.len() ==> (#[trigger] t[i]).symbol_id != id {
                assert forall|i: int| 0 <= i < s.len() implies (#[trigger] s[i]).symbol_id != id by {
                    if i > 0 {
                        assert(t[i - 1] == s[i]);
                    }
                }
            }
            if first_symbol(t, id) >= 0 {
                let f = first_symbol(t, id);
                assert forall|j: int| 0 <= j < f + 1 implies (#[trigger] s[j]).symbol_id != id by {
                    if j > 0 {
                        assert(t[j - 1] == s[j]);
                    }
                }
            }
        }
    }
}

/// The dependency edges a symbol description lists are exactly the edges
/// that leave the symbol's file.
pub proof fn law_edges_from_members(edges: Seq<DepEdge>, path: Chars, x: DepEdge)
    ensures
        edges_from(edges, path).contains(x) <==> edges.contains(x) && x.from_path@ == path,
    decreases edges.len(),
{
    if edges.len() > 0 {
        law_edges_from_members(edges.drop_last(), path, x);
        let y = edges.last();
        let tail: Seq<DepEdge> = if y.from_path@ == path { seq![y] } else { Seq::empty() };
        assert(edges_from(edges, path) == edges_from(edges.drop_last(), path) + tail);
        crate::text::lemma_contains_concat(edges_from(edges.drop_last(), path), tail, x);
        crate::text::lemma_contains_concat(edges.drop_last(), seq![y], x);
        assert(edges.drop_last() + seq![y] =~= edges);
        if tail.contains(x) {
            assert(tail[0] == y);
        }
        if x == y {
            assert(seq![y][0] == x);
        }
    }
}

/// The cross-references a symbol description lists are exactly those that
/// point at the symbol.
pub proof fn law_xrefs_to_members(edges: Seq<XrefEdge>, id: Chars, x: XrefEdge)
    ensures
        xrefs_to(edges, id).contains(x) <==> edges.contains(x) && x.to_symbol_id@ == id,
    decreases edges.len(),
{
    if edges.len() > 0 {
        law_xrefs_to_members(edges.drop_last(), id, x);
        let y = edges.last();
        let tail: Seq<XrefEdge> = if y.to_symbol_id@ == id { seq![y] } else { Seq::empty() };
        assert(xrefs_to(edges, id) == xrefs_to(edges.drop_last(), id) + tail);
        crate::text::lemma_contains_concat(xrefs_to(edges.drop_last(), id), tail, x);
        crate::text::lemma_contains_concat(edges.drop_last(), seq![y], x);
        assert(edges.drop_last() + seq![y] =~= edges);
        if tail.contains(x) {
            assert(tail[0] == y);
        }
        if x == y {
            assert(seq![y][0] == x);
        }
    }
}

} // verus!
