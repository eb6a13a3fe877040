//! The records of the generated index: `kb/gen/*`.
use vstd::prelude::*;

use crate::text::{copy_opt_string, copy_str, copy_strings, Chars};

verus! {

pub open spec fn opt_view(o: Option<String>) -> Option<Chars> {
    match o {
        Some(s) => Some(s@),
        None => None,
    }
}

pub open spec fn opt_views(o: Option<Vec<String>>) -> Option<Seq<Chars>> {
    match o {
        Some(v) => Some(v@.map_values(|s: String| s@)),
        None => None,
    }
}

#[derive(Debug)]
pub struct KbMeta {
    pub kb_format_version: u32,
    pub schemas: Vec<KbSchema>,
}

#[derive(Debug)]
pub struct KbSchema {
    pub name: String,
    pub version: u32,
    pub required: bool,
}

#[derive(Debug)]
pub struct TreeRecord {
    pub path: String,
    pub kind: String,
    pub bytes: Option<u64>,
    pub lines: Option<u64>,
    pub lang: Option<String>,
    pub top_symbols: Option<Vec<String>>,
}

pub struct TreeRecordView {
    pub path: Chars,
    pub kind: Chars,
    pub bytes: Option<u64>,
    pub lines: Option<u64>,
    pub lang: Option<Chars>,
    pub top_symbols: Option<Seq<Chars>>,
}

impl View for TreeRecord {
    type V = TreeRecordView;

    open spec fn view(&self) -> TreeRecordView {
        TreeRecordView {
            path: self.path@,
            kind: self.kind@,
            bytes: self.bytes,
            lines: self.lines,
            lang: opt_view(self.lang),
            top_symbols: opt_views(self.top_symbols),
        }
    }
}

impl TreeRecord {
    pub fn duplicate(&self) -> (r: TreeRecord)
        ensures
            r@ == self@,
    {
        let top = match &self.top_symbols {
            Some(v) => Some(copy_strings(v)),
            None => None,
        };
        let lang = copy_opt_string(&self.lang);
        let r = TreeRecord {
            path: self.path.clone(),
            kind: self.kind.clone(),
            bytes: self.bytes,
            lines: self.lines,
            lang,
            top_symbols: top,
        };
        assert(opt_view(r.lang) == opt_view(self.lang));
        r
    }
}

#[derive(Debug)]
pub struct SymbolRecord {
    pub symbol_id: String,
    pub lang: String,
    pub path: String,
    pub kind: String,
    pub name: String,
    pub qualified_name: String,
    pub line: u64,
    pub end_line: Option<u64>,
    pub signature: Option<String>,
    pub scope: Option<String>,
}

pub struct SymbolRecordView {
    pub symbol_id: Chars,
    pub lang: Chars,
    pub path: Chars,
    pub kind: Chars,
    pub name: Chars,
    pub qualified_name: Chars,
    pub line: u64,
    pub end_line: Option<u64>,
    pub signature: Option<Chars>,
    pub scope: Option<Chars>,
}

impl View for SymbolRecord {
    type V = SymbolRecordView;

    open spec fn view(&self) -> SymbolRecordView {
        SymbolRecordView {
            symbol_id: self.symbol_id@,
            lang: self.lang@,
            path: self.path@,
            kind: self.kind@,
            name: self.name@,
            qualified_name: self.qualified_name@,
            line: self.line,
            end_line: self.end_line,
            signature: opt_view(self.signature),
            scope: opt_view(self.scope),
        }
    }
}

impl SymbolRecord {
    pub fn duplicate(&self) -> (r: SymbolRecord)
        ensures
            r@ == self@,
    {
        let signature = copy_opt_string(&self.signature);
        let scope = copy_opt_string(&self.scope);
        let r = SymbolRecord {
            symbol_id: self.symbol_id.clone(),
            lang: self.lang.clone(),
            path: self.path.clone(),
            kind: self.kind.clone(),
            name: self.name.clone(),
            qualified_name: self.qualified_name.clone(),
            line: self.line,
            end_line: self.end_line,
            signature,
            scope,
        };
        assert(opt_view(r.signature) == opt_view(self.signature));
        assert(opt_view(r.scope) == opt_view(self.scope));
        r
    }
}

#[derive(Debug)]
pub struct DepEdge {
    pub from_path: String,
    pub kind: String,
    pub to_path: Option<String>,
    pub to_external: Option<String>,
    pub raw: Option<String>,
}

pub struct DepEdgeView {
    pub from_path: Chars,
    pub kind: Chars,
    pub to_path: Option<Chars>,
    pub to_external: Option<Chars>,
    pub raw: Option<Chars>,
}

impl View for DepEdge {
    type V = DepEdgeView;

    open spec fn view(&self) -> DepEdgeView {
        DepEdgeView {
            from_path: self.from_path@,
            kind: self.kind@,
            to_path: opt_view(self.to_path),
            to_external: opt_view(self.to_external),
            raw: opt_view(self.raw),
        }
    }
}

impl DepEdge {
    pub fn duplicate(&self) -> (r: DepEdge)
        ensures
            r@ == self@,
    {
        let to_path = copy_opt_string(&self.to_path);
        let to_external = copy_opt_string(&self.to_external);
        let raw = copy_opt_string(&self.raw);
        let r = DepEdge {
            from_path: self.from_path.clone(),
            kind: self.kind.clone(),
            to_path,
            to_external,
            raw,
        };
        assert(opt_view(r.to_path) == opt_view(self.to_path));
        assert(opt_view(r.to_external) == opt_view(self.to_external));
        assert(opt_view(r.raw) == opt_view(self.raw));
        r
    }
}

/// The schemas that `kb/gen/kb_meta.json` lists, sorted by name.
pub open spec fn meta_schema_names() -> Seq<Chars> {
    seq![
        "kb/gen/deps.jsonl"@,
        "kb/gen/symbols.jsonl"@,
        "kb/gen/tree.jsonl"@,
        "kb/gen/xrefs.jsonl"@,
    ]
}

/// The metadata record of the generated index: format version 1, and the four
/// artifacts at version 1, all required but the cross-references.
pub fn kb_meta_record() -> (m: KbMeta)
    ensures
        m.kb_format_version == 1,
        m.schemas@.len() == 4,
        forall|i: int| 0 <= i < 4 ==> (#[trigger] m.schemas@[i]).name@ == meta_schema_names()[i]
            && m.schemas@[i].version == 1 && m.schemas@[i].required == (i != 3),
{
    let mut schemas: Vec<KbSchema> = Vec::new();
    schemas.push(KbSchema { name: copy_str("kb/gen/deps.jsonl"), version: 1, required: true });
    schemas.push(KbSchema { name: copy_str("kb/gen/symbols.jsonl"), version: 1, required: true });
    schemas.push(KbSchema { name: copy_str("kb/gen/tree.jsonl"), version: 1, required: true });
    schemas.push(KbSchema { name: copy_str("kb/gen/xrefs.jsonl"), version: 1, required: false });
    KbMeta { kb_format_version: 1, schemas }
}

} // verus!

verus! {

impl crate::order::SortKey for SymbolRecord {
    open spec fn key(&self) -> Seq<Chars> {
        seq![self.symbol_id@]
    }

    fn exec_key(&self) -> (k: Vec<Vec<char>>) {
        let mut k: Vec<Vec<char>> = Vec::new();
        k.push(crate::text::chars_of(self.symbol_id.as_str()));
        assert(crate::order::key_view(k) =~= seq![self.symbol_id@]);
        k
    }
}

/// The views of a sequence of symbol records.
pub open spec fn symbol_views(s: Seq<SymbolRecord>) -> Seq<SymbolRecordView> {
    s.map_values(|r: SymbolRecord| r@)
}

/// The views of a sequence of tree records.
pub open spec fn tree_views(s: Seq<TreeRecord>) -> Seq<TreeRecordView> {
    s.map_values(|r: TreeRecord| r@)
}

/// The views of a sequence of dependency edges.
pub open spec fn dep_views(s: Seq<DepEdge>) -> Seq<DepEdgeView> {
    s.map_values(|r: DepEdge| r@)
}

} // verus!
