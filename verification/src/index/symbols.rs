//! Symbol records from ctags output, with content-derived stable ids.
use sha2::{Digest, Sha256};
use vstd::prelude::*;

use crate::error::{plain_error, ErrorCode, KbError, KbErrorView};
use crate::index::artifacts::{opt_view, symbol_views, SymbolRecord, SymbolRecordView};
use crate::order::{sort_unique_by_key, sorted_unique, SortKey};
use crate::repo::path::{parse_repo_path, RepoPath};
use crate::text::{append_str, concat2, concat3, copy_str, decimal, decimal_string, push_char, str_eq, Chars};

verus! {

/// One line of `ctags --output-format=json`: the fields the index reads.
#[derive(Debug)]
pub struct CtagsRecord {
    pub ty: String,
    pub name: Option<String>,
    pub path: Option<String>,
    pub pattern: Option<String>,
    pub language: Option<String>,
    pub line: Option<u64>,
    pub end: Option<u64>,
    pub kind: Option<String>,
    pub signature: Option<String>,
    pub scope: Option<String>,
}

pub struct CtagsRecordView {
    pub ty: Chars,
    pub name: Option<Chars>,
    pub path: Option<Chars>,
    pub pattern: Option<Chars>,
    pub language: Option<Chars>,
    pub line: Option<u64>,
    pub end: Option<u64>,
    pub kind: Option<Chars>,
    pub signature: Option<Chars>,
    pub scope: Option<Chars>,
}

impl View for CtagsRecord {
    type V = CtagsRecordView;

    open spec fn view(&self) -> CtagsRecordView {
        CtagsRecordView {
            ty: self.ty@,
            name: opt_view(self.name),
            path: opt_view(self.path),
            pattern: opt_view(self.pattern),
            language: opt_view(self.language),
            line: self.line,
            end: self.end,
            kind: opt_view(self.kind),
            signature: opt_view(self.signature),
            scope: opt_view(self.scope),
        }
    }
}

/// The SHA-256 digest of `bytes`.
pub uninterp spec fn sha256(bytes: Seq<u8>) -> Seq<u8>;

/// `sha2::Sha256`: hashes `bytes` in one update and hands back the 32-byte
/// digest. The contract names the digest and states its length, which the
/// digest's type fixes; what the digest is, is not stated.
#[verifier::external_body]
fn sha256_digest(bytes: &[u8]) -> (d: Vec<u8>)
    ensures
        d@ == sha256(bytes@),
        d@.len() == 32,
{
    let mut hasher = Sha256::new();
    hasher.update(bytes);
    hasher.finalize().to_vec()
}

/// The lower-case hexadecimal digit of a value below 16.
pub open spec fn hex_digit(n: u8) -> char {
    if n < 10 {
        ((n + 48) as u8) as char
    } else {
        ((n + 87) as u8) as char
    }
}

/// Two lower-case hexadecimal digits per byte, high nibble first.
pub open spec fn hex_of(bytes: Seq<u8>) -> Chars
    decreases bytes.len(),
{
    if bytes.len() == 0 {
        Seq::empty()
    } else {
        hex_of(bytes.drop_last()) + seq![hex_digit(bytes.last() / 16), hex_digit(bytes.last() % 16)]
    }
}

fn hex_digit_exec(n: u8) -> (c: char)
    requires
        n < 16,
    ensures
        c == hex_digit(n),
{
    let digits = ['0', '1', '2', '3', '4', '5', '6', '7', '8', '9', 'a', 'b', 'c', 'd', 'e', 'f'];
    let c = digits[n as usize];
    assert(c == hex_digit(n)) by {
        assert(digits@[n as int] == c);
    }
    c
}

/// Writes bytes as lower-case hexadecimal (`{:02x}` per byte).
pub fn hex_encode(bytes: &[u8]) -> (s: String)
    ensures
        s@ == hex_of(bytes@),
{
    let mut s = String::new();
    let mut i: usize = 0;
    while i < bytes.len()
        invariant
            i <= bytes@.len(),
            s@ == hex_of(bytes@.take(i as int)),
        decreases bytes@.len() - i,
    {
        let b = bytes[i];
        push_char(&mut s, hex_digit_exec(b / 16));
        push_char(&mut s, hex_digit_exec(b % 16));
        assert(bytes@.take(i + 1).drop_last() =~= bytes@.take(i as int));
        i += 1;
    }
    assert(bytes@.take(bytes@.len() as int) =~= bytes@);
    s
}

/// The hex text of bytes has two lower-case hex digits per byte.
pub proof fn lemma_hex_of(bytes: Seq<u8>)
    ensures
        hex_of(bytes).len() == 2 * bytes.len(),
        forall|i: int| 0 <= i < hex_of(bytes).len() ==> crate::policy::lint::is_lower_hex(#[trigger] hex_of(bytes)[i]),
    decreases bytes.len(),
{
    if bytes.len() > 0 {
        lemma_hex_of(bytes.drop_last());
        let h = hex_of(bytes.drop_last());
        let b = bytes.last();
        assert forall|n: u8| n < 16 implies crate::policy::lint::is_lower_hex(#[trigger] hex_digit(n)) by {
            if n < 10 {
                assert(((n + 48) as u8) as char as u32 == n + 48);
            } else {
                assert(((n + 87) as u8) as char as u32 == n + 87);
            }
        }
        assert(crate::policy::lint::is_lower_hex(hex_digit(b / 16)));
        assert(crate::policy::lint::is_lower_hex(hex_digit(b % 16)));
        let all = hex_of(bytes);
        assert forall|i: int| 0 <= i < all.len() implies crate::policy::lint::is_lower_hex(#[trigger] all[i]) by {
            if i < h.len() {
                assert(all[i] == h[i]);
            }
        }
    }
}

/// The SHA-256 digest of `bytes` as 64 lower-case hexadecimal digits.
pub fn sha256_hex(bytes: &[u8]) -> (s: String)
    ensures
        s@ == hex_of(sha256(bytes@)),
        s@.len() == 64,
        forall|i: int| 0 <= i < 64 ==> crate::policy::lint::is_lower_hex(#[trigger] s@[i]),
{
    let digest = sha256_digest(bytes);
    proof {
        lemma_hex_of(digest@);
    }
    hex_encode(digest.as_slice())
}

/// The text whose hash identifies a symbol.
pub open spec fn canonical_key(lang: Chars, path: Chars, kind: Chars, qualified_name: Chars, disambiguator: Chars) -> Chars {
    "lang="@ + lang + "\npath="@ + path + "\nkind="@ + kind + "\nqualified_name="@ + qualified_name
        + "\ndisambiguator="@ + disambiguator + "\n"@
}

/// The text whose hash identifies a symbol: one `field=value` line per part.
pub fn canonical_symbol_key(lang: &str, path: &str, kind: &str, qualified_name: &str, disambiguator: &str) -> (s: String)
    ensures
        s@ == canonical_key(lang@, path@, kind@, qualified_name@, disambiguator@),
{
    let mut s = copy_str("lang=");
    append_str(&mut s, lang);
    append_str(&mut s, "\npath=");
    append_str(&mut s, path);
    append_str(&mut s, "\nkind=");
    append_str(&mut s, kind);
    append_str(&mut s, "\nqualified_name=");
    append_str(&mut s, qualified_name);
    append_str(&mut s, "\ndisambiguator=");
    append_str(&mut s, disambiguator);
    append_str(&mut s, "\n");
    s
}

/// The characters of the string, when there is one and it is not empty.
pub open spec fn non_empty(o: Option<Chars>) -> Option<Chars> {
    match o {
        Some(s) => if s.len() > 0 { Some(s) } else { None },
        None => None,
    }
}

/// `scope::name` when the symbol has a non-empty scope, else the name.
pub open spec fn qualified_name_of(scope: Option<Chars>, name: Chars) -> Chars {
    match non_empty(scope) {
        Some(s) => s + "::"@ + name,
        None => name,
    }
}

/// What tells apart symbols of one name: the hashed pattern, else the hashed
/// signature, else the line.
pub open spec fn disambiguator_of(pattern: Option<Chars>, signature: Option<Chars>, line: u64) -> Chars {
    match non_empty(pattern) {
        Some(p) => "pat_sha256="@ + hex_of(sha256(vstd::utf8::encode_utf8(p))),
        None => match non_empty(signature) {
            Some(s) => "sig_sha256="@ + hex_of(sha256(vstd::utf8::encode_utf8(s))),
            None => "line="@ + decimal(line as nat),
        },
    }
}

/// The id of a symbol: `sym:v1:` and the hash of its canonical key.
pub open spec fn symbol_id_of(key: Chars) -> Chars {
    "sym:v1:"@ + hex_of(sha256(vstd::utf8::encode_utf8(key)))
}

/// `str::to_lowercase` of the characters.
pub uninterp spec fn to_lower(s: Chars) -> Chars;

/// `str::to_lowercase`: Unicode lower-casing. The contract names the result;
/// the case mapping itself is not stated.
#[verifier::external_body]
fn lowercase(s: &str) -> (r: String)
    ensures
        r@ == to_lower(s@),
{
    s.to_lowercase()
}

/// The language of a record, lower-cased; `unknown` when ctags gives none.
pub open spec fn lang_of(language: Option<Chars>) -> Chars {
    match language {
        Some(l) => to_lower(l),
        None => to_lower("unknown"@),
    }
}

/// What one ctags record gives: nothing for records that are not tags, an
/// error for a tag that lacks a name, path, kind or line or whose path is not
/// a repository path, else its symbol record.
pub open spec fn symbol_from_ctags(r: CtagsRecordView) -> Result<Option<SymbolRecordView>, KbErrorView> {
    if r.ty != "tag"@ {
        Ok(None)
    } else if r.name is None {
        Err(plain_error(ErrorCode::BackendFailed, "ctags record missing name"@))
    } else if r.path is None {
        Err(plain_error(ErrorCode::BackendFailed, "ctags record missing path"@))
    } else if r.kind is None {
        Err(plain_error(ErrorCode::BackendFailed, "ctags record missing kind"@))
    } else if r.line is None {
        Err(plain_error(ErrorCode::BackendFailed, "ctags record missing line"@))
    } else {
        match parse_repo_path(r.path.unwrap()) {
            Err(e) => Err(e),
            Ok(path) => {
                let name = r.name.unwrap();
                let kind = r.kind.unwrap();
                let line = r.line.unwrap();
                let lang = lang_of(r.language);
                let qn = qualified_name_of(r.scope, name);
                let dis = disambiguator_of(r.pattern, r.signature, line);
                Ok(Some(SymbolRecordView {
                    symbol_id: symbol_id_of(canonical_key(lang, path, kind, qn, dis)),
                    lang,
                    path,
                    kind,
                    name,
                    qualified_name: qn,
                    line,
                    end_line: r.end,
                    signature: r.signature,
                    scope: r.scope,
                }))
            },
        }
    }
}

fn opt_non_empty(o: &Option<String>) -> (r: Option<&str>)
    ensures
        match r {
            Some(s) => non_empty(opt_view(*o)) == Some(s@),
            None => non_empty(opt_view(*o)) is None,
        },
{
    match o {
        Some(s) => if s.as_str().is_empty() { None } else { Some(s.as_str()) },
        None => None,
    }
}

fn opt_string_copy(o: &Option<String>) -> (r: Option<String>)
    ensures
        opt_view(r) == opt_view(*o),
{
    match o {
        Some(s) => Some(s.clone()),
        None => None,
    }
}

/// The symbol record of one ctags record (`None` for records that are not tags).
pub fn symbol_record_from_ctags(r: &CtagsRecord) -> (out: Result<Option<SymbolRecord>, KbError>)
    ensures
        out matches Ok(Some(s)) ==> symbol_from_ctags(r@) == Ok::<Option<SymbolRecordView>, KbErrorView>(Some(s@)),
        out matches Ok(Some(s)) ==> crate::policy::lint::valid_symbol_id(s@.symbol_id),
        out matches Ok(None) ==> symbol_from_ctags(r@) == Ok::<Option<SymbolRecordView>, KbErrorView>(None),
        out matches Err(e) ==> symbol_from_ctags(r@) == Err::<Option<SymbolRecordView>, KbErrorView>(e@),
{
    if !str_eq(r.ty.as_str(), "tag") {
        return Ok(None);
    }
    let name = match &r.name {
        Some(n) => n,
        None => return Err(KbError::backend_failed("ctags record missing name")),
    };
    let raw_path = match &r.path {
        Some(p) => p,
        None => return Err(KbError::backend_failed("ctags record missing path")),
    };
    let kind = match &r.kind {
        Some(k) => k,
        None => return Err(KbError::backend_failed("ctags record missing kind")),
    };
    let line = match r.line {
        Some(l) => l,
        None => return Err(KbError::backend_failed("ctags record missing line")),
    };
    let lang = match &r.language {
        Some(l) => lowercase(l.as_str()),
        None => lowercase("unknown"),
    };
    let repo_path = RepoPath::parse(raw_path.as_str())?;
    let path = copy_str(repo_path.as_str());
    let qualified_name = match opt_non_empty(&r.scope) {
        Some(scope) => concat3(scope, "::", name.as_str()),
        None => name.clone(),
    };
    let disambiguator = match opt_non_empty(&r.pattern) {
        Some(pattern) => concat2("pat_sha256=", sha256_hex(pattern.as_bytes()).as_str()),
        None => match opt_non_empty(&r.signature) {
            Some(signature) => concat2("sig_sha256=", sha256_hex(signature.as_bytes()).as_str()),
            None => concat2("line=", decimal_string(line).as_str()),
        },
    };
    let key = canonical_symbol_key(
        lang.as_str(),
        path.as_str(),
        kind.as_str(),
        qualified_name.as_str(),
        disambiguator.as_str(),
    );
    let hex = sha256_hex(key.as_str().as_bytes());
    let symbol_id = concat2("sym:v1:", hex.as_str());
    proof {
        reveal_strlit("sym:v1:");
        assert(symbol_id@.take(7) =~= "sym:v1:"@);
        assert forall|i: int| 7 <= i < 71 implies crate::policy::lint::is_lower_hex(#[trigger] symbol_id@[i]) by {
            assert(symbol_id@[i] == hex@[i - 7]);
        }
    }
    let rec = SymbolRecord {
        symbol_id,
        lang,
        path,
        kind: kind.clone(),
        name: name.clone(),
        qualified_name,
        line,
        end_line: r.end,
        signature: opt_string_copy(&r.signature),
        scope: opt_string_copy(&r.scope),
    };
    Ok(Some(rec))
}

/// What a run of ctags records gives, in order: the first error, or the
/// symbol records of the tags.
pub open spec fn symbols_from_ctags(rs: Seq<CtagsRecordView>) -> Result<Seq<SymbolRecordView>, KbErrorView>
    decreases rs.len(),
{
    if rs.len() == 0 {
        Ok(Seq::empty())
    } else {
        match symbols_from_ctags(rs.drop_last()) {
            Err(e) => Err(e),
            Ok(done) => match symbol_from_ctags(rs.last()) {
                Err(e) => Err(e),
                Ok(None) => Ok(done),
                Ok(Some(s)) => Ok(done.push(s)),
            },
        }
    }
}

/// `out` is, sorted by id with the first record of each id kept, a sequence of
/// records whose views are `inp`.
pub open spec fn sorted_unique_symbols(out: Seq<SymbolRecord>, inp: Seq<SymbolRecordView>) -> bool {
    exists|u: Seq<SymbolRecord>| symbol_views(u) == inp && #[trigger] sorted_unique(out, u)
}

pub open spec fn ctags_views(rs: Seq<CtagsRecord>) -> Seq<CtagsRecordView> {
    rs.map_values(|r: CtagsRecord| r@)
}

/// The contents of `kb/gen/symbols.jsonl` for a ctags run: the symbol records
/// of its tags, sorted by id, the first record of each id kept.
pub fn symbol_records(records: &Vec<CtagsRecord>) -> (r: Result<Vec<SymbolRecord>, KbError>)
    ensures
        r matches Ok(v) ==> symbols_from_ctags(ctags_views(records@)) matches Ok(all) && sorted_unique_symbols(v@, all),
        r matches Ok(v) ==> forall|i: int| 0 <= i < v@.len() ==> crate::policy::lint::valid_symbol_id(#[trigger] v@[i]@.symbol_id),
        r matches Err(e) ==> symbols_from_ctags(ctags_views(records@)) == Err::<Seq<SymbolRecordView>, KbErrorView>(e@),
{
    let ghost rv = ctags_views(records@);
    let mut out: Vec<SymbolRecord> = Vec::new();
    let mut i: usize = 0;
    assert(rv.take(0) =~= Seq::<CtagsRecordView>::empty());
    assert(symbol_views(out@) =~= Seq::<SymbolRecordView>::empty());
    while i < records.len()
        invariant
            i <= records@.len(),
            rv == ctags_views(records@),
            symbols_from_ctags(rv.take(i as int)) == Ok::<Seq<SymbolRecordView>, KbErrorView>(symbol_views(out@)),
            forall|k: int| 0 <= k < out@.len() ==> crate::policy::lint::valid_symbol_id(#[trigger] out@[k]@.symbol_id),
        decreases records@.len() - i,
    {
        assert(rv.take(i + 1).drop_last() =~= rv.take(i as int));
        assert(rv.take(i + 1).last() == records@[i as int]@);
        let one = symbol_record_from_ctags(&records[i]);
        match one {
            Err(e) => {
                proof {
                    lemma_first_error_stays(rv, i as int + 1, e@);
                }
                return Err(e);
            },
            Ok(None) => {},
            Ok(Some(s)) => {
                let ghost prev = symbol_views(out@);
                out.push(s);
                assert(symbol_views(out@) =~= prev.push(s@));
            },
        }
        i += 1;
    }
    assert(rv.take(records@.len() as int) =~= rv);
    let ghost unsorted = out@;
    let sorted = sort_unique_by_key(out);
    assert(sorted_unique(sorted@, unsorted));
    proof {
        reveal(crate::order::drawn_from_firsts);
        assert forall|i: int| 0 <= i < sorted@.len() implies crate::policy::lint::valid_symbol_id(#[trigger] sorted@[i]@.symbol_id) by {
            assert(sorted@[i] == sorted@[i]);
            let j = choose|j: int| #![trigger unsorted[j]] crate::order::first_of_key(unsorted, 0, j) && sorted@[i] == unsorted[j];
        }
    }
    Ok(sorted)
}

proof fn lemma_first_error_stays(rs: Seq<CtagsRecordView>, n: int, e: KbErrorView)
    requires
        0 <= n <= rs.len(),
        symbols_from_ctags(rs.take(n)) == Err::<Seq<SymbolRecordView>, KbErrorView>(e),
    ensures
        symbols_from_ctags(rs) == Err::<Seq<SymbolRecordView>, KbErrorView>(e),
    decreases rs.len() - n,
{
    if n < rs.len() {
        assert(rs.take(n + 1).drop_last() =~= rs.take(n));
        lemma_first_error_stays(rs, n + 1, e);
    } else {
        assert(rs.take(n) =~= rs);
    }
}

} // verus!

verus! {

/// Building the symbol records is deterministic: two outcomes that meet
/// `symbol_records`' contract for the same ctags run have the same records.
pub proof fn law_symbol_records_deterministic(records: Seq<CtagsRecordView>, o1: Seq<SymbolRecord>, o2: Seq<SymbolRecord>)
    requires
        symbols_from_ctags(records) matches Ok(all) && sorted_unique_symbols(o1, all) && sorted_unique_symbols(o2, all),
    ensures
        symbol_views(o1) == symbol_views(o2),
{
    let all = symbols_from_ctags(records)->Ok_0;
    let u1 = choose|u: Seq<SymbolRecord>| symbol_views(u) == all && #[trigger] sorted_unique(o1, u);
    let u2 = choose|u: Seq<SymbolRecord>| symbol_views(u) == all && #[trigger] sorted_unique(o2, u);
    assert(crate::order::sorted_unique_views(o1, all)) by {
        assert(u1.map_values(|x: SymbolRecord| x@) == all);
    }
    assert(crate::order::sorted_unique_views(o2, all)) by {
        assert(u2.map_values(|x: SymbolRecord| x@) == all);
    }
    assert forall|x: SymbolRecord, y: SymbolRecord| x@ == y@ implies #[trigger] x.key() == #[trigger] y.key() by {}
    crate::order::lemma_sorted_unique_views_determined(o1, o2, all);
    assert(symbol_views(o1) == crate::order::view_seq(o1));
    assert(symbol_views(o2) == crate::order::view_seq(o2));
}

} // verus!
