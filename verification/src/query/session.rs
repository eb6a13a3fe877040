//! Session capsules (`kb/sessions/YYYY/MM/<id>.json`): what a session
//! records, and the rules a capsule must follow.
use vstd::prelude::*;

use crate::config::tags::{tags_check, tags_load_view, validate_tags_at, TagsConfig};
use crate::error::{invalid, invalid_with, invalid_with2, lemma_keys_ordered, ErrorCode, KbError, KbErrorView};
use crate::order::{sort_dedup, sorted_set, strictly_sorted, views};
use crate::text::{
    alnum_char, alpha_char, chars_of, copy_str, is_ascii_alnum, is_ascii_alpha, lines, lines_of, starts_with,
    string_of, trim_start, Chars,
};

verus! {

/// The most refs a capsule may hold.
pub const SESSION_REFS_MAX: usize = 100;

/// A kind of verification a session ran.
#[derive(Clone, Copy, Debug, PartialEq, Eq, Structural)]
pub enum VerificationKind {
    Tests,
    Bench,
    Repro,
    Lint,
}

/// The name a capsule records for a verification kind.
pub open spec fn verification_text(v: VerificationKind) -> Chars {
    match v {
        VerificationKind::Tests => "tests"@,
        VerificationKind::Bench => "bench"@,
        VerificationKind::Repro => "repro"@,
        VerificationKind::Lint => "lint"@,
    }
}

impl VerificationKind {
    pub fn as_str(self) -> (s: &'static str)
        ensures
            s@ == verification_text(self),
    {
        match self {
            VerificationKind::Tests => "tests",
            VerificationKind::Bench => "bench",
            VerificationKind::Repro => "repro",
            VerificationKind::Lint => "lint",
        }
    }
}

/// A session capsule.
#[derive(Clone, Debug)]
pub struct SessionCapsule {
    pub session_id: String,
    pub tags: Vec<String>,
    pub summary: String,
    pub decisions: Vec<String>,
    pub pitfalls: Vec<String>,
    pub verification: Vec<String>,
    pub refs: Vec<String>,
}

pub struct SessionCapsuleView {
    pub session_id: Chars,
    pub tags: Seq<Chars>,
    pub summary: Chars,
    pub decisions: Seq<Chars>,
    pub pitfalls: Seq<Chars>,
    pub verification: Seq<Chars>,
    pub refs: Seq<Chars>,
}

impl View for SessionCapsule {
    type V = SessionCapsuleView;

    open spec fn view(&self) -> SessionCapsuleView {
        SessionCapsuleView {
            session_id: self.session_id@,
            tags: views(self.tags@),
            summary: self.summary@,
            decisions: views(self.decisions@),
            pitfalls: views(self.pitfalls@),
            verification: views(self.verification@),
            refs: views(self.refs@),
        }
    }
}

/// The template used when a repository has none: every field empty.
pub fn built_in_session_template() -> (c: SessionCapsule)
    ensures
        c@.session_id.len() == 0,
        c@.tags.len() == 0,
        c@.summary.len() == 0,
        c@.decisions.len() == 0,
        c@.pitfalls.len() == 0,
        c@.verification.len() == 0,
        c@.refs.len() == 0,
{
    SessionCapsule {
        session_id: String::new(),
        tags: Vec::new(),
        summary: String::new(),
        decisions: Vec::new(),
        pitfalls: Vec::new(),
        verification: Vec::new(),
        refs: Vec::new(),
    }
}

// ---------------------------------------------------------------------------
// Checks
// ---------------------------------------------------------------------------

/// A character allowed after the first in a session id.
pub open spec fn session_tail_char(c: char) -> bool {
    is_ascii_alnum(c) || c == '_' || c == '.' || c == '-'
}

/// Checking a session id: not empty; an ASCII letter or digit first, then
/// ASCII letters, digits, `_`, `.` or `-`.
pub open spec fn session_id_check(id: Chars) -> Result<(), KbErrorView> {
    if id.len() == 0 {
        Err(invalid("session id must not be empty"@))
    } else if !is_ascii_alnum(id[0]) || exists|i: int| 1 <= i < id.len() && !session_tail_char(#[trigger] id[i]) {
        Err(invalid_with("invalid session id"@, "id"@, id))
    } else {
        Ok(())
    }
}

pub open spec fn check_view(r: Result<(), KbError>) -> Result<(), KbErrorView> {
    match r {
        Ok(()) => Ok(()),
        Err(e) => Err(e@),
    }
}

/// Checks a session id (see `session_id_check`).
pub fn validate_session_id(session_id: &str) -> (r: Result<(), KbError>)
    ensures
        check_view(r) == session_id_check(session_id@),
{
    let v = chars_of(session_id);
    if v.len() == 0 {
        return Err(KbError::invalid_argument("session id must not be empty"));
    }
    if !alnum_char(v[0]) {
        return Err(KbError::invalid_with_detail("invalid session id", "id", session_id));
    }
    let mut i: usize = 1;
    while i < v.len()
        invariant
            1 <= i <= v@.len(),
            v@ == session_id@,
            forall|k: int| 1 <= k < i ==> session_tail_char(#[trigger] v@[k]),
        decreases v@.len() - i,
    {
        let c = v[i];
        if !(alnum_char(c) || c == '_' || c == '.' || c == '-') {
            assert(!session_tail_char(v@[i as int]));
            return Err(KbError::invalid_with_detail("invalid session id", "id", session_id));
        }
        i += 1;
    }
    Ok(())
}

/// Checking that a list is sorted with no repeats (what sorting and
/// removing repeats would leave unchanged).
pub open spec fn sorted_unique_check(field: Chars, values: Seq<Chars>) -> Result<(), KbErrorView> {
    if strictly_sorted(values) {
        Ok(())
    } else {
        Err(invalid_with("field must be stable-sorted unique"@, "field"@, field))
    }
}

/// Checks that a list is sorted with no repeats.
pub fn validate_sorted_unique(field: &str, values: &Vec<String>) -> (r: Result<(), KbError>)
    ensures
        check_view(r) == sorted_unique_check(field@, views(values@)),
{
    let ghost vv = views(values@);
    let mut i: usize = 1;
    if values.len() == 0 {
        return Ok(());
    }
    while i < values.len()
        invariant
            1 <= i <= values@.len(),
            vv == views(values@),
            strictly_sorted(vv.take(i as int)),
        decreases values@.len() - i,
    {
        let a = chars_of(values[i - 1].as_str());
        let b = chars_of(values[i].as_str());
        if crate::order::compare_chars(a.as_slice(), b.as_slice()) >= 0 {
            proof {
                assert(!crate::order::chars_lt(vv[i - 1], vv[i as int]));
                assert(!strictly_sorted(vv));
            }
            return Err(KbError::invalid_with_detail("field must be stable-sorted unique", "field", field));
        }
        proof {
            let t = vv.take(i + 1);
            assert forall|x: int, y: int| 0 <= x < y < t.len() implies crate::order::chars_lt(#[trigger] t[x], #[trigger] t[y]) by {
                if y < i {
                    assert(vv.take(i as int)[x] == t[x]);
                    assert(vv.take(i as int)[y] == t[y]);
                } else if x < i - 1 {
                    assert(vv.take(i as int)[x] == t[x]);
                    assert(vv.take(i as int)[i - 1] == vv[i - 1]);
                    crate::order::lemma_chars_lt_trans(t[x], vv[i - 1], t[y]);
                }
            }
        }
        i += 1;
    }
    assert(vv.take(values@.len() as int) =~= vv);
    Ok(())
}

/// The verification kinds a capsule may name.
pub open spec fn known_kind(v: Chars) -> bool {
    v == "tests"@ || v == "bench"@ || v == "repro"@ || v == "lint"@
}

/// The first entry that names no verification kind.
pub open spec fn first_unknown_kind(vs: Seq<Chars>) -> Option<Chars>
    decreases vs.len(),
{
    if vs.len() == 0 {
        None
    } else if !known_kind(vs[0]) {
        Some(vs[0])
    } else {
        first_unknown_kind(vs.drop_first())
    }
}

fn is_known_kind(v: &str) -> (b: bool)
    ensures
        b == known_kind(v@),
{
    crate::text::str_eq(v, "tests") || crate::text::str_eq(v, "bench") || crate::text::str_eq(v, "repro")
        || crate::text::str_eq(v, "lint")
}

fn find_unknown_kind(vs: &Vec<String>) -> (r: Option<usize>)
    ensures
        match r {
            Some(i) => i < vs@.len() && first_unknown_kind(views(vs@)) == Some(vs@[i as int]@),
            None => first_unknown_kind(views(vs@)) is None,
        },
{
    let ghost vv = views(vs@);
    let mut i: usize = 0;
    assert(vv.skip(0) =~= vv);
    while i < vs.len()
        invariant
            i <= vs@.len(),
            vv == views(vs@),
            first_unknown_kind(vv) == first_unknown_kind(vv.skip(i as int)),
        decreases vs@.len() - i,
    {
        assert(vv.skip(i as int)[0] == vs@[i as int]@);
        assert(vv.skip(i as int).drop_first() =~= vv.skip(i + 1));
        if !is_known_kind(vs[i].as_str()) {
            return Some(i);
        }
        i += 1;
    }
    assert(vv.skip(vs@.len() as int) =~= Seq::<Chars>::empty());
    None
}

/// `C:\` or `C:/` at the start of a value.
pub open spec fn windows_absolute(v: Chars) -> bool {
    v.len() >= 3 && is_ascii_alpha(v[0]) && v[1] == ':' && (v[2] == '\\' || v[2] == '/')
}

/// A value that, leading white space dropped, starts like an absolute path:
/// `/`, a drive letter, or `\\`.
pub open spec fn looks_absolute(value: Chars) -> bool {
    let t = trim_start(value);
    starts_with(t, seq!['/']) || windows_absolute(t) || starts_with(t, seq!['\\', '\\'])
}

/// Whether a value starts like a Windows absolute path (`C:\` or `C:/`).
pub fn looks_like_windows_abs_path(value: &[char]) -> (b: bool)
    ensures
        b == windows_absolute(value@),
{
    value.len() >= 3 && alpha_char(value[0]) && value[1] == ':' && (value[2] == '\\' || value[2] == '/')
}

/// Checking one value of a capsule field for an absolute path.
pub open spec fn absolute_check(value: Chars, field: Chars) -> Result<(), KbErrorView> {
    if looks_absolute(value) {
        Err(invalid_with2("absolute paths are not allowed in session capsules"@, "field"@, field, "value"@, value))
    } else {
        Ok(())
    }
}

/// Rejects a value that looks like an absolute path.
pub fn reject_if_absolute_path(value: &str, field: &str) -> (r: Result<(), KbError>)
    ensures
        check_view(r) == absolute_check(value@, field@),
{
    let v = chars_of(value);
    let t = crate::text::trim_start_chars(v.as_slice());
    let slash = t.len() > 0 && t[0] == '/';
    let unc = t.len() >= 2 && t[0] == '\\' && t[1] == '\\';
    proof {
        if t@.len() > 0 {
            assert(t@.subrange(0, 1) =~= seq![t@[0]]);
        }
        if t@.len() >= 2 {
            assert(t@.subrange(0, 2) =~= seq![t@[0], t@[1]]);
        }
        if starts_with(t@, seq!['/']) {
            assert(t@.subrange(0, 1)[0] == '/');
        }
        if starts_with(t@, seq!['\\', '\\']) {
            assert(t@.subrange(0, 2)[0] == '\\');
            assert(t@.subrange(0, 2)[1] == '\\');
        }
    }
    assert(slash == starts_with(t@, seq!['/']));
    assert(unc == starts_with(t@, seq!['\\', '\\']));
    if slash || looks_like_windows_abs_path(t.as_slice()) || unc {
        proof {
            reveal_strlit("field");
            reveal_strlit("value");
            lemma_keys_ordered("field"@, field@, "value"@, value@);
        }
        return Err(
            KbError::invalid_with_two("absolute paths are not allowed in session capsules", "field", field, "value", value),
        );
    }
    Ok(())
}

/// The first value of a field that looks absolute, as an error.
pub open spec fn first_absolute(values: Seq<Chars>, field: Chars) -> Result<(), KbErrorView>
    decreases values.len(),
{
    if values.len() == 0 {
        Ok(())
    } else if absolute_check(values[0], field) is Err {
        absolute_check(values[0], field)
    } else {
        first_absolute(values.drop_first(), field)
    }
}

fn reject_absolute_in(values: &Vec<Vec<char>>, field: &str) -> (r: Result<(), KbError>)
    ensures
        check_view(r) == first_absolute(values@.map_values(|v: Vec<char>| v@), field@),
{
    let ghost vv = values@.map_values(|v: Vec<char>| v@);
    let mut i: usize = 0;
    assert(vv.skip(0) =~= vv);
    while i < values.len()
        invariant
            i <= values@.len(),
            vv == values@.map_values(|v: Vec<char>| v@),
            first_absolute(vv, field@) == first_absolute(vv.skip(i as int), field@),
        decreases values@.len() - i,
    {
        assert(vv.skip(i as int)[0] == values@[i as int]@);
        assert(vv.skip(i as int).drop_first() =~= vv.skip(i + 1));
        let s = string_of(values[i].as_slice());
        reject_if_absolute_path(s.as_str(), field)?;
        i += 1;
    }
    assert(vv.skip(values@.len() as int) =~= Seq::<Chars>::empty());
    Ok(())
}

fn chars_list(values: &Vec<String>) -> (r: Vec<Vec<char>>)
    ensures
        r@.map_values(|v: Vec<char>| v@) == views(values@),
{
    let mut out: Vec<Vec<char>> = Vec::new();
    let mut i: usize = 0;
    while i < values.len()
        invariant
            i <= values@.len(),
            out@.map_values(|v: Vec<char>| v@) == views(values@).take(i as int),
        decreases values@.len() - i,
    {
        let ghost prev = out@.map_values(|v: Vec<char>| v@);
        out.push(chars_of(values[i].as_str()));
        assert(out@.map_values(|v: Vec<char>| v@) =~= prev.push(values@[i as int]@));
        assert(views(values@).take(i + 1) =~= views(values@).take(i as int).push(values@[i as int]@));
        i += 1;
    }
    assert(views(values@).take(values@.len() as int) =~= views(values@));
    out
}

/// Checking a capsule's fields for absolute paths, field by field: tags,
/// the lines of the summary, decisions, pitfalls, verification, refs.
pub open spec fn no_absolute_check(c: SessionCapsuleView) -> Result<(), KbErrorView> {
    if first_absolute(c.tags, "tags"@) is Err {
        first_absolute(c.tags, "tags"@)
    } else if first_absolute(lines(c.summary), "summary"@) is Err {
        first_absolute(lines(c.summary), "summary"@)
    } else if first_absolute(c.decisions, "decisions"@) is Err {
        first_absolute(c.decisions, "decisions"@)
    } else if first_absolute(c.pitfalls, "pitfalls"@) is Err {
        first_absolute(c.pitfalls, "pitfalls"@)
    } else if first_absolute(c.verification, "verification"@) is Err {
        first_absolute(c.verification, "verification"@)
    } else {
        first_absolute(c.refs, "refs"@)
    }
}

/// Checks a capsule for absolute paths (see `no_absolute_check`).
pub fn validate_no_absolute_paths(capsule: &SessionCapsule) -> (r: Result<(), KbError>)
    ensures
        check_view(r) == no_absolute_check(capsule@),
{
    reject_absolute_in(&chars_list(&capsule.tags), "tags")?;
    let summary = chars_of(capsule.summary.as_str());
    reject_absolute_in(&lines_of(summary.as_slice()), "summary")?;
    reject_absolute_in(&chars_list(&capsule.decisions), "decisions")?;
    reject_absolute_in(&chars_list(&capsule.pitfalls), "pitfalls")?;
    reject_absolute_in(&chars_list(&capsule.verification), "verification")?;
    reject_absolute_in(&chars_list(&capsule.refs), "refs")?;
    Ok(())
}

/// Checking a capsule, in order: the id it should have (when given); its
/// id; tags, verification and refs each sorted without repeats; every
/// verification entry a known kind; at most 100 refs; no absolute paths.
pub open spec fn capsule_check(c: SessionCapsuleView, expected: Option<Chars>) -> Result<(), KbErrorView> {
    if expected matches Some(x) && c.session_id != x {
        Err(invalid_with2("session_id does not match requested id"@, "expected"@, expected.unwrap(), "found"@, c.session_id))
    } else if session_id_check(c.session_id) is Err {
        session_id_check(c.session_id)
    } else if sorted_unique_check("tags"@, c.tags) is Err {
        sorted_unique_check("tags"@, c.tags)
    } else if sorted_unique_check("verification"@, c.verification) is Err {
        sorted_unique_check("verification"@, c.verification)
    } else if sorted_unique_check("refs"@, c.refs) is Err {
        sorted_unique_check("refs"@, c.refs)
    } else if first_unknown_kind(c.verification) matches Some(v) {
        Err(invalid_with("unknown verification kind"@, "verification"@, first_unknown_kind(c.verification).unwrap()))
    } else if c.refs.len() > 100 {
        Err(invalid_with("too many refs"@, "max_refs"@, "100"@))
    } else {
        no_absolute_check(c)
    }
}

/// The error of a capsule whose id is not the one asked for.
fn mismatch_error(expected: &str, found: &str) -> (e: KbError)
    ensures
        e@ == invalid_with2("session_id does not match requested id"@, "expected"@, expected@, "found"@, found@),
{
    proof {
        reveal_strlit("expected");
        reveal_strlit("found");
        lemma_keys_ordered("expected"@, expected@, "found"@, found@);
    }
    KbError::invalid_with_two("session_id does not match requested id", "expected", expected, "found", found)
}

/// Checks a capsule (see `capsule_check`).
pub fn validate_capsule(capsule: &SessionCapsule, expected_id: Option<&str>) -> (r: Result<(), KbError>)
    ensures
        check_view(r) == capsule_check(
            capsule@,
            match expected_id {
                Some(x) => Some(x@),
                None => None,
            },
        ),
{
    match expected_id {
        Some(x) => {
            if !crate::text::str_eq(capsule.session_id.as_str(), x) {
                return Err(mismatch_error(x, capsule.session_id.as_str()));
            }
        },
        None => {},
    }
    validate_session_id(capsule.session_id.as_str())?;
    validate_sorted_unique("tags", &capsule.tags)?;
    validate_sorted_unique("verification", &capsule.verification)?;
    validate_sorted_unique("refs", &capsule.refs)?;
    match find_unknown_kind(&capsule.verification) {
        Some(i) => {
            return Err(
                KbError::invalid_with_detail("unknown verification kind", "verification", capsule.verification[i].as_str()),
            );
        },
        None => {},
    }
    if capsule.refs.len() > SESSION_REFS_MAX {
        return Err(KbError::invalid_with_detail("too many refs", "max_refs", "100"));
    }
    validate_no_absolute_paths(capsule)
}

} // verus!

verus! {

// ---------------------------------------------------------------------------
// Where a new capsule goes
// ---------------------------------------------------------------------------

/// `k` zeros.
pub open spec fn zeros(k: nat) -> Chars {
    Seq::new(k, |i: int| '0')
}

/// Digits left-padded with zeros to at least `w` characters.
pub open spec fn min_width(d: Chars, w: nat) -> Chars {
    if d.len() >= w {
        d
    } else {
        zeros((w - d.len()) as nat) + d
    }
}

/// A year written at least four wide (`{:04}`): the sign counts in the width.
pub open spec fn year_text(y: int) -> Chars {
    if y >= 0 {
        min_width(crate::text::decimal(y as nat), 4)
    } else {
        seq!['-'] + min_width(crate::text::decimal((-y) as nat), 3)
    }
}

/// Where the capsule of a session started in the given year and month goes.
pub open spec fn session_path(id: Chars, year: int, month: nat) -> Chars {
    "kb/sessions/"@ + year_text(year) + "/"@ + min_width(crate::text::decimal(month), 2) + "/"@ + id + ".json"@
}

fn pad_zeros(d: String, w: usize) -> (r: String)
    ensures
        r@ == min_width(d@, w as nat),
{
    let v = chars_of(d.as_str());
    if v.len() >= w {
        return d;
    }
    let mut out: Vec<char> = Vec::new();
    let k = w - v.len();
    let mut i: usize = 0;
    while i < k
        invariant
            i <= k,
            out@ == zeros(i as nat),
        decreases k - i,
    {
        out.push('0');
        assert(out@ =~= zeros((i + 1) as nat));
        i += 1;
    }
    crate::text::append_chars(&mut out, v.as_slice());
    string_of(out.as_slice())
}

/// The capsule path of a session started in the given year and month.
pub fn session_rel_path(session_id: &str, year: i32, month: u32) -> (s: String)
    ensures
        s@ == session_path(session_id@, year as int, month as nat),
{
    let y = if year >= 0 {
        let d = crate::text::decimal_string(year as u64);
        assert(d@ == crate::text::decimal(year as nat));
        pad_zeros(d, 4)
    } else {
        let magnitude: u64 = (0 - (year as i64)) as u64;
        assert(magnitude as int == -(year as int));
        let d = crate::text::decimal_string(magnitude);
        let p = pad_zeros(d, 3);
        let mut t = copy_str("-");
        crate::text::append_str(&mut t, p.as_str());
        proof {
            reveal_strlit("-");
        }
        assert(t@ =~= seq!['-'] + p@);
        t
    };
    assert(y@ == year_text(year as int));
    let mm = pad_zeros(crate::text::decimal_string(month as u64), 2);
    let mut s = copy_str("kb/sessions/");
    crate::text::append_str(&mut s, y.as_str());
    crate::text::append_str(&mut s, "/");
    crate::text::append_str(&mut s, mm.as_str());
    crate::text::append_str(&mut s, "/");
    crate::text::append_str(&mut s, session_id);
    crate::text::append_str(&mut s, ".json");
    assert(s@ =~= "kb/sessions/"@ + y@ + "/"@ + mm@ + "/"@ + session_id@ + ".json"@);
    s
}

/// `chrono::Local::now()`, read through `Datelike::year` and
/// `Datelike::month`: the current year and month in the local time zone. The
/// result depends on the clock and the time zone; chrono documents the month
/// as ranging from 1 to 12.
#[verifier::external_body]
fn local_year_month() -> (r: (i32, u32))
    ensures
        1 <= r.1 <= 12,
{
    let now = chrono::Local::now();
    (chrono::Datelike::year(&now), chrono::Datelike::month(&now))
}

/// Where a new capsule goes: under the current local year and month.
pub fn session_init_rel_path(session_id: &str) -> (s: String)
    ensures
        exists|y: i32, m: u32| 1 <= m <= 12 && #[trigger] session_path(session_id@, y as int, m as nat) == s@,
{
    let (y, m) = local_year_month();
    let s = session_rel_path(session_id, y, m);
    assert(session_path(session_id@, y as int, m as nat) == s@);
    s
}

// ---------------------------------------------------------------------------
// Templates and reads
// ---------------------------------------------------------------------------

/// The text of a session template file; an error for bytes that are not UTF-8.
pub fn template_text(bytes: &[u8]) -> (r: Result<String, KbError>)
    ensures
        match r {
            Ok(t) => vstd::utf8::valid_utf8(bytes@) && t@ == vstd::utf8::decode_utf8(bytes@),
            Err(e) => !vstd::utf8::valid_utf8(bytes@) && e@ == invalid_with(
                "session template is not valid utf-8"@,
                "cause"@,
                crate::text::utf8_error_text(bytes@),
            ),
        },
{
    match crate::text::decode_utf8_bytes(bytes) {
        Ok(t) => Ok(copy_str(t)),
        Err(cause) => Err(KbError::invalid_with_detail("session template is not valid utf-8", "cause", cause.as_str())),
    }
}

/// A parsed session template, its parse error reported as such.
pub fn parsed_template(parsed: Result<SessionCapsule, String>) -> (r: Result<SessionCapsule, KbError>)
    ensures
        match parsed {
            Ok(c) => r matches Ok(c2) && c2 == c,
            Err(cause) => r matches Err(e) && e@ == invalid_with("failed to parse session template"@, "cause"@, cause@),
        },
{
    match parsed {
        Ok(c) => Ok(c),
        Err(cause) => Err(KbError::invalid_with_detail("failed to parse session template", "cause", cause.as_str())),
    }
}

/// A capsule read: the parsed capsule, a parse error, or the read's error.
pub open spec fn capsule_read(r: Result<Result<SessionCapsule, String>, String>) -> Result<SessionCapsuleView, KbErrorView> {
    match r {
        Err(cause) => Err(crate::error::error_with(ErrorCode::NotFound, "session capsule not found"@, "cause"@, cause@)),
        Ok(Err(cause)) => Err(invalid_with("failed to parse session capsule"@, "cause"@, cause@)),
        Ok(Ok(c)) => Ok(c@),
    }
}

fn read_capsule(r: Result<Result<SessionCapsule, String>, String>) -> (out: Result<SessionCapsule, KbError>)
    ensures
        match out {
            Ok(c) => capsule_read(r) == Ok::<SessionCapsuleView, KbErrorView>(c@),
            Err(e) => capsule_read(r) == Err::<SessionCapsuleView, KbErrorView>(e@),
        },
{
    match r {
        Err(cause) => Err(KbError::coded_with(ErrorCode::NotFound, "session capsule not found", "cause", cause.as_str())),
        Ok(Err(cause)) => Err(KbError::invalid_with_detail("failed to parse session capsule", "cause", cause.as_str())),
        Ok(Ok(c)) => Ok(c),
    }
}

// ---------------------------------------------------------------------------
// Commands
// ---------------------------------------------------------------------------

/// The capsule a new session starts with.
pub open spec fn init_capsule(id: Chars, tags: Seq<Chars>, template: SessionCapsuleView) -> SessionCapsuleView {
    SessionCapsuleView {
        session_id: id,
        tags: sorted_set(tags),
        summary: template.summary,
        decisions: template.decisions,
        pitfalls: template.pitfalls,
        verification: Seq::empty(),
        refs: Seq::empty(),
    }
}

/// Starts a session: checks the id and the tags against the registry, then
/// builds the capsule from the template (the read of
/// `kb/templates/session.json`, or the built-in one) and checks it; gives
/// the capsule and the path it goes to.
pub fn session_init_at(
    session_id: &str,
    tags: &Vec<String>,
    tags_loaded: Result<Option<TagsConfig>, KbError>,
    template: Result<SessionCapsule, KbError>,
) -> (r: Result<(String, SessionCapsule), KbError>)
    ensures
        match session_id_check(session_id@) {
            Err(e) => r matches Err(e2) && e2@ == e,
            Ok(_) => match tags_check(tags_load_view(tags_loaded), views(tags@)) {
                Err(e) => r matches Err(e2) && e2@ == e,
                Ok(_) => match template {
                    Err(e) => r matches Err(e2) && e2@ == e@,
                    Ok(t) => match capsule_check(init_capsule(session_id@, views(tags@), t@), Some(session_id@)) {
                        Err(e) => r matches Err(e2) && e2@ == e,
                        Ok(_) => r matches Ok((p, c)) && c@ == init_capsule(session_id@, views(tags@), t@) && exists|
                            y: i32,
                            m: u32,
                        | 1 <= m <= 12 && #[trigger] session_path(session_id@, y as int, m as nat) == p@,
                    },
                },
            },
        },
{
    validate_session_id(session_id)?;
    validate_tags_at(tags_loaded, tags)?;
    let sorted_tags = sort_dedup(crate::text::copy_strings(tags));
    proof {
        crate::order::lemma_sorted_set_of_is(views(sorted_tags@), views(tags@));
    }
    let t = template?;
    let capsule = SessionCapsule {
        session_id: copy_str(session_id),
        tags: sorted_tags,
        summary: t.summary,
        decisions: t.decisions,
        pitfalls: t.pitfalls,
        verification: Vec::new(),
        refs: Vec::new(),
    };
    assert(views(capsule.verification@) =~= Seq::<Chars>::empty());
    assert(views(capsule.refs@) =~= Seq::<Chars>::empty());
    assert(capsule@ == init_capsule(session_id@, views(tags@), t@));
    validate_capsule(&capsule, Some(session_id))?;
    let rel = session_init_rel_path(session_id);
    Ok((rel, capsule))
}

/// The error of a new capsule whose file already exists.
pub fn capsule_exists_error(rel_path: &str, cause: &str) -> (e: KbError)
    ensures
        e@ == invalid_with2("session capsule already exists"@, "cause"@, cause@, "path"@, rel_path@),
{
    proof {
        reveal_strlit("cause");
        reveal_strlit("path");
        lemma_keys_ordered("cause"@, cause@, "path"@, rel_path@);
    }
    KbError::invalid_with_two("session capsule already exists", "cause", cause, "path", rel_path)
}

/// Finding a session's capsule among the files named `<id>.json` under
/// `kb/sessions` (`candidates`, repository-relative): the id is checked
/// first; then the listing's error; none found, or more than one, is an
/// error; else the one found.
pub open spec fn locate_spec(id: Chars, candidates: Result<Seq<Chars>, KbErrorView>) -> Result<Chars, KbErrorView> {
    match session_id_check(id) {
        Err(e) => Err(e),
        Ok(_) => match candidates {
            Err(e) => Err(e),
            Ok(cs) => {
                let s = sorted_set(cs);
                if s.len() == 0 {
                    Err(crate::error::error_with(ErrorCode::NotFound, "session capsule not found"@, "id"@, id))
                } else if s.len() > 1 {
                    Err(invalid_with2("multiple session capsules found"@, "candidates"@, crate::json::json_string_list(s), "id"@, id))
                } else {
                    Ok(s[0])
                }
            },
        },
    }
}

/// Finds a session's capsule (see `locate_spec`).
pub fn locate_session_capsule(session_id: &str, candidates: Result<Vec<String>, KbError>) -> (r: Result<String, KbError>)
    ensures
        match r {
            Ok(p) => locate_spec(
                session_id@,
                match candidates {
                    Ok(cs) => Ok(views(cs@)),
                    Err(e) => Err(e@),
                },
            ) == Ok::<Chars, KbErrorView>(p@),
            Err(e) => locate_spec(
                session_id@,
                match candidates {
                    Ok(cs) => Ok(views(cs@)),
                    Err(e) => Err(e@),
                },
            ) == Err::<Chars, KbErrorView>(e@),
        },
{
    validate_session_id(session_id)?;
    let cs = candidates?;
    let s = sort_dedup(cs);
    proof {
        crate::order::lemma_sorted_set_of_is(views(s@), views(cs@));
    }
    if s.len() == 0 {
        return Err(KbError::coded_with(ErrorCode::NotFound, "session capsule not found", "id", session_id));
    }
    if s.len() > 1 {
        let listed = crate::json::json_array_text(&s);
        proof {
            reveal_strlit("candidates");
            reveal_strlit("id");
            lemma_keys_ordered("candidates"@, listed@, "id"@, session_id@);
        }
        return Err(KbError::invalid_with_two("multiple session capsules found", "candidates", listed.as_str(), "id", session_id));
    }
    Ok(s[0].clone())
}

/// A changed path that becomes a ref: not under `kb/gen/`, `kb/cache/`,
/// `kb/.tmp/` or `kb/sessions/`.
pub open spec fn ref_worthy(p: Chars) -> bool {
    !(starts_with(p, "kb/gen/"@) || starts_with(p, "kb/cache/"@) || starts_with(p, "kb/.tmp/"@) || starts_with(
        p,
        "kb/sessions/"@,
    ))
}

/// The changed paths that become refs, in order.
pub open spec fn ref_paths(ps: Seq<Chars>) -> Seq<Chars>
    decreases ps.len(),
{
    if ps.len() == 0 {
        Seq::empty()
    } else {
        ref_paths(ps.drop_last()) + if ref_worthy(ps.last()) { seq![ps.last()] } else { Seq::empty() }
    }
}

/// At most the first `n` elements.
pub open spec fn at_most<A>(s: Seq<A>, n: nat) -> Seq<A> {
    if s.len() > n { s.take(n as int) } else { s }
}

/// The capsule a session ends with: the verification kinds merged in, the
/// changed paths added to the refs (sorted, once each, the first 100 kept),
/// the tags sorted once each.
pub open spec fn finalized_capsule(c: SessionCapsuleView, kinds: Seq<VerificationKind>, changed: Seq<Chars>) -> SessionCapsuleView {
    SessionCapsuleView {
        tags: sorted_set(c.tags),
        verification: sorted_set(c.verification + kinds.map_values(|k: VerificationKind| verification_text(k))),
        refs: at_most(sorted_set(c.refs + ref_paths(changed)), 100),
        ..c
    }
}

/// Ending a session, from the read of its capsule: the read's error; a
/// capsule of another id; a bad id in it; the diff's error; then the tags
/// against the registry and the capsule's checks; else the finalized capsule.
pub open spec fn finalize_spec(
    id: Chars,
    read: Result<SessionCapsuleView, KbErrorView>,
    kinds: Seq<VerificationKind>,
    changes: Result<Seq<Chars>, KbErrorView>,
    tags: Result<Option<Seq<crate::config::tags::TagEntryView>>, KbErrorView>,
) -> Result<SessionCapsuleView, KbErrorView> {
    match read {
        Err(e) => Err(e),
        Ok(c) => if c.session_id != id {
            Err(invalid_with2("session_id does not match requested id"@, "expected"@, id, "found"@, c.session_id))
        } else if session_id_check(c.session_id) is Err {
            Err(session_id_check(c.session_id)->Err_0)
        } else {
            match changes {
                Err(e) => Err(e),
                Ok(ch) => {
                    let f = finalized_capsule(c, kinds, ch);
                    match tags_check(tags, f.tags) {
                        Err(e) => Err(e),
                        Ok(_) => match capsule_check(f, Some(id)) {
                            Err(e) => Err(e),
                            Ok(_) => Ok(f),
                        },
                    }
                },
            }
        },
    }
}

fn kind_names(kinds: &Vec<VerificationKind>) -> (r: Vec<String>)
    ensures
        views(r@) == kinds@.map_values(|k: VerificationKind| verification_text(k)),
{
    let mut out: Vec<String> = Vec::new();
    let mut i: usize = 0;
    while i < kinds.len()
        invariant
            i <= kinds@.len(),
            views(out@) == kinds@.map_values(|k: VerificationKind| verification_text(k)).take(i as int),
        decreases kinds@.len() - i,
    {
        let ghost prev = views(out@);
        out.push(copy_str(kinds[i].as_str()));
        assert(views(out@) =~= prev.push(verification_text(kinds@[i as int])));
        assert(kinds@.map_values(|k: VerificationKind| verification_text(k)).take(i + 1) =~= kinds@.map_values(
            |k: VerificationKind| verification_text(k),
        ).take(i as int).push(verification_text(kinds@[i as int])));
        i += 1;
    }
    assert(kinds@.map_values(|k: VerificationKind| verification_text(k)).take(kinds@.len() as int) =~= kinds@.map_values(
        |k: VerificationKind| verification_text(k),
    ));
    out
}

fn keep_ref_paths(changes: &Vec<crate::repo::diff::DiffPathChange>) -> (r: Vec<String>)
    ensures
        views(r@) == ref_paths(crate::query::plan::changed_views(changes@)),
{
    let ghost cv = crate::query::plan::changed_views(changes@);
    let mut out: Vec<String> = Vec::new();
    let mut i: usize = 0;
    assert(cv.take(0) =~= Seq::<Chars>::empty());
    assert(views(out@) =~= Seq::<Chars>::empty());
    while i < changes.len()
        invariant
            i <= changes@.len(),
            cv == crate::query::plan::changed_views(changes@),
            views(out@) == ref_paths(cv.take(i as int)),
        decreases changes@.len() - i,
    {
        assert(cv.take(i + 1).drop_last() =~= cv.take(i as int));
        assert(cv.take(i + 1).last() == changes@[i as int].path@);
        let p = chars_of(changes[i].path.as_str());
        let excluded = crate::text::starts_with_lit(p.as_slice(), "kb/gen/") || crate::text::starts_with_lit(p.as_slice(), "kb/cache/")
            || crate::text::starts_with_lit(p.as_slice(), "kb/.tmp/") || crate::text::starts_with_lit(p.as_slice(), "kb/sessions/");
        let ghost prev = views(out@);
        if !excluded {
            out.push(changes[i].path.clone());
            assert(views(out@) =~= prev + seq![changes@[i as int].path@]);
        } else {
            assert(views(out@) =~= prev + Seq::<Chars>::empty());
        }
        i += 1;
    }
    assert(cv.take(changes@.len() as int) =~= cv);
    out
}

/// Ends a session (see `finalize_spec`): `capsule` is the read of its file,
/// `changes` the diff's changed paths; gives the capsule to write back.
pub fn session_finalize_at(
    session_id: &str,
    capsule: Result<Result<SessionCapsule, String>, String>,
    verification: &Vec<VerificationKind>,
    changes: Result<Vec<crate::repo::diff::DiffPathChange>, KbError>,
    tags_loaded: Result<Option<TagsConfig>, KbError>,
) -> (r: Result<SessionCapsule, KbError>)
    ensures
        match r {
            Ok(c) => finalize_spec(
                session_id@,
                capsule_read(capsule),
                verification@,
                match changes {
                    Ok(ch) => Ok(crate::query::plan::changed_views(ch@)),
                    Err(e) => Err(e@),
                },
                tags_load_view(tags_loaded),
            ) == Ok::<SessionCapsuleView, KbErrorView>(c@),
            Err(e) => finalize_spec(
                session_id@,
                capsule_read(capsule),
                verification@,
                match changes {
                    Ok(ch) => Ok(crate::query::plan::changed_views(ch@)),
                    Err(e) => Err(e@),
                },
                tags_load_view(tags_loaded),
            ) == Err::<SessionCapsuleView, KbErrorView>(e@),
        },
{
    let c = read_capsule(capsule)?;
    if !crate::text::str_eq(c.session_id.as_str(), session_id) {
        return Err(mismatch_error(session_id, c.session_id.as_str()));
    }
    validate_session_id(c.session_id.as_str())?;
    let ch = changes?;
    let mut merged = crate::text::copy_strings(&c.verification);
    crate::text::extend_strings(&mut merged, &kind_names(verification));
    let verification_out = sort_dedup(merged);
    proof {
        crate::order::lemma_sorted_set_of_is(views(verification_out@), views(merged@));
    }
    let mut refs_all = crate::text::copy_strings(&c.refs);
    crate::text::extend_strings(&mut refs_all, &keep_ref_paths(&ch));
    let refs_sorted = sort_dedup(refs_all);
    proof {
        crate::order::lemma_sorted_set_of_is(views(refs_sorted@), views(refs_all@));
    }
    let mut refs_out = refs_sorted;
    if refs_out.len() > SESSION_REFS_MAX {
        refs_out.truncate(SESSION_REFS_MAX);
    }
    assert(views(refs_out@) == at_most(sorted_set(views(c.refs@) + ref_paths(crate::query::plan::changed_views(ch@))), 100));
    let tags_out = sort_dedup(crate::text::copy_strings(&c.tags));
    proof {
        crate::order::lemma_sorted_set_of_is(views(tags_out@), views(c.tags@));
    }
    let out = SessionCapsule {
        session_id: c.session_id,
        tags: tags_out,
        summary: c.summary,
        decisions: c.decisions,
        pitfalls: c.pitfalls,
        verification: verification_out,
        refs: refs_out,
    };
    assert(out@ == finalized_capsule(c@, verification@, crate::query::plan::changed_views(ch@)));
    validate_tags_at(tags_loaded, &out.tags)?;
    validate_capsule(&out, Some(session_id))?;
    Ok(out)
}

/// Checking a session, from the read of its capsule: the read's error, the
/// capsule's checks, then its tags against the registry.
pub open spec fn check_spec(
    id: Chars,
    read: Result<SessionCapsuleView, KbErrorView>,
    tags: Result<Option<Seq<crate::config::tags::TagEntryView>>, KbErrorView>,
) -> Result<(), KbErrorView> {
    match read {
        Err(e) => Err(e),
        Ok(c) => match capsule_check(c, Some(id)) {
            Err(e) => Err(e),
            Ok(_) => tags_check(tags, c.tags),
        },
    }
}

/// Checks a session's capsule (see `check_spec`).
pub fn session_check_at(
    session_id: &str,
    capsule: Result<Result<SessionCapsule, String>, String>,
    tags_loaded: Result<Option<TagsConfig>, KbError>,
) -> (r: Result<(), KbError>)
    ensures
        match r {
            Ok(()) => check_spec(session_id@, capsule_read(capsule), tags_load_view(tags_loaded)) is Ok,
            Err(e) => check_spec(session_id@, capsule_read(capsule), tags_load_view(tags_loaded)) == Err::<(), KbErrorView>(e@),
        },
{
    let c = read_capsule(capsule)?;
    validate_capsule(&c, Some(session_id))?;
    validate_tags_at(tags_loaded, &c.tags)
}

} // verus!

verus! {

/// A capsule that `session_finalize_at` writes passes `session_check_at`
/// against the same tag registry.
pub proof fn law_finalized_capsule_passes_check(
    id: Chars,
    read: Result<SessionCapsuleView, KbErrorView>,
    kinds: Seq<VerificationKind>,
    changes: Result<Seq<Chars>, KbErrorView>,
    tags: Result<Option<Seq<crate::config::tags::TagEntryView>>, KbErrorView>,
    written: SessionCapsuleView,
)
    requires
        finalize_spec(id, read, kinds, changes, tags) == Ok::<SessionCapsuleView, KbErrorView>(written),
    ensures
        check_spec(id, Ok(written), tags) is Ok,
{
}

/// Finalizing a session a second time, with the same verification kinds,
/// changed paths and tag registry, writes back the capsule the first
/// finalize wrote.
pub proof fn law_finalize_idempotent(
    id: Chars,
    read: Result<SessionCapsuleView, KbErrorView>,
    kinds: Seq<VerificationKind>,
    changes: Result<Seq<Chars>, KbErrorView>,
    tags: Result<Option<Seq<crate::config::tags::TagEntryView>>, KbErrorView>,
    written: SessionCapsuleView,
)
    requires
        finalize_spec(id, read, kinds, changes, tags) == Ok::<SessionCapsuleView, KbErrorView>(written),
    ensures
        finalize_spec(id, Ok(written), kinds, changes, tags) == Ok::<SessionCapsuleView, KbErrorView>(written),
{
    let c = read->Ok_0;
    let ch = changes->Ok_0;
    lemma_finalized_again(c, kinds, ch);
}

/// `finalized_capsule` changes nothing more the second time.
proof fn lemma_finalized_again(c: SessionCapsuleView, kinds: Seq<VerificationKind>, ch: Seq<Chars>)
    ensures
        finalized_capsule(finalized_capsule(c, kinds, ch), kinds, ch) == finalized_capsule(c, kinds, ch),
{
    let f = finalized_capsule(c, kinds, ch);
    let g = finalized_capsule(f, kinds, ch);
    // tags
    crate::order::lemma_sorted_set_exists(c.tags);
    crate::order::lemma_sorted_set_idempotent(f.tags);
    // verification
    let ks = kinds.map_values(|k: VerificationKind| verification_text(k));
    crate::order::lemma_sorted_set_exists(c.verification + ks);
    crate::order::lemma_sorted_set_exists(f.verification + ks);
    assert forall|x: Chars| #[trigger] (f.verification + ks).contains(x) <==> (c.verification + ks).contains(x) by {
        lemma_concat_contains(f.verification, ks, x);
        lemma_concat_contains(c.verification, ks, x);
    }
    crate::order::lemma_sorted_members(g.verification, |x: Chars| (c.verification + ks).contains(x));
    // refs
    let rs = ref_paths(ch);
    let u = sorted_set(c.refs + rs);
    let u2 = sorted_set(f.refs + rs);
    crate::order::lemma_sorted_set_exists(c.refs + rs);
    crate::order::lemma_sorted_set_exists(f.refs + rs);
    assert forall|x: Chars| #[trigger] rs.contains(x) implies u.contains(x) by {
        lemma_concat_contains(c.refs, rs, x);
    }
    if u.len() <= 100 {
        assert forall|x: Chars| #[trigger] u2.contains(x) <==> u.contains(x) by {
            lemma_concat_contains(f.refs, rs, x);
        }
        crate::order::lemma_sorted_members(u2, |x: Chars| u.contains(x));
        crate::order::lemma_sorted_members(u, |x: Chars| u.contains(x));
    } else {
        let a = u.take(100);
        assert(f.refs == a);
        assert(strictly_sorted(a));
        assert forall|x: Chars| #[trigger] a.contains(x) implies u2.contains(x) by {
            lemma_concat_contains(f.refs, rs, x);
        }
        assert forall|x: Chars, y: Chars| #[trigger] u2.contains(x) && !a.contains(x) && #[trigger] a.contains(y)
            implies crate::order::chars_lt(y, x) by {
            lemma_concat_contains(f.refs, rs, x);
            assert(rs.contains(x));
            assert(u.contains(x));
            let q = choose|q: int| 0 <= q < u.len() && u[q] == x;
            let p = choose|p: int| 0 <= p < a.len() && a[p] == y;
            if q < 100 {
                assert(a[q] == x);
            }
            assert(u[p] == y);
        }
        crate::order::lemma_sorted_prefix(u2, a);
        if u2.len() == 100 {
            assert(u2 =~= u2.take(100));
        }
    }
    assert(g =~= f);
}

proof fn lemma_concat_contains(a: Seq<Chars>, b: Seq<Chars>, x: Chars)
    ensures
        (a + b).contains(x) <==> a.contains(x) || b.contains(x),
{
    if a.contains(x) {
        let i = choose|i: int| 0 <= i < a.len() && a[i] == x;
        assert((a + b)[i] == x);
    }
    if b.contains(x) {
        let i = choose|i: int| 0 <= i < b.len() && b[i] == x;
        assert((a + b)[a.len() + i] == x);
    }
    if (a + b).contains(x) {
        let i = choose|i: int| 0 <= i < (a + b).len() && (a + b)[i] == x;
        if i < a.len() {
            assert(a[i] == x);
        } else {
            assert(b[i - a.len()] == x);
        }
    }
}

/// A capsule that `session_init_at` creates passes `session_check_at`
/// against the same tag registry.
pub proof fn law_new_capsule_passes_check(
    id: Chars,
    tags: Seq<Chars>,
    template: SessionCapsuleView,
    registry: Result<Option<Seq<crate::config::tags::TagEntryView>>, KbErrorView>,
)
    requires
        session_id_check(id) is Ok,
        tags_check(registry, tags) is Ok,
        capsule_check(init_capsule(id, tags, template), Some(id)) is Ok,
    ensures
        check_spec(id, Ok(init_capsule(id, tags, template)), registry) is Ok,
{
    let c = init_capsule(id, tags, template);
    assert forall|t: Chars| #[trigger] c.tags.contains(t) implies tags.contains(t) by {
        crate::order::lemma_sorted_set_exists(tags);
    }
    lemma_tags_check_subset(registry, tags, c.tags);
}

proof fn lemma_tags_check_subset(
    registry: Result<Option<Seq<crate::config::tags::TagEntryView>>, KbErrorView>,
    tags: Seq<Chars>,
    sub: Seq<Chars>,
)
    requires
        tags_check(registry, tags) is Ok,
        forall|t: Chars| #[trigger] sub.contains(t) ==> tags.contains(t),
    ensures
        tags_check(registry, sub) is Ok,
{
    match registry {
        Ok(Some(entries)) => {
            let ids = crate::config::tags::entry_ids(entries);
            lemma_first_unknown_none(ids, tags);
            lemma_first_unknown_none(ids, sub);
            assert forall|i: int| 0 <= i < sub.len() implies ids.contains(#[trigger] sub[i]) by {
                assert(sub.contains(sub[i]));
                let j = choose|j: int| 0 <= j < tags.len() && tags[j] == sub[i];
                assert(ids.contains(tags[j]));
            }
        },
        _ => {},
    }
}

/// No tag is unknown exactly when every tag is among the ids.
proof fn lemma_first_unknown_none(ids: Seq<Chars>, tags: Seq<Chars>)
    ensures
        crate::config::tags::first_unknown(ids, tags) is None <==> forall|i: int| 0 <= i < tags.len() ==> ids.contains(#[trigger] tags[i]),
    decreases tags.len(),
{
    if tags.len() > 0 {
        lemma_first_unknown_none(ids, tags.drop_first());
        assert forall|i: int| 1 <= i < tags.len() implies #[trigger] tags[i] == tags.drop_first()[i - 1] by {}
        if forall|i: int| 0 <= i < tags.drop_first().len() ==> ids.contains(#[trigger] tags.drop_first()[i]) {
            assert forall|i: int| 1 <= i < tags.len() implies ids.contains(#[trigger] tags[i]) by {
                assert(tags.drop_first()[i - 1] == tags[i]);
            }
        }
        if forall|i: int| 0 <= i < tags.len() ==> ids.contains(#[trigger] tags[i]) {
            assert forall|i: int| 0 <= i < tags.drop_first().len() implies ids.contains(#[trigger] tags.drop_first()[i]) by {
                assert(tags.drop_first()[i] == tags[i + 1]);
            }
        }
    }
}

} // verus!

verus! {

/// Finalizing a session twice is finalizing it once with both lists of
/// verification kinds and both lists of changed paths: the kinds merge into
/// one sorted set, the refs into the first 100 of one sorted set.
pub proof fn law_finalize_twice(
    c: SessionCapsuleView,
    kinds1: Seq<VerificationKind>,
    changed1: Seq<Chars>,
    kinds2: Seq<VerificationKind>,
    changed2: Seq<Chars>,
)
    ensures
        finalized_capsule(finalized_capsule(c, kinds1, changed1), kinds2, changed2) == finalized_capsule(
            c,
            kinds1 + kinds2,
            changed1 + changed2,
        ),
{
    let f = finalized_capsule(c, kinds1, changed1);
    let g = finalized_capsule(f, kinds2, changed2);
    let h = finalized_capsule(c, kinds1 + kinds2, changed1 + changed2);
    // tags
    crate::order::lemma_sorted_set_exists(c.tags);
    crate::order::lemma_sorted_set_idempotent(f.tags);
    // verification
    let t1 = kinds1.map_values(|k: VerificationKind| verification_text(k));
    let t2 = kinds2.map_values(|k: VerificationKind| verification_text(k));
    assert((kinds1 + kinds2).map_values(|k: VerificationKind| verification_text(k)) =~= t1 + t2);
    crate::order::lemma_sorted_set_exists(c.verification + t1);
    crate::order::lemma_sorted_set_exists(f.verification + t2);
    assert forall|x: Chars| #[trigger] (f.verification + t2).contains(x) <==> (c.verification + (t1 + t2)).contains(x) by {
        lemma_concat_contains(f.verification, t2, x);
        lemma_concat_contains(c.verification, t1, x);
        lemma_concat_contains(c.verification, t1 + t2, x);
        lemma_concat_contains(t1, t2, x);
    }
    crate::order::lemma_sorted_members(g.verification, |x: Chars| (c.verification + (t1 + t2)).contains(x));
    // refs
    lemma_ref_paths_concat(changed1, changed2);
    lemma_refs_twice(c.refs, ref_paths(changed1), ref_paths(changed2));
    assert(g =~= h);
}

proof fn lemma_ref_paths_concat(a: Seq<Chars>, b: Seq<Chars>)
    ensures
        ref_paths(a + b) == ref_paths(a) + ref_paths(b),
    decreases b.len(),
{
    if b.len() == 0 {
        assert(a + b =~= a);
        assert(ref_paths(a) + ref_paths(b) =~= ref_paths(a));
    } else {
        lemma_ref_paths_concat(a, b.drop_last());
        assert((a + b).drop_last() =~= a + b.drop_last());
        assert((a + b).last() == b.last());
        assert(ref_paths(a) + ref_paths(b) =~= ref_paths(a) + ref_paths(b.drop_last()) + if ref_worthy(b.last()) {
            seq![b.last()]
        } else {
            Seq::<Chars>::empty()
        });
    }
}

/// In strictly sorted `g` holding every string of strictly sorted `u`, the
/// q-th string of `u` stands at position q or later.
proof fn lemma_rank(u: Seq<Chars>, g: Seq<Chars>, q: int, i: int)
    requires
        strictly_sorted(u),
        strictly_sorted(g),
        forall|x: Chars| #[trigger] u.contains(x) ==> g.contains(x),
        0 <= q < u.len(),
        0 <= i < g.len(),
        g[i] == u[q],
    ensures
        q <= i,
    decreases q,
{
    if q > 0 {
        assert(u.contains(u[q - 1]));
        let i2 = choose|i2: int| 0 <= i2 < g.len() && g[i2] == u[q - 1];
        assert(crate::order::chars_lt(u[q - 1], u[q]));
        if i2 >= i {
            if i2 == i {
                crate::order::lemma_chars_lt_irrefl(u[q]);
            } else {
                assert(crate::order::chars_lt(g[i], g[i2]));
                crate::order::lemma_chars_lt_asym(u[q - 1], u[q]);
            }
        }
        lemma_rank(u, g, q - 1, i2);
    }
}

/// Truncating the refs to 100 between two merges changes nothing.
proof fn lemma_refs_twice(r: Seq<Chars>, r1: Seq<Chars>, r2: Seq<Chars>)
    ensures
        at_most(sorted_set(at_most(sorted_set(r + r1), 100) + r2), 100) == at_most(sorted_set(r + (r1 + r2)), 100),
{
    let u1 = sorted_set(r + r1);
    let a = at_most(u1, 100);
    let u2 = sorted_set(a + r2);
    let g = sorted_set(r + (r1 + r2));
    crate::order::lemma_sorted_set_exists(r + r1);
    crate::order::lemma_sorted_set_exists(a + r2);
    crate::order::lemma_sorted_set_exists(r + (r1 + r2));
    assert forall|x: Chars| #[trigger] g.contains(x) <==> u1.contains(x) || r2.contains(x) by {
        lemma_concat_contains(r, r1, x);
        lemma_concat_contains(r, r1 + r2, x);
        lemma_concat_contains(r1, r2, x);
    }
    assert forall|x: Chars| #[trigger] u2.contains(x) <==> a.contains(x) || r2.contains(x) by {
        lemma_concat_contains(a, r2, x);
    }
    if u1.len() <= 100 {
        assert(a == u1);
        assert forall|x: Chars| #[trigger] u2.contains(x) <==> (r + (r1 + r2)).contains(x) by {
            assert(u2.contains(x) <==> u1.contains(x) || r2.contains(x));
            assert(g.contains(x) <==> u1.contains(x) || r2.contains(x));
            assert(g.contains(x) <==> (r + (r1 + r2)).contains(x));
        }
        crate::order::lemma_sorted_members(u2, |x: Chars| (r + (r1 + r2)).contains(x));
    } else {
        assert(a == u1.take(100));
        assert forall|x: Chars| #[trigger] u1.contains(x) implies g.contains(x) by {}
        let last = u1.len() - 1;
        assert(g.contains(u1[last]));
        let il = choose|il: int| 0 <= il < g.len() && g[il] == u1[last];
        lemma_rank(u1, g, last, il);
        let p = g.take(100);
        assert(strictly_sorted(p));
        assert forall|x: Chars| #[trigger] p.contains(x) implies u2.contains(x) by {
            let i = choose|i: int| 0 <= i < p.len() && p[i] == x;
            assert(g[i] == x);
            assert(g.contains(x));
            if !r2.contains(x) {
                assert(u1.contains(x));
                let q = choose|q: int| 0 <= q < u1.len() && u1[q] == x;
                lemma_rank(u1, g, q, i);
                assert(a[q] == x);
            }
        }
        assert forall|x: Chars, y: Chars| #[trigger] u2.contains(x) && !p.contains(x) && #[trigger] p.contains(y)
            implies crate::order::chars_lt(y, x) by {
            if a.contains(x) {
                let q = choose|q: int| 0 <= q < a.len() && a[q] == x;
                assert(u1[q] == x);
            }
            assert(g.contains(x));
            let m = choose|m: int| 0 <= m < g.len() && g[m] == x;
            let k = choose|k: int| 0 <= k < p.len() && p[k] == y;
            if m < 100 {
                assert(p[m] == x);
            }
            assert(g[k] == y);
        }
        crate::order::lemma_sorted_prefix(u2, p);
        if u2.len() == 100 {
            assert(u2 =~= u2.take(100));
        }
    }
}

} // verus!

verus! {

/// A path is among the refs kept of `ps` exactly when `ps` holds it and it
/// is under none of `kb/gen/`, `kb/cache/`, `kb/.tmp/`, `kb/sessions/`.
proof fn lemma_ref_paths_members(ps: Seq<Chars>, x: Chars)
    ensures
        ref_paths(ps).contains(x) <==> ps.contains(x) && !starts_with(x, "kb/gen/"@) && !starts_with(x, "kb/cache/"@)
            && !starts_with(x, "kb/.tmp/"@) && !starts_with(x, "kb/sessions/"@),
    decreases ps.len(),
{
    if ps.len() > 0 {
        lemma_ref_paths_members(ps.drop_last(), x);
        let tail: Seq<Chars> = if ref_worthy(ps.last()) { seq![ps.last()] } else { Seq::empty() };
        crate::text::lemma_contains_concat(ref_paths(ps.drop_last()), tail, x);
        crate::text::lemma_contains_concat(ps.drop_last(), seq![ps.last()], x);
        assert(ps.drop_last() + seq![ps.last()] =~= ps);
        if tail.contains(x) {
            assert(tail[0] == ps.last());
        }
        if x == ps.last() {
            assert(seq![ps.last()][0] == x);
        }
    } else {
        assert(!ps.contains(x));
    }
}

/// Finalizing a session adds as refs only changed paths outside the
/// generated, cached, temporary and session directories: each ref of the
/// finalized capsule that the capsule did not already have is a changed
/// path under none of `kb/gen/`, `kb/cache/`, `kb/.tmp/`, `kb/sessions/`.
/// And while the refs stay under their cap of 100, every such changed path
/// is among them, as is every ref the capsule had.
pub proof fn law_finalize_refs(
    id: Chars,
    read: Result<SessionCapsuleView, KbErrorView>,
    kinds: Seq<VerificationKind>,
    changes: Result<Seq<Chars>, KbErrorView>,
    tags: Result<Option<Seq<crate::config::tags::TagEntryView>>, KbErrorView>,
    f: SessionCapsuleView,
)
    requires
        finalize_spec(id, read, kinds, changes, tags) == Ok::<SessionCapsuleView, KbErrorView>(f),
    ensures
        read is Ok,
        changes is Ok,
        forall|x: Chars|
            #[trigger] f.refs.contains(x) && !(read->Ok_0).refs.contains(x) ==> (changes->Ok_0).contains(x) && !starts_with(
                x,
                "kb/gen/"@,
            ) && !starts_with(x, "kb/cache/"@) && !starts_with(x, "kb/.tmp/"@) && !starts_with(x, "kb/sessions/"@),
        f.refs.len() < 100 ==> forall|x: Chars|
            (#[trigger] (changes->Ok_0).contains(x) && !starts_with(x, "kb/gen/"@) && !starts_with(x, "kb/cache/"@)
                && !starts_with(x, "kb/.tmp/"@) && !starts_with(x, "kb/sessions/"@)) || (read->Ok_0).refs.contains(x)
                ==> f.refs.contains(x),
{
    let c = read->Ok_0;
    let ch = changes->Ok_0;
    assert(f == finalized_capsule(c, kinds, ch));
    let all = c.refs + ref_paths(ch);
    let s = sorted_set(all);
    crate::order::lemma_sorted_set_exists(all);
    assert(f.refs == at_most(s, 100));
    assert forall|x: Chars| #[trigger] f.refs.contains(x) && !c.refs.contains(x) implies ch.contains(x) && !starts_with(
        x,
        "kb/gen/"@,
    ) && !starts_with(x, "kb/cache/"@) && !starts_with(x, "kb/.tmp/"@) && !starts_with(x, "kb/sessions/"@) by {
        let k = choose|k: int| 0 <= k < f.refs.len() && f.refs[k] == x;
        assert(s[k] == x);
        assert(s.contains(x));
        crate::text::lemma_contains_concat(c.refs, ref_paths(ch), x);
        lemma_ref_paths_members(ch, x);
    }
    if f.refs.len() < 100 {
        assert(f.refs == s);
        assert forall|x: Chars|
            (#[trigger] ch.contains(x) && !starts_with(x, "kb/gen/"@) && !starts_with(x, "kb/cache/"@)
                && !starts_with(x, "kb/.tmp/"@) && !starts_with(x, "kb/sessions/"@)) || c.refs.contains(x) implies f.refs.contains(x) by {
            lemma_ref_paths_members(ch, x);
            crate::text::lemma_contains_concat(c.refs, ref_paths(ch), x);
        }
    }
}

/// Finalizing a session merges the verification kinds: the finalized
/// capsule's verification list is sorted, holds each entry once, and holds
/// exactly the entries the capsule had and the names of the given kinds.
/// Its session id, summary, decisions and pitfalls are the capsule's, and
/// its tags are the capsule's, sorted, once each.
pub proof fn law_finalize_merges_verification(
    id: Chars,
    read: Result<SessionCapsuleView, KbErrorView>,
    kinds: Seq<VerificationKind>,
    changes: Result<Seq<Chars>, KbErrorView>,
    tags: Result<Option<Seq<crate::config::tags::TagEntryView>>, KbErrorView>,
    f: SessionCapsuleView,
)
    requires
        finalize_spec(id, read, kinds, changes, tags) == Ok::<SessionCapsuleView, KbErrorView>(f),
    ensures
        read is Ok,
        strictly_sorted(f.verification),
        forall|v: Chars|
            #[trigger] f.verification.contains(v) <==> (read->Ok_0).verification.contains(v) || exists|i: int|
                0 <= i < kinds.len() && v == verification_text(#[trigger] kinds[i]),
        f.session_id == (read->Ok_0).session_id,
        f.session_id == id,
        f.summary == (read->Ok_0).summary,
        f.decisions == (read->Ok_0).decisions,
        f.pitfalls == (read->Ok_0).pitfalls,
        strictly_sorted(f.tags),
        forall|t: Chars| #[trigger] f.tags.contains(t) <==> (read->Ok_0).tags.contains(t),
{
    let c = read->Ok_0;
    let ch = changes->Ok_0;
    assert(f == finalized_capsule(c, kinds, ch));
    let names = kinds.map_values(|k: VerificationKind| verification_text(k));
    crate::order::lemma_sorted_set_exists(c.verification + names);
    crate::order::lemma_sorted_set_exists(c.tags);
    assert forall|v: Chars|
        #[trigger] f.verification.contains(v) <==> c.verification.contains(v) || exists|i: int|
            0 <= i < kinds.len() && v == verification_text(#[trigger] kinds[i]) by {
        crate::text::lemma_contains_concat(c.verification, names, v);
        if names.contains(v) {
            let j = choose|j: int| 0 <= j < names.len() && names[j] == v;
            assert(v == verification_text(kinds[j]));
        }
        if exists|i: int| 0 <= i < kinds.len() && v == verification_text(#[trigger] kinds[i]) {
            let i = choose|i: int| 0 <= i < kinds.len() && v == verification_text(#[trigger] kinds[i]);
            assert(names[i] == v);
        }
    }
}

} // verus!
