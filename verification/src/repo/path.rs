//! Repo-relative paths: the only form in which the tool names a file.
use vstd::prelude::*;

use crate::error::{invalid, invalid_with, KbError, KbErrorView};
use crate::text::{
    alpha_char, contains_char, is_ascii_alpha, join, join_chars, replace_char,
    replace_char_chars, split_char, split_chars, string_of, sub_chars, trim, trim_str, Chars,
};

verus! {

pub open spec fn dot() -> Chars {
    seq!['.']
}

pub open spec fn dot_dot() -> Chars {
    seq!['.', '.']
}

/// The segments that a path keeps: every piece but the empty ones and `.`.
pub open spec fn keep_segments(parts: Seq<Chars>) -> Seq<Chars>
    decreases parts.len(),
{
    if parts.len() == 0 {
        Seq::empty()
    } else {
        let rest = keep_segments(parts.drop_last());
        let p = parts.last();
        if p.len() == 0 || p == dot() {
            rest
        } else {
            rest.push(p)
        }
    }
}

/// The pieces of a path once `\` is read as `/`.
pub open spec fn raw_segments(t: Chars) -> Seq<Chars> {
    split_char(replace_char(t, '\\', '/'), '/')
}

/// `C:\`, `C:/` or `\\` at the start of a path.
pub open spec fn looks_like_windows_abs(s: Chars) -> bool {
    s.len() >= 3 && ((is_ascii_alpha(s[0]) && s[1] == ':' && (s[2] == '\\' || s[2] == '/')) || (
    s[0] == '\\' && s[1] == '\\'))
}

/// NUL, LF or CR.
pub open spec fn has_control(t: Chars) -> bool {
    t.contains('\0') || t.contains('\n') || t.contains('\r')
}

/// What `RepoPath::parse` makes of its input.
pub open spec fn parse_repo_path(input: Chars) -> Result<Chars, KbErrorView> {
    let t = trim(input);
    if t.len() == 0 {
        Err(invalid("path must not be empty"@))
    } else if t == dot() {
        Ok(Seq::empty())
    } else if t[0] == '/' || looks_like_windows_abs(t) {
        Err(invalid_with("absolute paths are not allowed"@, "path"@, t))
    } else if has_control(t) {
        Err(invalid_with("path contains invalid characters"@, "path"@, t))
    } else if raw_segments(t).contains(dot_dot()) {
        Err(invalid_with("path must not contain '..'"@, "path"@, t))
    } else {
        Ok(join(keep_segments(raw_segments(t)), seq!['/']))
    }
}

pub fn windows_abs_chars(s: &[char]) -> (b: bool)
    ensures
        b == looks_like_windows_abs(s@),
{
    if s.len() < 3 {
        return false;
    }
    (alpha_char(s[0]) && s[1] == ':' && (s[2] == '\\' || s[2] == '/')) || (s[0] == '\\' && s[1]
        == '\\')
}

pub fn has_control_chars(t: &[char]) -> (b: bool)
    ensures
        b == has_control(t@),
{
    contains_char(t, '\0') || contains_char(t, '\n') || contains_char(t, '\r')
}

pub fn is_dot(p: &[char]) -> (b: bool)
    ensures
        b == (p@ == dot()),
{
    if p.len() == 1 && p[0] == '.' {
        assert(p@ =~= dot());
        true
    } else {
        false
    }
}

pub fn is_dot_dot(p: &[char]) -> (b: bool)
    ensures
        b == (p@ == dot_dot()),
{
    if p.len() == 2 && p[0] == '.' && p[1] == '.' {
        assert(p@ =~= dot_dot());
        true
    } else {
        false
    }
}

pub open spec fn views_of(v: Seq<Vec<char>>) -> Seq<Chars> {
    v.map_values(|p: Vec<char>| p@)
}

/// The kept segments of a path (with `\` read as `/`), or `None` when a
/// segment is `..`.
pub fn normalized_segments(t: &[char]) -> (r: Option<Vec<Vec<char>>>)
    ensures
        r is None <==> raw_segments(t@).contains(dot_dot()),
        r matches Some(segs) ==> views_of(segs@) == keep_segments(raw_segments(t@)),
{
    let norm = replace_char_chars(t, '\\', '/');
    let parts = split_chars(norm.as_slice(), '/');
    let ghost pv = views_of(parts@);
    assert(pv == raw_segments(t@));
    let mut out: Vec<Vec<char>> = Vec::new();
    let mut i: usize = 0;
    while i < parts.len()
        invariant
            i <= parts@.len(),
            pv == views_of(parts@),
            pv == raw_segments(t@),
            views_of(out@) == keep_segments(pv.take(i as int)),
            !pv.take(i as int).contains(dot_dot()),
        decreases parts@.len() - i,
    {
        assert(pv.take(i + 1).drop_last() =~= pv.take(i as int));
        assert(pv.take(i + 1).last() == pv[i as int]);
        let p = &parts[i];
        if is_dot_dot(p.as_slice()) {
            assert(pv[i as int] == dot_dot());
            assert(pv.contains(dot_dot()));
            return None;
        }
        proof {
            let t1 = pv.take(i + 1);
            let t0 = pv.take(i as int);
            assert forall|x: Chars| t1.contains(x) implies x != dot_dot() by {
                let k = choose|k: int| 0 <= k < t1.len() && t1[k] == x;
                if k < i {
                    assert(t0[k] == x);
                    assert(t0.contains(x));
                }
            }
        }
        if p.len() == 0 || is_dot(p.as_slice()) {
        } else {
            let copy = sub_chars(p.as_slice(), 0, p.len());
            assert(copy@ =~= p@);
            out.push(copy);
            assert(views_of(out@) =~= keep_segments(pv.take(i as int)).push(pv[i as int]));
        }
        i += 1;
    }
    assert(pv.take(parts@.len() as int) =~= pv);
    Some(out)
}

#[derive(Clone, Debug, PartialEq, Eq, PartialOrd, Ord)]
pub struct RepoPath(String);

impl View for RepoPath {
    type V = Chars;

    closed spec fn view(&self) -> Chars {
        self.0@
    }
}

impl RepoPath {
    /// Normalizes a user-supplied path: trims it, reads `\` as `/`, drops empty
    /// and `.` segments, and refuses absolute paths, control characters and `..`.
    pub fn parse(input: &str) -> (r: Result<RepoPath, KbError>)
        ensures
            r matches Ok(p) ==> parse_repo_path(input@) == Ok::<Chars, KbErrorView>(p@),
            r matches Err(e) ==> parse_repo_path(input@) == Err::<Chars, KbErrorView>(e@),
    {
        let t = trim_str(input);
        if t.len() == 0 {
            return Err(KbError::invalid_argument("path must not be empty"));
        }
        if is_dot(t.as_slice()) {
            return Ok(RepoPath(String::new()));
        }
        let shown = string_of(t.as_slice());
        if t[0] == '/' || windows_abs_chars(t.as_slice()) {
            return Err(
                KbError::invalid_with_detail("absolute paths are not allowed", "path", shown.as_str()),
            );
        }
        if has_control_chars(t.as_slice()) {
            return Err(
                KbError::invalid_with_detail(
                    "path contains invalid characters",
                    "path",
                    shown.as_str(),
                ),
            );
        }
        match normalized_segments(t.as_slice()) {
            None => Err(
                KbError::invalid_with_detail("path must not contain '..'", "path", shown.as_str()),
            ),
            Some(segs) => {
                let joined = join_chars(&segs, &['/']);
                assert(['/']@ =~= seq!['/']);
                Ok(RepoPath(string_of(joined.as_slice())))
            },
        }
    }

    pub fn as_str(&self) -> (s: &str)
        ensures
            s@ == self@,
    {
        self.0.as_str()
    }

    /// The repository root itself (the empty path).
    pub fn is_root(&self) -> (b: bool)
        ensures
            b == (self@.len() == 0),
    {
        self.0.as_str().is_empty()
    }
}

} // verus!

verus! {

pub proof fn lemma_keep_segments_props(parts: Seq<Chars>)
    ensures
        forall|i: int|
            0 <= i < keep_segments(parts).len() ==> (#[trigger] keep_segments(parts)[i]).len() > 0 && keep_segments(parts)[i] != dot()
                && parts.contains(keep_segments(parts)[i]),
    decreases parts.len(),
{
    if parts.len() > 0 {
        let init = parts.drop_last();
        lemma_keep_segments_props(init);
        let k = keep_segments(parts);
        assert forall|i: int| 0 <= i < k.len() implies (#[trigger] k[i]).len() > 0 && k[i] != dot() && parts.contains(k[i]) by {
            let ki = keep_segments(init);
            if i < ki.len() {
                assert(k[i] == ki[i]);
                let j = choose|j: int| 0 <= j < init.len() && init[j] == ki[i];
                assert(parts[j] == init[j]);
            } else {
                assert(k[i] == parts.last());
                assert(parts[parts.len() - 1] == parts.last());
            }
        }
    }
}

pub proof fn lemma_keep_segments_identity(parts: Seq<Chars>)
    requires
        forall|i: int| 0 <= i < parts.len() ==> (#[trigger] parts[i]).len() > 0 && parts[i] != dot(),
    ensures
        keep_segments(parts) == parts,
    decreases parts.len(),
{
    if parts.len() > 0 {
        let init = parts.drop_last();
        assert forall|i: int| 0 <= i < init.len() implies (#[trigger] init[i]).len() > 0 && init[i] != dot() by {
            assert(init[i] == parts[i]);
        }
        lemma_keep_segments_identity(init);
        assert(parts.last() == parts[parts.len() - 1]);
        assert(init.push(parts.last()) =~= parts);
    }
}

/// A path that parsing gives is a fixed point of parsing, unless it starts
/// or ends with white space or reads as a drive path (as `./ a` and
/// `./C:/x` give ` a` and `C:/x`).
pub proof fn law_parse_fixed_point(input: Chars, o: Chars)
    requires
        parse_repo_path(input) == Ok::<Chars, KbErrorView>(o),
        o.len() > 0,
        trim(o) == o,
        !looks_like_windows_abs(o),
    ensures
        parse_repo_path(o) == Ok::<Chars, KbErrorView>(o),
{
    let t = trim(input);
    let rt = replace_char(t, '\\', '/');
    let r = raw_segments(t);
    let k = keep_segments(r);
    assert(t != dot());
    assert(o == join(k, seq!['/']));
    lemma_keep_segments_props(r);
    crate::text::lemma_split_pieces(rt, '/');
    assert(k.len() >= 1);
    assert forall|i: int| 0 <= i < k.len() implies !(#[trigger] k[i]).contains('/') && !k[i].contains('\\') by {
        let j = choose|j: int| 0 <= j < r.len() && r[j] == k[i];
        if k[i].contains('/') {
            assert(r[j].contains('/'));
        }
        if k[i].contains('\\') {
            assert(r[j].contains('\\'));
            assert(rt.contains('\\'));
            let m = choose|m: int| 0 <= m < rt.len() && rt[m] == '\\';
            assert(rt[m] == (if t[m] == '\\' { '/' } else { t[m] }));
        }
    }
    // Every character of the parsed path is `/` or a character of the input.
    assert forall|c: char| #[trigger] o.contains(c) && c != '/' implies t.contains(c) by {
        crate::text::lemma_join_chars(k, '/', c);
        let i = choose|i: int| 0 <= i < k.len() && (#[trigger] k[i]).contains(c);
        let j = choose|j: int| 0 <= j < r.len() && r[j] == k[i];
        assert(r[j].contains(c));
        assert(rt.contains(c));
        let m = choose|m: int| 0 <= m < rt.len() && rt[m] == c;
        assert(rt[m] == (if t[m] == '\\' { '/' } else { t[m] }));
        assert(t[m] == c);
    }
    assert(!o.contains('\\')) by {
        if o.contains('\\') {
            crate::text::lemma_join_chars(k, '/', '\\');
            let i = choose|i: int| 0 <= i < k.len() && (#[trigger] k[i]).contains('\\');
        }
    }
    assert(!has_control(o)) by {
        if o.contains('\0') {
            assert(t.contains('\0'));
        }
        if o.contains('\n') {
            assert(t.contains('\n'));
        }
        if o.contains('\r') {
            assert(t.contains('\r'));
        }
    }
    assert(o != dot()) by {
        if o == dot() {
            if k.len() >= 2 {
                crate::text::lemma_join_has_sep(k, '/');
                assert(o.contains('/'));
                let m = choose|m: int| 0 <= m < o.len() && o[m] == '/';
                assert(o[0] == '.');
            }
            assert(k.len() == 1);
            assert(o == k[0]);
        }
    }
    crate::text::lemma_join_first(k, '/');
    assert(o[0] != '/') by {
        assert(k[0].contains(k[0][0]));
    }
    assert(replace_char(o, '\\', '/') =~= o) by {
        assert forall|m: int| 0 <= m < o.len() implies o[m] != '\\' by {
            assert(o.contains(o[m]));
        }
    }
    crate::text::lemma_split_join(k, '/');
    assert(raw_segments(o) == k);
    assert(!k.contains(dot_dot())) by {
        if k.contains(dot_dot()) {
            let i = choose|i: int| 0 <= i < k.len() && k[i] == dot_dot();
            assert(r.contains(k[i]));
        }
    }
    lemma_keep_segments_identity(k);
}

} // verus!
