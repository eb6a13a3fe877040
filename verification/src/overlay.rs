//! Writing the human-authored overlays: tags, module cards, obligations and facts.
//! Each writer validates and normalizes its input and returns the file text.
use vstd::prelude::*;

use crate::config::obligations::{rule_views, ObligationRule, ObligationRuleView, ObligationsConfig};
use crate::config::tags::{tag_entry_views, tags_load_view, TagEntry, TagEntryView, TagsConfig};
use crate::error::{invalid, invalid_with, KbError, KbErrorView};
use crate::facts::{checked_lines, parse_view, parse_views, RecordCheck};
use crate::json::{
    fact_id_key, field_lookup, object_fields, remove_field, set_field, str_items, string_array,
    JsonField, JsonValue,
};
use crate::order::{sorted_unique, SortKey};
use crate::index::artifacts::opt_view;
use crate::order::{reversed, sort_dedup, sorted_members, sorted_set, sorted_set_of, sorted_unique_views, views};
use crate::repo::path::{parse_repo_path, RepoPath};
use crate::text::{
    alnum_char, chars_of, concat2, contains_char, copy_str, digit_char, ends_with, is_ascii_alnum,
    is_ascii_digit, is_ascii_lower, lower_char, push_char, string_of, trim, trim_chars,
    trim_end_char, trim_end_char_chars, trim_str, Chars,
};

verus! {

// ---------------------------------------------------------------------------
// Validation of ids and values
// ---------------------------------------------------------------------------

/// A NUL, line feed or carriage return.
pub open spec fn has_line_break(t: Chars) -> bool {
    t.contains('\0') || t.contains('\n') || t.contains('\r')
}

fn line_break_chars(t: &[char]) -> (b: bool)
    ensures
        b == has_line_break(t@),
{
    contains_char(t, '\0') || contains_char(t, '\n') || contains_char(t, '\r')
}

/// A character allowed after the first of an id.
pub open spec fn id_tail_char(c: char, allow_colon: bool) -> bool {
    is_ascii_alnum(c) || c == '_' || c == '.' || c == '-' || (allow_colon && c == ':')
}

/// Some character after the first is not allowed in an id.
pub open spec fn bad_id_tail(t: Chars, allow_colon: bool) -> bool {
    exists|i: int| 1 <= i < t.len() && !id_tail_char(#[trigger] t[i], allow_colon)
}

/// Checking an id: trimmed, it is not empty, has no line break, starts with an
/// ASCII letter or digit and goes on with those, `_`, `.`, `-` (and `:` where
/// allowed). Errors name the field.
pub open spec fn ascii_id_check(field: Chars, value: Chars, allow_colon: bool) -> Result<(), KbErrorView> {
    let t = trim(value);
    if t.len() == 0 {
        Err(invalid_with("id must not be empty"@, field, value))
    } else if has_line_break(t) {
        Err(invalid_with("id contains invalid characters"@, field, value))
    } else if !is_ascii_alnum(t[0]) || bad_id_tail(t, allow_colon) {
        Err(invalid_with("invalid id"@, field, t))
    } else {
        Ok(())
    }
}

/// The result of a check as a spec value.
pub open spec fn check_view(r: Result<(), KbError>) -> Result<(), KbErrorView> {
    match r {
        Ok(()) => Ok(()),
        Err(e) => Err(e@),
    }
}

/// Checks an id (see `ascii_id_check`).
pub fn validate_ascii_id(field: &str, value: &str, allow_colon: bool) -> (r: Result<(), KbError>)
    ensures
        check_view(r) == ascii_id_check(field@, value@, allow_colon),
{
    let t = trim_str(value);
    if t.len() == 0 {
        return Err(KbError::invalid_with_detail("id must not be empty", field, value));
    }
    if line_break_chars(t.as_slice()) {
        return Err(KbError::invalid_with_detail("id contains invalid characters", field, value));
    }
    let shown = string_of(t.as_slice());
    if !alnum_char(t[0]) {
        return Err(KbError::invalid_with_detail("invalid id", field, shown.as_str()));
    }
    let mut i: usize = 1;
    while i < t.len()
        invariant
            1 <= i <= t@.len(),
            t@ == trim(value@),
            shown@ == t@,
            !has_line_break(t@),
            is_ascii_alnum(t@[0]),
            forall|k: int| 1 <= k < i ==> id_tail_char(#[trigger] t@[k], allow_colon),
        decreases t@.len() - i,
    {
        let c = t[i];
        if !(alnum_char(c) || c == '_' || c == '.' || c == '-' || (allow_colon && c == ':')) {
            assert(!id_tail_char(t@[i as int], allow_colon));
            return Err(KbError::invalid_with_detail("invalid id", field, shown.as_str()));
        }
        i += 1;
    }
    Ok(())
}

pub fn validate_tag_id(tag_id: &str) -> (r: Result<(), KbError>)
    ensures
        check_view(r) == ascii_id_check("tag_id"@, tag_id@, false),
{
    validate_ascii_id("tag_id", tag_id, false)
}

pub fn validate_module_id(module_id: &str) -> (r: Result<(), KbError>)
    ensures
        check_view(r) == ascii_id_check("module_id"@, module_id@, false),
{
    validate_ascii_id("module_id", module_id, false)
}

pub fn validate_rule_id(rule_id: &str) -> (r: Result<(), KbError>)
    ensures
        check_view(r) == ascii_id_check("rule_id"@, rule_id@, false),
{
    validate_ascii_id("rule_id", rule_id, false)
}

pub fn validate_fact_id(fact_id: &str) -> (r: Result<(), KbError>)
    ensures
        check_view(r) == ascii_id_check("fact_id"@, fact_id@, true),
{
    validate_ascii_id("fact_id", fact_id, true)
}

/// A character allowed in a fact type.
pub open spec fn fact_type_char(c: char) -> bool {
    is_ascii_lower(c) || is_ascii_digit(c) || c == '_'
}

/// Checking a fact type: trimmed, not empty and made of `[a-z0-9_]`.
pub open spec fn fact_type_check(fact_type: Chars) -> Result<(), KbErrorView> {
    let t = trim(fact_type);
    if t.len() == 0 {
        Err(invalid("fact type must not be empty"@))
    } else if exists|i: int| 0 <= i < t.len() && !fact_type_char(#[trigger] t[i]) {
        Err(invalid_with("invalid fact type"@, "type"@, t))
    } else {
        Ok(())
    }
}

pub fn validate_fact_type(fact_type: &str) -> (r: Result<(), KbError>)
    ensures
        check_view(r) == fact_type_check(fact_type@),
{
    let t = trim_str(fact_type);
    if t.len() == 0 {
        return Err(KbError::invalid_argument("fact type must not be empty"));
    }
    let mut i: usize = 0;
    while i < t.len()
        invariant
            i <= t@.len(),
            t@.len() > 0,
            t@ == trim(fact_type@),
            forall|k: int| 0 <= k < i ==> fact_type_char(#[trigger] t@[k]),
        decreases t@.len() - i,
    {
        let c = t[i];
        if !(lower_char(c) || digit_char(c) || c == '_') {
            assert(!fact_type_char(t@[i as int]));
            let shown = string_of(t.as_slice());
            return Err(KbError::invalid_with_detail("invalid fact type", "type", shown.as_str()));
        }
        i += 1;
    }
    Ok(())
}

/// Checking a one-line value: trimmed, not empty and without line breaks.
pub open spec fn single_line_check(field: Chars, value: Chars) -> Result<(), KbErrorView> {
    let t = trim(value);
    if t.len() == 0 {
        Err(invalid_with("value must not be empty"@, "field"@, field))
    } else if has_line_break(t) {
        Err(invalid_with("value contains invalid characters"@, "field"@, field))
    } else {
        Ok(())
    }
}

pub fn validate_single_line_string(field: &str, value: &str) -> (r: Result<(), KbError>)
    ensures
        check_view(r) == single_line_check(field@, value@),
{
    let t = trim_str(value);
    if t.len() == 0 {
        return Err(KbError::invalid_with_detail("value must not be empty", "field", field));
    }
    if line_break_chars(t.as_slice()) {
        return Err(KbError::invalid_with_detail("value contains invalid characters", "field", field));
    }
    Ok(())
}

// ---------------------------------------------------------------------------
// Normalizing lists
// ---------------------------------------------------------------------------

/// Some value of `values`, trimmed, is `x`.
pub open spec fn trims_to(values: Seq<Chars>, x: Chars) -> bool {
    exists|i: int| 0 <= i < values.len() && trim(#[trigger] values[i]) == x
}

proof fn lemma_trims_step(prev: Seq<Chars>, kept: Seq<Chars>, vv: Seq<Chars>, i: int, t: Chars, x: Chars)
    requires
        0 <= i < vv.len(),
        t == trim(vv[i]),
        forall|y: Chars| #[trigger] prev.contains(y) <==> (y.len() > 0 && trims_to(vv.take(i), y)),
        kept == (if t.len() > 0 { prev.push(t) } else { prev }),
    ensures
        kept.contains(x) <==> (x.len() > 0 && trims_to(vv.take(i + 1), x)),
{
    let before = vv.take(i);
    let after = vv.take(i + 1);
    assert(after[i] == vv[i]);
    if t.len() > 0 {
        crate::text::lemma_contains_concat(prev, seq![t], x);
        assert(kept =~= prev + seq![t]);
    }
    if trims_to(after, x) {
        let k = choose|k: int| 0 <= k < after.len() && trim(#[trigger] after[k]) == x;
        if k < i {
            assert(before[k] == after[k]);
            assert(trims_to(before, x));
        } else {
            assert(x == t);
        }
    }
    if trims_to(before, x) {
        let k = choose|k: int| 0 <= k < before.len() && trim(#[trigger] before[k]) == x;
        assert(after[k] == before[k]);
        assert(trims_to(after, x));
    }
    if prev.contains(x) {
        assert(x.len() > 0 && trims_to(before, x));
    }
    if x.len() > 0 && trims_to(before, x) {
        assert(prev.contains(x));
    }
    if x == t && t.len() > 0 {
        assert(trim(after[i]) == x);
        assert(trims_to(after, x));
        assert(kept[kept.len() - 1] == t);
        assert(kept.contains(x));
    }
    if kept.contains(x) && !prev.contains(x) {
        assert(t.len() > 0);
        assert(seq![t].contains(x));
        assert(seq![t][0] == t);
        assert(x == t);
    }
    if prev.contains(x) {
        let j = choose|j: int| 0 <= j < prev.len() && prev[j] == x;
        assert(kept[j] == x);
        assert(kept.contains(x));
    }
}

/// The values, trimmed, without empty ones, sorted, once each.
pub open spec fn norm_strings(values: Seq<Chars>) -> Seq<Chars> {
    sorted_members(|x: Chars| x.len() > 0 && trims_to(values, x))
}

/// The values trimmed, the empty ones dropped, in order.
pub open spec fn trimmed_nonempty(values: Seq<Chars>) -> Seq<Chars>
    decreases values.len(),
{
    if values.len() == 0 {
        Seq::empty()
    } else {
        trimmed_nonempty(values.drop_last()) + if trim(values.last()).len() > 0 {
            seq![trim(values.last())]
        } else {
            Seq::empty()
        }
    }
}

proof fn lemma_trimmed_nonempty(values: Seq<Chars>)
    ensures
        forall|x: Chars| #[trigger] trimmed_nonempty(values).contains(x) <==> (x.len() > 0 && trims_to(values, x)),
    decreases values.len(),
{
    if values.len() > 0 {
        let init = values.drop_last();
        lemma_trimmed_nonempty(init);
        let t = trim(values.last());
        let tail: Seq<Chars> = if t.len() > 0 { seq![t] } else { Seq::empty() };
        assert(trimmed_nonempty(values) == trimmed_nonempty(init) + tail);
        assert forall|x: Chars| #[trigger] trimmed_nonempty(values).contains(x) <==> (x.len() > 0 && trims_to(values, x)) by {
            crate::text::lemma_contains_concat(trimmed_nonempty(init), tail, x);
            if trims_to(values, x) {
                let i = choose|i: int| 0 <= i < values.len() && trim(#[trigger] values[i]) == x;
                if i < values.len() - 1 {
                    assert(init[i] == values[i]);
                    assert(trims_to(init, x));
                }
            }
            if trims_to(init, x) {
                let i = choose|i: int| 0 <= i < init.len() && trim(#[trigger] init[i]) == x;
                assert(values[i] == init[i]);
                assert(trim(values[i]) == x);
            }
            if x.len() > 0 && x == t {
                assert(trim(values[values.len() - 1]) == x);
                assert(tail[0] == t);
                assert(tail.contains(t));
            }
        }
    }
}

/// Normalizing a normalized list changes nothing.
pub proof fn law_norm_strings_idempotent(values: Seq<Chars>)
    ensures
        norm_strings(norm_strings(values)) == norm_strings(values),
{
    let o = norm_strings(values);
    let p = |x: Chars| x.len() > 0 && trims_to(values, x);
    let q = |x: Chars| x.len() > 0 && trims_to(o, x);
    let m = trimmed_nonempty(values);
    lemma_trimmed_nonempty(values);
    crate::order::lemma_sorted_set_exists(m);
    assert forall|x: Chars| #[trigger] sorted_set(m).contains(x) <==> p(x) by {}
    crate::order::lemma_sorted_members(sorted_set(m), p);
    assert(o == sorted_set(m));
    assert forall|x: Chars| #[trigger] o.contains(x) <==> q(x) by {
        if o.contains(x) {
            assert(p(x));
            let i = choose|i: int| 0 <= i < values.len() && trim(#[trigger] values[i]) == x;
            crate::text::lemma_trim_idempotent(values[i]);
            let j = choose|j: int| 0 <= j < o.len() && o[j] == x;
            assert(trim(o[j]) == x);
        }
        if q(x) {
            let j = choose|j: int| 0 <= j < o.len() && trim(#[trigger] o[j]) == x;
            assert(o.contains(o[j]));
            assert(p(o[j]));
            let i = choose|i: int| 0 <= i < values.len() && trim(#[trigger] values[i]) == o[j];
            crate::text::lemma_trim_idempotent(values[i]);
        }
    }
    crate::order::lemma_sorted_members(o, q);
}

/// The values, trimmed, without empty ones, sorted, once each.
pub fn normalize_unique_strings(values: &Vec<String>) -> (out: Vec<String>)
    ensures
        views(out@) == norm_strings(views(values@)),
        crate::order::strictly_sorted(views(out@)),
        forall|x: Chars| #[trigger] views(out@).contains(x) <==> (x.len() > 0 && trims_to(views(values@), x)),
{
    let ghost vv = views(values@);
    let mut kept: Vec<String> = Vec::new();
    let mut i: usize = 0;
    while i < values.len()
        invariant
            i <= values@.len(),
            vv == views(values@),
            forall|x: Chars| #[trigger] views(kept@).contains(x) <==> (x.len() > 0 && trims_to(vv.take(i as int), x)),
        decreases values@.len() - i,
    {
        let t = trim_str(values[i].as_str());
        let ghost prev = views(kept@);
        assert(forall|x: Chars| #[trigger] prev.contains(x) <==> (x.len() > 0 && trims_to(vv.take(i as int), x)));
        assert(vv[i as int] == values@[i as int]@);
        if t.len() > 0 {
            kept.push(string_of(t.as_slice()));
            assert(views(kept@) =~= prev.push(t@));
        }
        assert forall|x: Chars| #[trigger] views(kept@).contains(x) <==> (x.len() > 0 && trims_to(vv.take(i + 1), x)) by {
            lemma_trims_step(prev, views(kept@), vv, i as int, t@, x);
        }
        i += 1;
    }
    assert(vv.take(values@.len() as int) =~= vv);
    let out = sort_dedup(kept);
    proof {
        crate::order::lemma_sorted_members(views(out@), |x: Chars| x.len() > 0 && trims_to(vv, x));
    }
    out
}

/// The normalized form of one path entry: `Ok(None)` for a blank entry, an
/// error for a directory where none is allowed or for a path that is not a
/// repository path, else the normalized path (`/`-terminated for a directory).
pub open spec fn normalize_path_entry(v: Chars, allow_dirs: bool) -> Result<Option<Chars>, KbErrorView> {
    let t = trim(v);
    if t.len() == 0 {
        Ok(None)
    } else {
        let is_dir = ends_with(t, seq!['/']);
        if is_dir && !allow_dirs {
            Err(invalid_with("path must not end with '/'"@, "path"@, t))
        } else {
            match parse_repo_path(trim_end_char(t, '/')) {
                Err(e) => Err(e),
                Ok(p) => Ok(Some(if is_dir { p.push('/') } else { p })),
            }
        }
    }
}

/// Normalizing path entries in order: the first error, or the normalized paths.
pub open spec fn normalize_path_entries(vs: Seq<Chars>, allow_dirs: bool) -> Result<Seq<Chars>, KbErrorView>
    decreases vs.len(),
{
    if vs.len() == 0 {
        Ok(Seq::empty())
    } else {
        match normalize_path_entries(vs.drop_last(), allow_dirs) {
            Err(e) => Err(e),
            Ok(done) => match normalize_path_entry(vs.last(), allow_dirs) {
                Err(e) => Err(e),
                Ok(None) => Ok(done),
                Ok(Some(p)) => Ok(done.push(p)),
            },
        }
    }
}

proof fn lemma_path_entries_error_stays(vs: Seq<Chars>, allow_dirs: bool, n: int, e: KbErrorView)
    requires
        0 <= n <= vs.len(),
        normalize_path_entries(vs.take(n), allow_dirs) == Err::<Seq<Chars>, KbErrorView>(e),
    ensures
        normalize_path_entries(vs, allow_dirs) == Err::<Seq<Chars>, KbErrorView>(e),
    decreases vs.len() - n,
{
    if n < vs.len() {
        assert(vs.take(n + 1).drop_last() =~= vs.take(n));
        lemma_path_entries_error_stays(vs, allow_dirs, n + 1, e);
    } else {
        assert(vs.take(n) =~= vs);
    }
}

/// Normalizes one path entry (see `normalize_path_entry`).
pub fn normalize_path_value(v: &str, allow_dirs: bool) -> (r: Result<Option<String>, KbError>)
    ensures
        match r {
            Ok(Some(p)) => normalize_path_entry(v@, allow_dirs) == Ok::<Option<Chars>, KbErrorView>(Some(p@)),
            Ok(None) => normalize_path_entry(v@, allow_dirs) == Ok::<Option<Chars>, KbErrorView>(None),
            Err(e) => normalize_path_entry(v@, allow_dirs) == Err::<Option<Chars>, KbErrorView>(e@),
        },
{
    let t = trim_str(v);
    if t.len() == 0 {
        return Ok(None);
    }
    let is_dir = t[t.len() - 1] == '/';
    assert(is_dir == ends_with(t@, seq!['/'])) by {
        assert(t@.skip(t@.len() - 1) =~= seq![t@.last()]);
        if ends_with(t@, seq!['/']) {
            assert(t@.skip(t@.len() - 1)[0] == '/');
        }
    }
    if is_dir && !allow_dirs {
        let shown = string_of(t.as_slice());
        return Err(KbError::invalid_with_detail("path must not end with '/'", "path", shown.as_str()));
    }
    let stripped = string_of(trim_end_char_chars(t.as_slice(), '/').as_slice());
    let normalized = RepoPath::parse(stripped.as_str())?;
    let mut out = copy_str(normalized.as_str());
    if is_dir {
        push_char(&mut out, '/');
    }
    Ok(Some(out))
}

/// The path entries normalized (see `normalize_path_entry`), sorted, once each.
pub open spec fn norm_paths(values: Seq<Chars>, allow_dirs: bool) -> Result<Seq<Chars>, KbErrorView> {
    match normalize_path_entries(values, allow_dirs) {
        Ok(all) => Ok(crate::order::sorted_set(all)),
        Err(e) => Err(e),
    }
}

/// The path entries normalized (see `normalize_path_entry`), sorted, once each.
pub fn normalize_unique_paths(values: &Vec<String>, allow_dirs: bool) -> (r: Result<Vec<String>, KbError>)
    ensures
        match r {
            Ok(out) => norm_paths(views(values@), allow_dirs) == Ok::<Seq<Chars>, KbErrorView>(views(out@)),
            Err(e) => norm_paths(views(values@), allow_dirs) == Err::<Seq<Chars>, KbErrorView>(e@),
        },
        r matches Ok(out) ==> normalize_path_entries(views(values@), allow_dirs) matches Ok(all)
            && sorted_set_of(views(out@), all),
        r matches Err(e) ==> normalize_path_entries(views(values@), allow_dirs) == Err::<Seq<Chars>, KbErrorView>(e@),
{
    let ghost vv = views(values@);
    let mut out: Vec<String> = Vec::new();
    let mut i: usize = 0;
    assert(vv.take(0) =~= Seq::<Chars>::empty());
    assert(views(out@) =~= Seq::<Chars>::empty());
    while i < values.len()
        invariant
            i <= values@.len(),
            vv == views(values@),
            normalize_path_entries(vv.take(i as int), allow_dirs) == Ok::<Seq<Chars>, KbErrorView>(views(out@)),
        decreases values@.len() - i,
    {
        assert(vv.take(i + 1).drop_last() =~= vv.take(i as int));
        assert(vv.take(i + 1).last() == values@[i as int]@);
        match normalize_path_value(values[i].as_str(), allow_dirs) {
            Err(e) => {
                proof {
                    lemma_path_entries_error_stays(vv, allow_dirs, i + 1, e@);
                }
                return Err(e);
            },
            Ok(None) => {},
            Ok(Some(p)) => {
                let ghost prev = views(out@);
                out.push(p);
                assert(views(out@) =~= prev.push(p@));
            },
        }
        i += 1;
    }
    assert(vv.take(values@.len() as int) =~= vv);
    let sorted = sort_dedup(out);
    proof {
        crate::order::lemma_sorted_set_of_is(views(sorted@), views(out@));
    }
    Ok(sorted)
}

// ---------------------------------------------------------------------------
// TOML rendering
// ---------------------------------------------------------------------------

/// The TOML escape of one character.
pub open spec fn toml_escape_char(c: char) -> Chars {
    if c == '\\' {
        seq!['\\', '\\']
    } else if c == '"' {
        seq!['\\', '"']
    } else if c == '\n' {
        seq!['\\', 'n']
    } else if c == '\r' {
        seq!['\\', 'r']
    } else if c == '\t' {
        seq!['\\', 't']
    } else {
        seq![c]
    }
}

/// The TOML escape of a string, character by character.
pub open spec fn toml_escape(s: Chars) -> Chars
    decreases s.len(),
{
    if s.len() == 0 {
        Seq::empty()
    } else {
        toml_escape(s.drop_last()) + toml_escape_char(s.last())
    }
}

/// A TOML basic string: quoted and escaped.
pub open spec fn toml_string(s: Chars) -> Chars {
    seq!['"'] + toml_escape(s) + seq!['"']
}

/// Renders a value as a TOML basic string.
pub fn render_toml_string(value: &str) -> (s: String)
    ensures
        s@ == toml_string(value@),
{
    let v = chars_of(value);
    let mut s = String::new();
    push_char(&mut s, '"');
    let mut i: usize = 0;
    while i < v.len()
        invariant
            i <= v@.len(),
            s@ == seq!['"'] + toml_escape(v@.take(i as int)),
        decreases v@.len() - i,
    {
        let c = v[i];
        if c == '\\' {
            push_char(&mut s, '\\');
            push_char(&mut s, '\\');
        } else if c == '"' {
            push_char(&mut s, '\\');
            push_char(&mut s, '"');
        } else if c == '\n' {
            push_char(&mut s, '\\');
            push_char(&mut s, 'n');
        } else if c == '\r' {
            push_char(&mut s, '\\');
            push_char(&mut s, 'r');
        } else if c == '\t' {
            push_char(&mut s, '\\');
            push_char(&mut s, 't');
        } else {
            push_char(&mut s, c);
        }
        assert(v@.take(i + 1).drop_last() =~= v@.take(i as int));
        assert(v@.take(i + 1).last() == c);
        assert(s@ =~= seq!['"'] + toml_escape(v@.take(i + 1)));
        i += 1;
    }
    assert(v@.take(v@.len() as int) =~= v@);
    push_char(&mut s, '"');
    assert(s@ =~= toml_string(value@));
    s
}

/// The TOML strings of the values, in order.
pub open spec fn toml_strings(values: Seq<Chars>) -> Seq<Chars> {
    values.map_values(|v: Chars| toml_string(v))
}

/// A TOML array of basic strings: `["a", "b"]`.
pub open spec fn toml_array(values: Seq<Chars>) -> Chars {
    seq!['['] + crate::text::join(toml_strings(values), ", "@) + seq![']']
}

/// Renders values as a TOML array of basic strings.
pub fn render_toml_string_array(values: &Vec<String>) -> (s: String)
    ensures
        s@ == toml_array(views(values@)),
{
    let ghost vv = views(values@);
    let mut items: Vec<String> = Vec::new();
    let mut i: usize = 0;
    while i < values.len()
        invariant
            i <= values@.len(),
            vv == views(values@),
            views(items@) == toml_strings(vv.take(i as int)),
        decreases values@.len() - i,
    {
        let ghost prev = views(items@);
        items.push(render_toml_string(values[i].as_str()));
        assert(views(items@) =~= prev.push(toml_string(vv[i as int])));
        assert(toml_strings(vv.take(i + 1)) =~= toml_strings(vv.take(i as int)).push(toml_string(vv[i as int])));
        i += 1;
    }
    assert(vv.take(values@.len() as int) =~= vv);
    let inner = crate::text::join_strings(&items, ", ");
    let mut s = String::new();
    push_char(&mut s, '[');
    crate::text::append_str(&mut s, inner.as_str());
    push_char(&mut s, ']');
    assert(s@ =~= toml_array(vv));
    s
}

/// A file's text as written: trailing line feeds replaced by exactly one.
pub open spec fn file_text(text: Chars) -> Chars {
    trim_end_char(text, '\n').push('\n')
}

/// The text written for a file: trailing line feeds replaced by exactly one.
pub fn normalized_file_text(text: &str) -> (s: String)
    ensures
        s@ == file_text(text@),
{
    let v = chars_of(text);
    let mut s = string_of(trim_end_char_chars(v.as_slice(), '\n').as_slice());
    push_char(&mut s, '\n');
    s
}

} // verus!

verus! {

// ---------------------------------------------------------------------------
// tags.toml
// ---------------------------------------------------------------------------

/// The description of the last entry with the id, if it has one.
pub open spec fn last_description(entries: Seq<TagEntryView>, id: Chars) -> Option<Chars>
    decreases entries.len(),
{
    if entries.len() == 0 {
        None
    } else if entries.last().id == id {
        entries.last().description
    } else {
        last_description(entries.drop_last(), id)
    }
}

/// The trimmed form of an optional value.
pub open spec fn opt_trim(o: Option<Chars>) -> Option<Chars> {
    match o {
        Some(d) => Some(trim(d)),
        None => None,
    }
}

/// The entries a tags upsert sorts: the upserted entry first (its description
/// given or else kept), then the registry's entries from last to first, so that
/// for each id the upserted entry, else the last entry, is kept.
pub open spec fn tags_upsert_input(entries: Seq<TagEntryView>, tag_id: Chars, description: Option<Chars>) -> Seq<TagEntryView> {
    let desc = match description {
        Some(d) => Some(trim(d)),
        None => opt_trim(last_description(entries, tag_id)),
    };
    seq![TagEntryView { id: tag_id, description: desc }] + reversed(entries)
}

/// One `[[tag]]` table.
pub open spec fn tag_block(e: TagEntryView) -> Chars {
    "[[tag]]\n"@ + "id = "@ + toml_string(e.id) + "\n"@ + match e.description {
        Some(d) => "description = "@ + toml_string(trim(d)) + "\n"@,
        None => Seq::empty(),
    } + "\n"@
}

/// The `[[tag]]` tables of the entries, in order.
pub open spec fn tags_text(table: Seq<TagEntryView>) -> Chars
    decreases table.len(),
{
    if table.len() == 0 {
        Seq::empty()
    } else {
        tags_text(table.drop_last()) + tag_block(table.last())
    }
}

/// What a tags upsert writes, given its checked inputs.
pub open spec fn tags_file(text: Chars, entries: Seq<TagEntryView>, tag_id: Chars, description: Option<Chars>) -> bool {
    exists|table: Seq<TagEntry>|
        #[trigger] sorted_unique_views(table, tags_upsert_input(entries, tag_id, description))
        && text == file_text(tags_text(tag_entry_views(table)))
}

/// Checking a tags upsert: the trimmed id, then the description, then the
/// registry load.
pub open spec fn tags_upsert_check(
    loaded: Result<Option<Seq<TagEntryView>>, KbErrorView>,
    tag_id: Chars,
    description: Option<Chars>,
) -> Result<(), KbErrorView> {
    let tid = trim(tag_id);
    if ascii_id_check("tag_id"@, tid, false) is Err {
        ascii_id_check("tag_id"@, tid, false)
    } else if description is Some && single_line_check("description"@, description.unwrap()) is Err {
        single_line_check("description"@, description.unwrap())
    } else {
        match loaded {
            Err(e) => Err(e),
            Ok(_) => Ok(()),
        }
    }
}

/// The entries of a loaded registry (none without one).
pub open spec fn loaded_entries(loaded: Result<Option<Seq<TagEntryView>>, KbErrorView>) -> Seq<TagEntryView> {
    match loaded {
        Ok(Some(entries)) => entries,
        _ => Seq::empty(),
    }
}

fn tag_block_text(e: &TagEntry) -> (s: String)
    ensures
        s@ == tag_block(e@),
{
    let mut s = copy_str("[[tag]]\n");
    crate::text::append_str(&mut s, "id = ");
    crate::text::append_str(&mut s, render_toml_string(e.id.as_str()).as_str());
    crate::text::append_str(&mut s, "\n");
    match &e.description {
        Some(d) => {
            let t = string_of(trim_str(d.as_str()).as_slice());
            crate::text::append_str(&mut s, "description = ");
            crate::text::append_str(&mut s, render_toml_string(t.as_str()).as_str());
            crate::text::append_str(&mut s, "\n");
        },
        None => {},
    }
    crate::text::append_str(&mut s, "\n");
    assert(s@ =~= tag_block(e@));
    s
}

/// Adds or updates a tag in the registry and returns the new `tags.toml`
/// text: one `[[tag]]` table per id, sorted by id. A description not given is
/// kept from the registry.
pub fn tags_upsert_at(loaded: Result<Option<TagsConfig>, KbError>, tag_id: &str, description: Option<String>) -> (r: Result<String, KbError>)
    ensures
        match r {
            Ok(text) => tags_upsert_check(tags_load_view(loaded), tag_id@, opt_view(description)) is Ok
                && tags_file(text@, loaded_entries(tags_load_view(loaded)), trim(tag_id@), opt_view(description)),
            Err(e) => tags_upsert_check(tags_load_view(loaded), tag_id@, opt_view(description))
                == Err::<(), KbErrorView>(e@),
        },
{
    let ghost lv = tags_load_view(loaded);
    let tid = string_of(trim_str(tag_id).as_slice());
    validate_tag_id(tid.as_str())?;
    assert(trim(tid@) == tid@) by {
        crate::text::lemma_trim_idempotent(tag_id@);
    }
    match &description {
        Some(d) => validate_single_line_string("description", d.as_str())?,
        None => {},
    }
    let entries: Vec<TagEntry> = match loaded {
        Err(e) => return Err(e),
        Ok(None) => Vec::new(),
        Ok(Some(cfg)) => cfg.tag,
    };
    let ghost ev = tag_entry_views(entries@);
    assert(ev == loaded_entries(lv));
    // The description the upserted entry keeps: given, else the last one in the registry.
    let mut existing: Option<String> = None;
    let mut k: usize = 0;
    while k < entries.len()
        invariant
            k <= entries@.len(),
            ev == tag_entry_views(entries@),
            opt_view(existing) == last_description(ev.take(k as int), tid@),
        decreases entries@.len() - k,
    {
        assert(ev.take(k + 1).drop_last() =~= ev.take(k as int));
        if str_eq_string(&entries[k].id, &tid) {
            existing = crate::text::copy_opt_string(&entries[k].description);
        }
        k += 1;
    }
    assert(ev.take(entries@.len() as int) =~= ev);
    let desc: Option<String> = match &description {
        Some(d) => Some(string_of(trim_str(d.as_str()).as_slice())),
        None => match &existing {
            Some(d) => Some(string_of(trim_str(d.as_str()).as_slice())),
            None => None,
        },
    };
    let mut input: Vec<TagEntry> = Vec::new();
    input.push(TagEntry { id: tid, description: desc });
    let mut j: usize = entries.len();
    while j > 0
        invariant
            j <= entries@.len(),
            ev == tag_entry_views(entries@),
            input@.len() == 1 + (entries@.len() - j),
            tag_entry_views(input@).drop_first() == reversed(ev).take(entries@.len() - j),
            tag_entry_views(input@)[0] == tags_upsert_input(ev, trim(tag_id@), opt_view(description))[0],
        decreases j,
    {
        j -= 1;
        let ghost prev = tag_entry_views(input@);
        input.push(entries[j].duplicate());
        assert(tag_entry_views(input@) =~= prev.push(ev[j as int]));
        assert(reversed(ev).take(entries@.len() - j) =~= reversed(ev).take(entries@.len() - j - 1).push(ev[j as int]));
    }
    assert(tag_entry_views(input@) =~= tags_upsert_input(ev, trim(tag_id@), opt_view(description))) by {
        assert(reversed(ev).take(ev.len() as int) =~= reversed(ev));
        assert(tag_entry_views(input@) =~= seq![tag_entry_views(input@)[0]] + tag_entry_views(input@).drop_first());
    }
    let ghost unsorted = input@;
    let table = crate::order::sort_unique_by_key(input);
    assert(sorted_unique_views(table@, tags_upsert_input(ev, trim(tag_id@), opt_view(description)))) by {
        assert(unsorted.map_values(|x: TagEntry| x@) == tag_entry_views(unsorted));
    }
    let ghost tv = tag_entry_views(table@);
    let mut text = String::new();
    let mut i: usize = 0;
    while i < table.len()
        invariant
            i <= table@.len(),
            tv == tag_entry_views(table@),
            text@ == tags_text(tv.take(i as int)),
        decreases table@.len() - i,
    {
        assert(tv.take(i + 1).drop_last() =~= tv.take(i as int));
        crate::text::append_str(&mut text, tag_block_text(&table[i]).as_str());
        i += 1;
    }
    assert(tv.take(table@.len() as int) =~= tv);
    let out = normalized_file_text(text.as_str());
    assert(tags_file(out@, ev, trim(tag_id@), opt_view(description)));
    Ok(out)
}

/// Equality of two strings.
pub fn str_eq_string(a: &String, b: &String) -> (r: bool)
    ensures
        r == (a@ == b@),
{
    crate::text::str_eq(a.as_str(), b.as_str())
}

} // verus!

verus! {

// ---------------------------------------------------------------------------
// Module cards
// ---------------------------------------------------------------------------

/// What a module card write is asked to record.
pub struct ModuleWriteInput {
    pub module_id: String,
    pub title: Option<String>,
    pub owners: Vec<String>,
    pub tags: Vec<String>,
    pub entrypoints: Vec<String>,
    pub edit_points: Vec<String>,
    pub related_facts: Vec<String>,
}

/// The file a module card write produces: where it goes and its text.
pub struct ModuleCardFile {
    pub rel_path: String,
    pub module_id: String,
    pub text: String,
}

/// Checking one-line values in order: the first error.
pub open spec fn single_lines_check(field: Chars, values: Seq<Chars>) -> Result<(), KbErrorView>
    decreases values.len(),
{
    if values.len() == 0 {
        Ok(())
    } else if single_line_check(field, values[0]) is Err {
        single_line_check(field, values[0])
    } else {
        single_lines_check(field, values.drop_first())
    }
}

/// Checking ids in order: the first error.
pub open spec fn ids_check(field: Chars, values: Seq<Chars>, allow_colon: bool) -> Result<(), KbErrorView>
    decreases values.len(),
{
    if values.len() == 0 {
        Ok(())
    } else if ascii_id_check(field, values[0], allow_colon) is Err {
        ascii_id_check(field, values[0], allow_colon)
    } else {
        ids_check(field, values.drop_first(), allow_colon)
    }
}

/// Checks that every value is a one-line string.
pub fn validate_all_single_line(field: &str, values: &Vec<String>) -> (r: Result<(), KbError>)
    ensures
        check_view(r) == single_lines_check(field@, views(values@)),
{
    let ghost vv = views(values@);
    let mut i: usize = 0;
    assert(vv.skip(0) =~= vv);
    while i < values.len()
        invariant
            i <= values@.len(),
            vv == views(values@),
            single_lines_check(field@, vv) == single_lines_check(field@, vv.skip(i as int)),
        decreases values@.len() - i,
    {
        assert(vv.skip(i as int)[0] == values@[i as int]@);
        assert(vv.skip(i as int).drop_first() =~= vv.skip(i + 1));
        validate_single_line_string(field, values[i].as_str())?;
        i += 1;
    }
    assert(vv.skip(values@.len() as int) =~= Seq::<Chars>::empty());
    Ok(())
}

/// Checks that every value is an id.
pub fn validate_all_ids(field: &str, values: &Vec<String>, allow_colon: bool) -> (r: Result<(), KbError>)
    ensures
        check_view(r) == ids_check(field@, views(values@), allow_colon),
{
    let ghost vv = views(values@);
    let mut i: usize = 0;
    assert(vv.skip(0) =~= vv);
    while i < values.len()
        invariant
            i <= values@.len(),
            vv == views(values@),
            ids_check(field@, vv, allow_colon) == ids_check(field@, vv.skip(i as int), allow_colon),
        decreases values@.len() - i,
    {
        assert(vv.skip(i as int)[0] == values@[i as int]@);
        assert(vv.skip(i as int).drop_first() =~= vv.skip(i + 1));
        validate_ascii_id(field, values[i].as_str(), allow_colon)?;
        i += 1;
    }
    assert(vv.skip(values@.len() as int) =~= Seq::<Chars>::empty());
    Ok(())
}

/// `name = [..]` and a line feed, or nothing for an empty list.
pub open spec fn list_line(name: Chars, values: Seq<Chars>) -> Chars {
    if values.len() == 0 {
        Seq::empty()
    } else {
        name + " = "@ + toml_array(values) + "\n"@
    }
}

/// The text of a module card.
pub open spec fn module_text(
    id: Chars,
    title: Chars,
    owners: Seq<Chars>,
    tags: Seq<Chars>,
    entrypoints: Seq<Chars>,
    edit_points: Seq<Chars>,
    related_facts: Seq<Chars>,
) -> Chars {
    "id = "@ + toml_string(id) + "\n"@ + "title = "@ + toml_string(title) + "\n"@ + list_line("owners"@, owners)
        + list_line("tags"@, tags) + list_line("entrypoints"@, entrypoints) + list_line("edit_points"@, edit_points)
        + list_line("related_facts"@, related_facts)
}

/// The title of a card: the trimmed title when it is not empty, else the id.
pub open spec fn card_title(title: Option<Chars>, id: Chars) -> Chars {
    match title {
        Some(t) => if trim(t).len() > 0 { trim(t) } else { id },
        None => id,
    }
}

/// Where a module card lives.
pub open spec fn module_card_path(id: Chars) -> Chars {
    "kb/atlas/modules/"@ + id + ".toml"@
}

/// What writing a module card gives: the first error among the checks of
/// the id, title, owners, tags (form, then registry), entrypoints, edit points
/// and related facts; else the card's path and text.
pub open spec fn module_write(
    module_id: Chars,
    title: Option<Chars>,
    owners: Seq<Chars>,
    tags: Seq<Chars>,
    entrypoints: Seq<Chars>,
    edit_points: Seq<Chars>,
    related_facts: Seq<Chars>,
    loaded: Result<Option<Seq<TagEntryView>>, KbErrorView>,
) -> Result<(Chars, Chars), KbErrorView> {
    let id = trim(module_id);
    let t = card_title(title, id);
    let o = norm_strings(owners);
    let tg = norm_strings(tags);
    let rf = norm_strings(related_facts);
    if ascii_id_check("module_id"@, id, false) is Err {
        Err(ascii_id_check("module_id"@, id, false)->Err_0)
    } else if single_line_check("title"@, t) is Err {
        Err(single_line_check("title"@, t)->Err_0)
    } else if single_lines_check("owner"@, o) is Err {
        Err(single_lines_check("owner"@, o)->Err_0)
    } else if ids_check("tag_id"@, tg, false) is Err {
        Err(ids_check("tag_id"@, tg, false)->Err_0)
    } else if crate::config::tags::tags_check(loaded, tg) is Err {
        Err(crate::config::tags::tags_check(loaded, tg)->Err_0)
    } else if norm_paths(entrypoints, true) is Err {
        Err(norm_paths(entrypoints, true)->Err_0)
    } else if norm_paths(edit_points, false) is Err {
        Err(norm_paths(edit_points, false)->Err_0)
    } else if ids_check("fact_id"@, rf, true) is Err {
        Err(ids_check("fact_id"@, rf, true)->Err_0)
    } else {
        Ok((
            module_card_path(id),
            file_text(module_text(
                id,
                t,
                o,
                tg,
                norm_paths(entrypoints, true)->Ok_0,
                norm_paths(edit_points, false)->Ok_0,
                rf,
            )),
        ))
    }
}

fn append_list_line(text: &mut String, name: &str, values: &Vec<String>)
    ensures
        final(text)@ == old(text)@ + list_line(name@, views(values@)),
{
    if values.len() > 0 {
        crate::text::append_str(text, name);
        crate::text::append_str(text, " = ");
        crate::text::append_str(text, render_toml_string_array(values).as_str());
        crate::text::append_str(text, "\n");
    } else {
        assert(list_line(name@, views(values@)) =~= Seq::<char>::empty());
        assert(old(text)@ + Seq::<char>::empty() =~= old(text)@);
    }
}

/// Validates and normalizes a module card and returns where it goes and its
/// text: lists trimmed, sorted and deduplicated, empty lists left out.
pub fn module_write_at(input: &ModuleWriteInput, loaded: Result<Option<TagsConfig>, KbError>) -> (r: Result<ModuleCardFile, KbError>)
    ensures
        match r {
            Ok(f) => module_write(
                input.module_id@,
                opt_view(input.title),
                views(input.owners@),
                views(input.tags@),
                views(input.entrypoints@),
                views(input.edit_points@),
                views(input.related_facts@),
                tags_load_view(loaded),
            ) == Ok::<(Chars, Chars), KbErrorView>((f.rel_path@, f.text@)) && f.module_id@ == trim(input.module_id@),
            Err(e) => module_write(
                input.module_id@,
                opt_view(input.title),
                views(input.owners@),
                views(input.tags@),
                views(input.entrypoints@),
                views(input.edit_points@),
                views(input.related_facts@),
                tags_load_view(loaded),
            ) == Err::<(Chars, Chars), KbErrorView>(e@),
        },
{
    let id = string_of(trim_str(input.module_id.as_str()).as_slice());
    validate_module_id(id.as_str())?;
    let title = match &input.title {
        Some(t) => {
            let tt = trim_str(t.as_str());
            if tt.len() > 0 {
                string_of(tt.as_slice())
            } else {
                id.clone()
            }
        },
        None => id.clone(),
    };
    validate_single_line_string("title", title.as_str())?;
    let owners = normalize_unique_strings(&input.owners);
    validate_all_single_line("owner", &owners)?;
    let tags = normalize_unique_strings(&input.tags);
    validate_all_ids("tag_id", &tags, false)?;
    crate::config::tags::validate_tags_at(loaded, &tags)?;
    let entrypoints = normalize_unique_paths(&input.entrypoints, true)?;
    let edit_points = normalize_unique_paths(&input.edit_points, false)?;
    let related = normalize_unique_strings(&input.related_facts);
    validate_all_ids("fact_id", &related, true)?;
    let mut text = copy_str("id = ");
    crate::text::append_str(&mut text, render_toml_string(id.as_str()).as_str());
    crate::text::append_str(&mut text, "\n");
    crate::text::append_str(&mut text, "title = ");
    crate::text::append_str(&mut text, render_toml_string(title.as_str()).as_str());
    crate::text::append_str(&mut text, "\n");
    append_list_line(&mut text, "owners", &owners);
    append_list_line(&mut text, "tags", &tags);
    append_list_line(&mut text, "entrypoints", &entrypoints);
    append_list_line(&mut text, "edit_points", &edit_points);
    append_list_line(&mut text, "related_facts", &related);
    let mut rel = copy_str("kb/atlas/modules/");
    crate::text::append_str(&mut rel, id.as_str());
    crate::text::append_str(&mut rel, ".toml");
    let out_text = normalized_file_text(text.as_str());
    assert(text@ =~= module_text(
        id@,
        title@,
        views(owners@),
        views(tags@),
        views(entrypoints@),
        views(edit_points@),
        views(related@),
    ));
    Ok(ModuleCardFile { rel_path: rel, module_id: id, text: out_text })
}

} // verus!

verus! {

// ---------------------------------------------------------------------------
// obligations.toml
// ---------------------------------------------------------------------------

/// Checking fact types in order: the first error.
pub open spec fn fact_types_check(values: Seq<Chars>) -> Result<(), KbErrorView>
    decreases values.len(),
{
    if values.len() == 0 {
        Ok(())
    } else if fact_type_check(values[0]) is Err {
        fact_type_check(values[0])
    } else {
        fact_types_check(values.drop_first())
    }
}

/// Checks that every value is a fact type.
pub fn validate_all_fact_types(values: &Vec<String>) -> (r: Result<(), KbError>)
    ensures
        check_view(r) == fact_types_check(views(values@)),
{
    let ghost vv = views(values@);
    let mut i: usize = 0;
    assert(vv.skip(0) =~= vv);
    while i < values.len()
        invariant
            i <= values@.len(),
            vv == views(values@),
            fact_types_check(vv) == fact_types_check(vv.skip(i as int)),
        decreases values@.len() - i,
    {
        assert(vv.skip(i as int)[0] == values@[i as int]@);
        assert(vv.skip(i as int).drop_first() =~= vv.skip(i + 1));
        validate_fact_type(values[i].as_str())?;
        i += 1;
    }
    assert(vv.skip(values@.len() as int) =~= Seq::<Chars>::empty());
    Ok(())
}

/// The card a rule requires: trimmed, and none when blank.
pub open spec fn required_card(card: Option<Chars>) -> Option<Chars> {
    match card {
        Some(c) => if trim(c).len() > 0 { Some(trim(c)) } else { None },
        None => None,
    }
}

/// The rule an upsert records, from its normalized parts.
pub open spec fn upserted_rule(
    id: Chars,
    prefix: Chars,
    card: Option<Chars>,
    types: Seq<Chars>,
    session: Option<bool>,
) -> ObligationRuleView {
    ObligationRuleView {
        id,
        when_path_prefix: prefix,
        require_module_card: card,
        require_fact_types: if types.len() == 0 { None } else { Some(types) },
        require_session_capsule: if session == Some(true) { Some(true) } else { None },
    }
}

/// One `[[rule]]` table; required fact types are listed sorted, once each.
pub open spec fn rule_block(r: ObligationRuleView) -> Chars {
    "[[rule]]\n"@ + "id = "@ + toml_string(r.id) + "\n"@ + "when_path_prefix = "@ + toml_string(r.when_path_prefix)
        + "\n"@ + match r.require_module_card {
        Some(c) => "require_module_card = "@ + toml_string(c) + "\n"@,
        None => Seq::empty(),
    } + match r.require_fact_types {
        Some(t) => "require_fact_types = "@ + toml_array(crate::order::sorted_set(t)) + "\n"@,
        None => Seq::empty(),
    } + if r.require_session_capsule == Some(true) {
        "require_session_capsule = true\n"@
    } else {
        Seq::empty()
    } + "\n"@
}

/// The `[[rule]]` tables of the rules, in order.
pub open spec fn rules_text(rules: Seq<ObligationRuleView>) -> Chars
    decreases rules.len(),
{
    if rules.len() == 0 {
        Seq::empty()
    } else {
        rules_text(rules.drop_last()) + rule_block(rules.last())
    }
}

/// What a rule upsert writes: the upserted rule and, for each other id, the
/// last rule of the config with it, sorted by id.
pub open spec fn obligations_file(text: Chars, existing: Seq<ObligationRuleView>, rule: ObligationRuleView) -> bool {
    exists|table: Seq<ObligationRule>|
        #[trigger] sorted_unique_views(table, seq![rule] + reversed(existing))
        && text == file_text(rules_text(rule_views(table)))
}

/// The first error of a rule upsert, checked in order: the trimmed id, the
/// prefix, the required card, the fact types, then the existing config.
pub open spec fn rule_upsert_check(
    rule_id: Chars,
    prefix: Chars,
    card: Option<Chars>,
    types: Seq<Chars>,
    existing: Result<Seq<ObligationRuleView>, KbErrorView>,
) -> Result<(), KbErrorView> {
    if ascii_id_check("rule_id"@, trim(rule_id), false) is Err {
        ascii_id_check("rule_id"@, trim(rule_id), false)
    } else if crate::repo::prefix::normalize_prefix(prefix) is Err {
        Err(crate::repo::prefix::normalize_prefix(prefix)->Err_0)
    } else if required_card(card) is Some && ascii_id_check("module_id"@, required_card(card).unwrap(), false) is Err {
        ascii_id_check("module_id"@, required_card(card).unwrap(), false)
    } else if fact_types_check(norm_strings(types)) is Err {
        fact_types_check(norm_strings(types))
    } else {
        match existing {
            Err(e) => Err(e),
            Ok(_) => Ok(()),
        }
    }
}

/// The rules of a loaded config, or its load error.
pub open spec fn config_view(r: Result<ObligationsConfig, KbError>) -> Result<Seq<ObligationRuleView>, KbErrorView> {
    match r {
        Ok(cfg) => Ok(rule_views(cfg.rule@)),
        Err(e) => Err(e@),
    }
}

fn rule_block_text(r: &ObligationRule) -> (s: String)
    ensures
        s@ == rule_block(r@),
{
    let mut s = copy_str("[[rule]]\n");
    crate::text::append_str(&mut s, "id = ");
    crate::text::append_str(&mut s, render_toml_string(r.id.as_str()).as_str());
    crate::text::append_str(&mut s, "\n");
    crate::text::append_str(&mut s, "when_path_prefix = ");
    crate::text::append_str(&mut s, render_toml_string(r.when_path_prefix.as_str()).as_str());
    crate::text::append_str(&mut s, "\n");
    let ghost s1 = s@;
    match &r.require_module_card {
        Some(c) => {
            crate::text::append_str(&mut s, "require_module_card = ");
            crate::text::append_str(&mut s, render_toml_string(c.as_str()).as_str());
            crate::text::append_str(&mut s, "\n");
        },
        None => {},
    }
    let ghost s2 = s@;
    match &r.require_fact_types {
        Some(types) => {
            let t = sort_dedup(crate::text::copy_strings(types));
            proof {
                crate::order::lemma_sorted_set_of_is(views(t@), views(types@));
            }
            crate::text::append_str(&mut s, "require_fact_types = ");
            crate::text::append_str(&mut s, render_toml_string_array(&t).as_str());
            crate::text::append_str(&mut s, "\n");
        },
        None => {},
    }
    let ghost s3 = s@;
    if r.require_session_capsule == Some(true) {
        crate::text::append_str(&mut s, "require_session_capsule = true\n");
    }
    crate::text::append_str(&mut s, "\n");
    assert(s@ =~= rule_block(r@));
    s
}

/// Adds or replaces an obligation rule and returns the new
/// `obligations.toml` text: one `[[rule]]` table per id, sorted by id.
/// `existing` is the current config (empty when the file is missing or blank).
pub fn obligations_upsert_rule_at(
    existing: Result<ObligationsConfig, KbError>,
    rule_id: &str,
    when_path_prefix: &str,
    require_module_card: Option<String>,
    require_fact_types: &Vec<String>,
    require_session_capsule: Option<bool>,
) -> (r: Result<String, KbError>)
    ensures
        match r {
            Ok(text) => rule_upsert_check(
                rule_id@,
                when_path_prefix@,
                opt_view(require_module_card),
                views(require_fact_types@),
                config_view(existing),
            ) is Ok && obligations_file(
                text@,
                config_view(existing)->Ok_0,
                upserted_rule(
                    trim(rule_id@),
                    crate::repo::prefix::normalize_prefix(when_path_prefix@)->Ok_0,
                    required_card(opt_view(require_module_card)),
                    norm_strings(views(require_fact_types@)),
                    require_session_capsule,
                ),
            ),
            Err(e) => rule_upsert_check(
                rule_id@,
                when_path_prefix@,
                opt_view(require_module_card),
                views(require_fact_types@),
                config_view(existing),
            ) == Err::<(), KbErrorView>(e@),
        },
{
    let id = string_of(trim_str(rule_id).as_slice());
    validate_rule_id(id.as_str())?;
    let prefix = crate::repo::prefix::normalize_path_prefix(when_path_prefix)?;
    let card: Option<String> = match &require_module_card {
        Some(c) => {
            let t = trim_str(c.as_str());
            if t.len() > 0 {
                Some(string_of(t.as_slice()))
            } else {
                None
            }
        },
        None => None,
    };
    match &card {
        Some(c) => validate_module_id(c.as_str())?,
        None => {},
    }
    let types = normalize_unique_strings(require_fact_types);
    validate_all_fact_types(&types)?;
    let cfg = match existing {
        Err(e) => return Err(e),
        Ok(cfg) => cfg,
    };
    let rules = cfg.rule;
    let ghost ev = rule_views(rules@);
    let ghost new_rule = upserted_rule(
        id@,
        prefix@,
        opt_view(card),
        views(types@),
        require_session_capsule,
    );
    let session = if require_session_capsule == Some(true) { Some(true) } else { None };
    let type_list = if types.len() == 0 { None } else { Some(types) };
    let mut input: Vec<ObligationRule> = Vec::new();
    input.push(ObligationRule {
        id,
        when_path_prefix: prefix,
        require_module_card: card,
        require_fact_types: type_list,
        require_session_capsule: session,
    });
    assert(input@[0]@ == new_rule);
    let mut j: usize = rules.len();
    while j > 0
        invariant
            j <= rules@.len(),
            ev == rule_views(rules@),
            input@.len() == 1 + (rules@.len() - j),
            rule_views(input@).drop_first() == reversed(ev).take(rules@.len() - j),
            rule_views(input@)[0] == new_rule,
        decreases j,
    {
        j -= 1;
        let ghost prev = rule_views(input@);
        input.push(rules[j].duplicate());
        assert(rule_views(input@) =~= prev.push(ev[j as int]));
        assert(reversed(ev).take(rules@.len() - j) =~= reversed(ev).take(rules@.len() - j - 1).push(ev[j as int]));
    }
    assert(rule_views(input@) =~= seq![new_rule] + reversed(ev)) by {
        assert(reversed(ev).take(ev.len() as int) =~= reversed(ev));
        assert(rule_views(input@) =~= seq![rule_views(input@)[0]] + rule_views(input@).drop_first());
    }
    let ghost unsorted = input@;
    let table = crate::order::sort_unique_by_key(input);
    assert(sorted_unique_views(table@, seq![new_rule] + reversed(ev))) by {
        assert(unsorted.map_values(|x: ObligationRule| x@) == rule_views(unsorted));
    }
    let ghost tv = rule_views(table@);
    let mut text = String::new();
    let mut i: usize = 0;
    while i < table.len()
        invariant
            i <= table@.len(),
            tv == rule_views(table@),
            text@ == rules_text(tv.take(i as int)),
        decreases table@.len() - i,
    {
        assert(tv.take(i + 1).drop_last() =~= tv.take(i as int));
        crate::text::append_str(&mut text, rule_block_text(&table[i]).as_str());
        i += 1;
    }
    assert(tv.take(table@.len() as int) =~= tv);
    let out = normalized_file_text(text.as_str());
    assert(obligations_file(out@, ev, new_rule));
    Ok(out)
}

} // verus!

verus! {

// ---------------------------------------------------------------------------
// facts.jsonl
// ---------------------------------------------------------------------------

/// The position of the last record with the id, or -1.
pub open spec fn last_id_index(records: Seq<JsonValue>, fid: Chars) -> int
    decreases records.len(),
{
    if records.len() == 0 {
        -1
    } else if fact_id_key(records.last()) == fid {
        records.len() - 1
    } else {
        last_id_index(records.drop_last(), fid)
    }
}

proof fn lemma_last_id_index_range(records: Seq<JsonValue>, fid: Chars)
    ensures
        -1 <= last_id_index(records, fid) < records.len(),
        last_id_index(records, fid) >= 0 ==> fact_id_key(records[last_id_index(records, fid)]) == fid,
    decreases records.len(),
{
    if records.len() > 0 && fact_id_key(records.last()) != fid {
        lemma_last_id_index_range(records.drop_last(), fid);
    }
}

/// The fields of an upserted fact record: `fact_id` and `type` set, `tags`
/// and `paths` set as string arrays (or removed when empty), `data` set when
/// given, every other field as in the record it replaces.
pub open spec fn upserted_fields(
    fields: Seq<JsonField>,
    old_fields: Seq<JsonField>,
    fid: Chars,
    ft: Chars,
    tags: Seq<Chars>,
    paths: Seq<Chars>,
    data: Option<JsonValue>,
) -> bool {
    &&& field_lookup(fields, "fact_id"@) is Some && field_lookup(fields, "fact_id"@).unwrap() is Str
    &&& field_lookup(fields, "fact_id"@).unwrap()->Str_0@ == fid
    &&& field_lookup(fields, "type"@) is Some && field_lookup(fields, "type"@).unwrap() is Str
    &&& field_lookup(fields, "type"@).unwrap()->Str_0@ == ft
    &&& (tags.len() == 0 ==> field_lookup(fields, "tags"@) is None)
    &&& (tags.len() > 0 ==> field_lookup(fields, "tags"@) is Some
        && str_items(field_lookup(fields, "tags"@).unwrap()) == Some(tags))
    &&& (paths.len() == 0 ==> field_lookup(fields, "paths"@) is None)
    &&& (paths.len() > 0 ==> field_lookup(fields, "paths"@) is Some
        && str_items(field_lookup(fields, "paths"@).unwrap()) == Some(paths))
    &&& field_lookup(fields, "data"@) == match data {
        Some(d) => Some(d),
        None => field_lookup(old_fields, "data"@),
    }
    &&& forall|k: Chars|
        k != "fact_id"@ && k != "type"@ && k != "tags"@ && k != "paths"@ && k != "data"@
            ==> #[trigger] field_lookup(fields, k) == field_lookup(old_fields, k)
}

/// The records of a facts file after an upsert: the upserted record, then the
/// other records from last to first, sorted by id with the first of each id
/// kept, so that the upserted record replaces the last record with its id and
/// every other id keeps its last record.
pub open spec fn facts_table(
    out: Seq<JsonValue>,
    records: Seq<JsonValue>,
    fid: Chars,
    ft: Chars,
    tags: Seq<Chars>,
    paths: Seq<Chars>,
    data: Option<JsonValue>,
) -> bool {
    let idx = last_id_index(records, fid);
    let old_fields = if idx >= 0 { object_fields(records[idx]) } else { Seq::empty() };
    let rest = if idx >= 0 { records.remove(idx) } else { records };
    exists|u: Seq<JsonValue>|
        u.len() == rest.len() + 1 && u[0] is Object && upserted_fields(object_fields(u[0]), old_fields, fid, ft, tags, paths, data)
            && u.drop_first() == reversed(rest) && #[trigger] sorted_unique(out, u)
}

/// The data given to an upsert, once parsed.
pub open spec fn given_data(data: Option<Result<JsonValue, Chars>>) -> Option<JsonValue> {
    match data {
        Some(Ok(v)) => Some(v),
        _ => None,
    }
}

/// The first error of a fact upsert, checked in order: the trimmed id and
/// type, the tags (form, then registry), the paths, the data, then the facts
/// file (read, then each line parsed and checked).
pub open spec fn facts_upsert_check(
    fact_id: Chars,
    fact_type: Chars,
    tags: Seq<Chars>,
    paths: Seq<Chars>,
    data: Option<Result<JsonValue, Chars>>,
    loaded: Result<Option<Seq<TagEntryView>>, KbErrorView>,
    existing: Result<Seq<Result<JsonValue, Chars>>, KbErrorView>,
) -> Result<(), KbErrorView> {
    let tg = norm_strings(tags);
    if ascii_id_check("fact_id"@, trim(fact_id), true) is Err {
        ascii_id_check("fact_id"@, trim(fact_id), true)
    } else if fact_type_check(trim(fact_type)) is Err {
        fact_type_check(trim(fact_type))
    } else if ids_check("tag_id"@, tg, false) is Err {
        ids_check("tag_id"@, tg, false)
    } else if crate::config::tags::tags_check(loaded, tg) is Err {
        crate::config::tags::tags_check(loaded, tg)
    } else if norm_paths(paths, true) is Err {
        Err(norm_paths(paths, true)->Err_0)
    } else if data is Some && data.unwrap() is Err {
        Err(invalid_with("failed to parse data_json"@, "cause"@, data.unwrap()->Err_0))
    } else {
        match existing {
            Err(e) => Err(e),
            Ok(lines) => match checked_lines(lines, "failed to parse facts.jsonl"@, RecordCheck::IdOnly) {
                Err(e) => Err(e),
                Ok(_) => Ok(()),
            },
        }
    }
}

pub open spec fn data_view(data: Option<Result<JsonValue, String>>) -> Option<Result<JsonValue, Chars>> {
    match data {
        Some(r) => Some(parse_view(r)),
        None => None,
    }
}

pub open spec fn lines_view(existing: Result<Vec<Result<JsonValue, String>>, KbError>) -> Result<Seq<Result<JsonValue, Chars>>, KbErrorView> {
    match existing {
        Ok(lines) => Ok(parse_views(lines@)),
        Err(e) => Err(e@),
    }
}

/// Adds or updates a fact and returns the new contents of `facts.jsonl`, one
/// record per id, sorted by id. `data` is the parsed `data_json` (or its parse
/// error); `existing` is the current file's lines, each parsed (or its error).
pub fn facts_upsert_at(
    fact_id: &str,
    fact_type: &str,
    tags: &Vec<String>,
    paths: &Vec<String>,
    data: Option<Result<JsonValue, String>>,
    loaded: Result<Option<TagsConfig>, KbError>,
    existing: Result<Vec<Result<JsonValue, String>>, KbError>,
) -> (r: Result<Vec<JsonValue>, KbError>)
    ensures
        match r {
            Ok(out) => facts_upsert_check(
                fact_id@,
                fact_type@,
                views(tags@),
                views(paths@),
                data_view(data),
                tags_load_view(loaded),
                lines_view(existing),
            ) is Ok && facts_table(
                out@,
                checked_lines(lines_view(existing)->Ok_0, "failed to parse facts.jsonl"@, RecordCheck::IdOnly)->Ok_0,
                trim(fact_id@),
                trim(fact_type@),
                norm_strings(views(tags@)),
                norm_paths(views(paths@), true)->Ok_0,
                given_data(data_view(data)),
            ),
            Err(e) => facts_upsert_check(
                fact_id@,
                fact_type@,
                views(tags@),
                views(paths@),
                data_view(data),
                tags_load_view(loaded),
                lines_view(existing),
            ) == Err::<(), KbErrorView>(e@),
        },
{
    let fid = string_of(trim_str(fact_id).as_slice());
    validate_fact_id(fid.as_str())?;
    let ft = string_of(trim_str(fact_type).as_slice());
    assert(trim(ft@) == ft@) by {
        crate::text::lemma_trim_idempotent(fact_type@);
    }
    validate_fact_type(ft.as_str())?;
    let tg = normalize_unique_strings(tags);
    validate_all_ids("tag_id", &tg, false)?;
    crate::config::tags::validate_tags_at(loaded, &tg)?;
    let ps = normalize_unique_paths(paths, true)?;
    let ghost dv = data_view(data);
    let given: Option<JsonValue> = match data {
        Some(Err(cause)) => {
            return Err(KbError::invalid_with_detail("failed to parse data_json", "cause", cause.as_str()));
        },
        Some(Ok(v)) => Some(v),
        None => None,
    };
    assert(given == given_data(dv));
    let ghost ev = lines_view(existing);
    let lines = match existing {
        Err(e) => return Err(e),
        Ok(lines) => lines,
    };
    let mut records = crate::facts::check_fact_lines(lines, "failed to parse facts.jsonl", RecordCheck::IdOnly)?;
    let ghost all = records@;
    // The last record with the id.
    let mut k: usize = records.len();
    let mut found: Option<usize> = None;
    proof {
        lemma_last_id_index_range(all, fid@);
    }
    assert(all.take(k as int) =~= all);
    let fid_chars = chars_of(fid.as_str());
    while k > 0 && found.is_none()
        invariant
            k <= records@.len(),
            records@ == all,
            fid_chars@ == fid@,
            found matches Some(i) ==> i as int == last_id_index(all, fid@) && i < all.len(),
            found is None ==> last_id_index(all, fid@) == last_id_index(all.take(k as int), fid@),
        decreases k + if found is None { 1int } else { 0int },
    {
        assert(all.take(k as int).drop_last() =~= all.take(k - 1));
        assert(all.take(k as int).last() == all[k - 1]);
        let id_matches = match crate::json::get_str_field(&records[k - 1], "fact_id") {
            Some(s) => crate::text::str_eq(s, fid.as_str()),
            None => fid_chars.len() == 0,
        };
        proof {
            if fid@.len() == 0 {
                assert(fid@ =~= Seq::<char>::empty());
            }
        }
        assert(id_matches == (fact_id_key(all[k - 1]) == fid@));
        if id_matches {
            found = Some(k - 1);
        } else {
            k -= 1;
        }
    }
    proof {
        if found is None {
            assert(all.take(0) =~= Seq::<JsonValue>::empty());
        }
    }
    assert(found matches Some(i) ==> i as int == last_id_index(all, fid@));
    assert(found is None ==> last_id_index(all, fid@) == -1);
    let mut fields: Vec<JsonField> = match found {
        Some(i) => match records.remove(i) {
            JsonValue::Object(f) => f,
            _ => Vec::new(),
        },
        None => Vec::new(),
    };
    let ghost old_fields = fields@;
    let ghost rest = records@;
    proof {
        reveal_strlit("fact_id");
        reveal_strlit("type");
        reveal_strlit("tags");
        reveal_strlit("paths");
        reveal_strlit("data");
    }
    set_field(&mut fields, "fact_id", JsonValue::Str(fid.clone()));
    let ghost f1 = fields@;
    set_field(&mut fields, "type", JsonValue::Str(ft.clone()));
    let ghost f2 = fields@;
    crate::json::put_string_list(&mut fields, "tags", &tg);
    let ghost f3 = fields@;
    crate::json::put_string_list(&mut fields, "paths", &ps);
    let ghost f4 = fields@;
    crate::json::put_optional(&mut fields, "data", given);
    proof {
        reveal_strlit("fact_id");
        reveal_strlit("type");
        reveal_strlit("tags");
        reveal_strlit("paths");
        reveal_strlit("data");
        let fv = fields@;
        assert("fact_id"@ != "data"@) by {
            assert("fact_id"@.len() != "data"@.len());
        }
        assert("fact_id"@ != "tags"@) by {
            assert("fact_id"@.len() != "tags"@.len());
        }
        assert("fact_id"@ != "paths"@) by {
            assert("fact_id"@.len() != "paths"@.len());
        }
        assert("type"@ != "data"@) by {
            assert("type"@[0] != "data"@[0]);
        }
        assert("type"@ != "tags"@) by {
            assert("type"@[1] != "tags"@[1]);
        }
        assert("type"@ != "paths"@) by {
            assert("type"@.len() != "paths"@.len());
        }
        assert("tags"@ != "paths"@) by {
            assert("tags"@.len() != "paths"@.len());
        }
        assert("tags"@ != "data"@) by {
            assert("tags"@[0] != "data"@[0]);
        }
        assert("paths"@ != "data"@) by {
            assert("paths"@.len() != "data"@.len());
        }
        assert(field_lookup(fv, "fact_id"@) == field_lookup(f4, "fact_id"@));
        assert(field_lookup(f4, "fact_id"@) == field_lookup(f3, "fact_id"@));
        assert(field_lookup(f3, "fact_id"@) == field_lookup(f2, "fact_id"@));
        assert(field_lookup(f2, "fact_id"@) == field_lookup(f1, "fact_id"@));
        assert(field_lookup(fv, "type"@) == field_lookup(f4, "type"@));
        assert(field_lookup(f4, "type"@) == field_lookup(f3, "type"@));
        assert(field_lookup(f3, "type"@) == field_lookup(f2, "type"@));
        assert(field_lookup(fv, "tags"@) == field_lookup(f4, "tags"@));
        assert(field_lookup(f4, "tags"@) == field_lookup(f3, "tags"@));
        assert(field_lookup(fv, "paths"@) == field_lookup(f4, "paths"@));
        assert(field_lookup(f4, "data"@) == field_lookup(old_fields, "data"@));
        assert forall|k: Chars|
            k != "fact_id"@ && k != "type"@ && k != "tags"@ && k != "paths"@ && k != "data"@
                implies #[trigger] field_lookup(fv, k) == field_lookup(old_fields, k) by {
            assert(field_lookup(fv, k) == field_lookup(f4, k));
            assert(field_lookup(f4, k) == field_lookup(f3, k));
            assert(field_lookup(f3, k) == field_lookup(f2, k));
            assert(field_lookup(f2, k) == field_lookup(f1, k));
            assert(field_lookup(f1, k) == field_lookup(old_fields, k));
        }
        assert(upserted_fields(fv, old_fields, fid@, ft@, views(tg@), views(ps@), given_data(dv)));
    }
    let ghost fv = fields@;
    assert(upserted_fields(fv, old_fields, fid@, ft@, views(tg@), views(ps@), given_data(dv)));
    let mut u: Vec<JsonValue> = Vec::new();
    u.push(JsonValue::Object(fields));
    let n = records.len();
    while records.len() > 0
        invariant
            records@.len() <= n,
            n == rest.len(),
            records@ == rest.take(records@.len() as int),
            u@.len() == 1 + (n - records@.len()),
            u@[0] == JsonValue::Object(fields),
            u@.drop_first() == reversed(rest).take(n - records@.len()),
        decreases records@.len(),
    {
        let x = records.pop().unwrap();
        let ghost prev = u@;
        u.push(x);
        assert(u@.drop_first() =~= prev.drop_first().push(x));
        assert(reversed(rest).take(n - records@.len()) =~= reversed(rest).take(n - records@.len() - 1).push(rest[records@.len() as int]));
        assert(records@ =~= rest.take(records@.len() as int));
    }
    assert(reversed(rest).take(n as int) =~= reversed(rest));
    let ghost unsorted = u@;
    let out = crate::order::sort_unique_by_key(u);
    proof {
        let idx = last_id_index(all, fid@);
        lemma_last_id_index_range(all, fid@);
        assert(old_fields == (if idx >= 0 { object_fields(all[idx]) } else { Seq::<JsonField>::empty() }));
        assert(rest == (if idx >= 0 { all.remove(idx) } else { all }));
        assert(unsorted[0] == JsonValue::Object(fields));
        assert(object_fields(unsorted[0]) == fv);
        assert(unsorted.drop_first() == reversed(rest));
    }
    assert(facts_table(out@, all, fid@, ft@, views(tg@), views(ps@), given_data(dv)));
    Ok(out)
}

} // verus!

verus! {

/// After a tags upsert the registry holds the upserted tag, with the
/// description given (or the one it had).
pub proof fn law_tags_upsert_holds_tag(table: Seq<TagEntry>, entries: Seq<TagEntryView>, tag_id: Chars, description: Option<Chars>)
    requires
        sorted_unique_views(table, tags_upsert_input(entries, tag_id, description)),
    ensures
        exists|i: int| 0 <= i < table.len() && (#[trigger] table[i])@ == tags_upsert_input(entries, tag_id, description)[0],
{
    let inp = tags_upsert_input(entries, tag_id, description);
    let u = choose|u: Seq<TagEntry>| u.map_values(|x: TagEntry| x@) == inp && #[trigger] sorted_unique(table, u);
    assert(u.len() == inp.len());
    crate::order::lemma_sorted_unique_keeps_first(table, u);
    let i = choose|i: int| 0 <= i < table.len() && table[i] == u[0];
    assert(u.map_values(|x: TagEntry| x@)[0] == u[0]@);
    assert(table[i]@ == inp[0]);
}

/// A tags upsert keeps exactly the ids the registry had, plus the upserted
/// one: every other tag stays, and no id appears that was not there.
pub proof fn law_tags_upsert_keeps_ids(
    table: Seq<TagEntry>,
    entries: Seq<TagEntryView>,
    tag_id: Chars,
    description: Option<Chars>,
    id: Chars,
)
    requires
        sorted_unique_views(table, tags_upsert_input(entries, tag_id, description)),
    ensures
        (exists|i: int| 0 <= i < table.len() && (#[trigger] table[i])@.id == id) <==> (id == tag_id || exists|j: int|
            0 <= j < entries.len() && (#[trigger] entries[j]).id == id),
{
    let inp = tags_upsert_input(entries, tag_id, description);
    let u = choose|u: Seq<TagEntry>| u.map_values(|x: TagEntry| x@) == inp && #[trigger] sorted_unique(table, u);
    crate::order::lemma_sorted_unique_keys(table, u);
    let ko = crate::order::keys_of(table);
    let ku = crate::order::keys_of(u);
    assert(u.len() == inp.len());
    if exists|i: int| 0 <= i < table.len() && (#[trigger] table[i])@.id == id {
        let i = choose|i: int| 0 <= i < table.len() && (#[trigger] table[i])@.id == id;
        assert(ko[i] == seq![id]);
        assert(ku.contains(seq![id]));
        let j = choose|j: int| 0 <= j < ku.len() && ku[j] == seq![id];
        assert(u[j].key() == seq![id]);
        assert(u[j].key()[0] == id);
        assert(u.map_values(|x: TagEntry| x@)[j] == u[j]@);
        assert(inp[j].id == id);
        if j > 0 {
            let k = entries.len() - 1 - (j - 1);
            assert(entries[k].id == id);
        }
    }
    if id == tag_id || exists|j: int| 0 <= j < entries.len() && (#[trigger] entries[j]).id == id {
        let j = if id == tag_id {
            0
        } else {
            let m = choose|m: int| 0 <= m < entries.len() && (#[trigger] entries[m]).id == id;
            entries.len() - m
        };
        assert(inp[j].id == id);
        assert(u.map_values(|x: TagEntry| x@)[j] == u[j]@);
        assert(ku[j] == seq![id]);
        assert(ko.contains(seq![id]));
        let i = choose|i: int| 0 <= i < ko.len() && ko[i] == seq![id];
        assert(table[i].key() == seq![id]);
        assert(table[i].key()[0] == id);
        assert(table[i]@.id == id);
    }
}

/// After a rule upsert the config holds the upserted rule.
pub proof fn law_rule_upsert_holds_rule(table: Seq<ObligationRule>, existing: Seq<ObligationRuleView>, rule: ObligationRuleView)
    requires
        sorted_unique_views(table, seq![rule] + reversed(existing)),
    ensures
        exists|i: int| 0 <= i < table.len() && (#[trigger] table[i])@ == rule,
{
    let inp = seq![rule] + reversed(existing);
    let u = choose|u: Seq<ObligationRule>| u.map_values(|x: ObligationRule| x@) == inp && #[trigger] sorted_unique(table, u);
    assert(u.len() == inp.len());
    crate::order::lemma_sorted_unique_keeps_first(table, u);
    let i = choose|i: int| 0 <= i < table.len() && table[i] == u[0];
    assert(u.map_values(|x: ObligationRule| x@)[0] == u[0]@);
    assert(table[i]@ == inp[0]);
}

/// A rule upsert keeps exactly the rule ids the config had, plus the
/// upserted one.
pub proof fn law_rule_upsert_keeps_ids(
    table: Seq<ObligationRule>,
    existing: Seq<ObligationRuleView>,
    rule: ObligationRuleView,
    id: Chars,
)
    requires
        sorted_unique_views(table, seq![rule] + reversed(existing)),
    ensures
        (exists|i: int| 0 <= i < table.len() && (#[trigger] table[i])@.id == id) <==> (id == rule.id || exists|j: int|
            0 <= j < existing.len() && (#[trigger] existing[j]).id == id),
{
    let inp = seq![rule] + reversed(existing);
    let u = choose|u: Seq<ObligationRule>| u.map_values(|x: ObligationRule| x@) == inp && #[trigger] sorted_unique(table, u);
    crate::order::lemma_sorted_unique_keys(table, u);
    let ko = crate::order::keys_of(table);
    let ku = crate::order::keys_of(u);
    assert(u.len() == inp.len());
    if exists|i: int| 0 <= i < table.len() && (#[trigger] table[i])@.id == id {
        let i = choose|i: int| 0 <= i < table.len() && (#[trigger] table[i])@.id == id;
        assert(ko[i] == seq![id]);
        assert(ku.contains(seq![id]));
        let j = choose|j: int| 0 <= j < ku.len() && ku[j] == seq![id];
        assert(u[j].key() == seq![id]);
        assert(u[j].key()[0] == id);
        assert(u.map_values(|x: ObligationRule| x@)[j] == u[j]@);
        assert(inp[j].id == id);
        if j > 0 {
            let k = existing.len() - 1 - (j - 1);
            assert(existing[k].id == id);
        }
    }
    if id == rule.id || exists|j: int| 0 <= j < existing.len() && (#[trigger] existing[j]).id == id {
        let j = if id == rule.id {
            0
        } else {
            let m = choose|m: int| 0 <= m < existing.len() && (#[trigger] existing[m]).id == id;
            existing.len() - m
        };
        assert(inp[j].id == id);
        assert(u.map_values(|x: ObligationRule| x@)[j] == u[j]@);
        assert(ku[j] == seq![id]);
        assert(ko.contains(seq![id]));
        let i = choose|i: int| 0 <= i < ko.len() && ko[i] == seq![id];
        assert(table[i].key() == seq![id]);
        assert(table[i].key()[0] == id);
        assert(table[i]@.id == id);
    }
}

/// After a fact upsert the facts hold the upserted record: its id, its type,
/// its tags and paths.
pub proof fn law_fact_upsert_holds_fact(
    out: Seq<JsonValue>,
    records: Seq<JsonValue>,
    fid: Chars,
    ft: Chars,
    tags: Seq<Chars>,
    paths: Seq<Chars>,
    data: Option<JsonValue>,
)
    requires
        facts_table(out, records, fid, ft, tags, paths, data),
    ensures
        exists|i: int|
            0 <= i < out.len() && (#[trigger] out[i]) is Object && crate::json::str_field(out[i], "fact_id"@) == Some(fid) && crate::json::str_field(
                out[i],
                "type"@,
            ) == Some(ft),
{
    let idx = last_id_index(records, fid);
    let old_fields = if idx >= 0 { object_fields(records[idx]) } else { Seq::empty() };
    let rest = if idx >= 0 { records.remove(idx) } else { records };
    let u = choose|u: Seq<JsonValue>|
        u.len() == rest.len() + 1 && u[0] is Object && upserted_fields(object_fields(u[0]), old_fields, fid, ft, tags, paths, data)
            && u.drop_first() == reversed(rest) && #[trigger] sorted_unique(out, u);
    crate::order::lemma_sorted_unique_keeps_first(out, u);
    let i = choose|i: int| 0 <= i < out.len() && out[i] == u[0];
    assert(out[i] is Object);
}

/// A fact upsert keeps exactly the fact ids the file had, plus the upserted
/// one.
pub proof fn law_fact_upsert_keeps_ids(
    out: Seq<JsonValue>,
    records: Seq<JsonValue>,
    fid: Chars,
    ft: Chars,
    tags: Seq<Chars>,
    paths: Seq<Chars>,
    data: Option<JsonValue>,
    id: Chars,
)
    requires
        facts_table(out, records, fid, ft, tags, paths, data),
    ensures
        (exists|i: int| 0 <= i < out.len() && crate::json::fact_id_key(#[trigger] out[i]) == id) <==> (id == fid
            || exists|j: int| 0 <= j < records.len() && crate::json::fact_id_key(#[trigger] records[j]) == id),
{
    let idx = last_id_index(records, fid);
    lemma_last_id_index_range(records, fid);
    let old_fields = if idx >= 0 { object_fields(records[idx]) } else { Seq::empty() };
    let rest = if idx >= 0 { records.remove(idx) } else { records };
    let u = choose|u: Seq<JsonValue>|
        u.len() == rest.len() + 1 && u[0] is Object && upserted_fields(object_fields(u[0]), old_fields, fid, ft, tags, paths, data)
            && u.drop_first() == reversed(rest) && #[trigger] sorted_unique(out, u);
    crate::order::lemma_sorted_unique_keys(out, u);
    let ko = crate::order::keys_of(out);
    let ku = crate::order::keys_of(u);
    assert(crate::json::fact_id_key(u[0]) == fid);
    // u[k] for k >= 1 is rest[rest.len() - k]; rest is records without idx.
    assert forall|k: int| 1 <= k < u.len() implies #[trigger] u[k] == rest[rest.len() - k] by {
        assert(u[k] == u.drop_first()[k - 1]);
    }
    if exists|i: int| 0 <= i < out.len() && crate::json::fact_id_key(#[trigger] out[i]) == id {
        let i = choose|i: int| 0 <= i < out.len() && crate::json::fact_id_key(#[trigger] out[i]) == id;
        assert(ko[i] == seq![id]);
        assert(ku.contains(seq![id]));
        let k = choose|k: int| 0 <= k < ku.len() && ku[k] == seq![id];
        assert(u[k].key()[0] == id);
        if k >= 1 {
            let r = rest.len() - k;
            assert(u[k] == rest[r]);
            if idx >= 0 && r >= idx {
                assert(rest[r] == records[r + 1]);
                assert(crate::json::fact_id_key(records[r + 1]) == id);
            } else {
                assert(rest[r] == records[r]);
                assert(crate::json::fact_id_key(records[r]) == id);
            }
        }
    }
    if id == fid || exists|j: int| 0 <= j < records.len() && crate::json::fact_id_key(#[trigger] records[j]) == id {
        let k: int = if id == fid {
            0
        } else {
            let j = choose|j: int| 0 <= j < records.len() && crate::json::fact_id_key(#[trigger] records[j]) == id;
            let r = if idx >= 0 && j > idx { j - 1 } else { j };
            if idx >= 0 && j == idx {
                assert(false);
            }
            assert(rest[r] == records[j]);
            rest.len() - r
        };
        assert(crate::json::fact_id_key(u[k]) == id);
        assert(ku[k] == seq![id]);
        assert(ko.contains(seq![id]));
        let i = choose|i: int| 0 <= i < ko.len() && ko[i] == seq![id];
        assert(out[i].key()[0] == id);
    }
}

} // verus!
