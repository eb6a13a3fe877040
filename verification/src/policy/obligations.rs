//! Whether a diff meets the obligations its plan lists.
use vstd::prelude::*;

use crate::error::{lemma_details_grow, ErrorCode, KbError, KbErrorView};
use crate::facts::{checked_lines, check_fact_lines, parse_views, RecordCheck};
use crate::json::{get_str_field, json_array_text, json_string_list, str_field, JsonValue};
use crate::order::{sort_dedup, sorted_key_set_of, sorted_set, views};
use crate::overlay::module_card_path;
use crate::query::plan::PlanDiffOutput;
use crate::repo::diff::{ChangeKind, DiffPathChange};
use crate::repo::diff_source::{display_text, DiffSource};
use crate::repo::path::{parse_repo_path, RepoPath};
use crate::text::{chars_of, contains_str, copy_str, starts_with, starts_with_lit, str_eq, Chars};

verus! {

/// A change that leaves the path in place: added, modified or renamed to.
pub open spec fn kept_change(k: ChangeKind) -> bool {
    k == ChangeKind::Add || k == ChangeKind::Modify || k == ChangeKind::Rename
}

/// The diff adds, modifies or renames to the path.
pub open spec fn updated_in_diff(changes: Seq<DiffPathChange>, rel: Chars) -> bool {
    exists|i: int| 0 <= i < changes.len() && (#[trigger] changes[i]).path@ == rel && kept_change(changes[i].change_kind)
}

/// Whether the diff adds, modifies or renames to the path.
pub fn path_updated_in_diff(changes: &Vec<DiffPathChange>, rel: &str) -> (b: bool)
    ensures
        b == updated_in_diff(changes@, rel@),
{
    let mut i: usize = 0;
    while i < changes.len()
        invariant
            i <= changes@.len(),
            forall|k: int| 0 <= k < i ==> !((#[trigger] changes@[k]).path@ == rel@ && kept_change(changes@[k].change_kind)),
        decreases changes@.len() - i,
    {
        let c = &changes[i];
        if str_eq(c.path.as_str(), rel) && (c.change_kind == ChangeKind::Add || c.change_kind == ChangeKind::Modify
            || c.change_kind == ChangeKind::Rename) {
            return true;
        }
        i += 1;
    }
    false
}

/// The diff adds, modifies or renames to a path under `kb/sessions/`.
pub open spec fn session_touched(changes: Seq<DiffPathChange>) -> bool {
    exists|i: int| 0 <= i < changes.len() && starts_with((#[trigger] changes[i]).path@, "kb/sessions/"@) && kept_change(changes[i].change_kind)
}

fn session_capsule_touched(changes: &Vec<DiffPathChange>) -> (b: bool)
    ensures
        b == session_touched(changes@),
{
    let mut i: usize = 0;
    while i < changes.len()
        invariant
            i <= changes@.len(),
            forall|k: int| 0 <= k < i ==> !(starts_with((#[trigger] changes@[k]).path@, "kb/sessions/"@) && kept_change(changes@[k].change_kind)),
        decreases changes@.len() - i,
    {
        let c = &changes[i];
        let p = chars_of(c.path.as_str());
        if (c.change_kind == ChangeKind::Add || c.change_kind == ChangeKind::Modify || c.change_kind == ChangeKind::Rename)
            && starts_with_lit(p.as_slice(), "kb/sessions/") {
            return true;
        }
        i += 1;
    }
    false
}

/// Whether a read found the file: found, not found, or a read error.
pub open spec fn read_presence(r: Result<(), KbErrorView>) -> Result<bool, KbErrorView> {
    match r {
        Ok(()) => Ok(true),
        Err(e) => if e.code == ErrorCode::NotFound { Ok(false) } else { Err(e) },
    }
}

pub open spec fn read_views(reads: Seq<Result<(), KbError>>) -> Seq<Result<(), KbErrorView>> {
    reads.map_values(|r: Result<(), KbError>| match r {
        Ok(()) => Ok(()),
        Err(e) => Err(e@),
    })
}

/// The module cards that are missing and those the diff does not update, for
/// the first `cards.len()` required cards; or the first error (a card path
/// that is not a repository path, or a failed read).
pub open spec fn cards_phase(cards: Seq<Chars>, reads: Seq<Result<(), KbErrorView>>, changes: Seq<DiffPathChange>) -> Result<(Seq<Chars>, Seq<Chars>), KbErrorView>
    decreases cards.len(),
{
    if cards.len() == 0 {
        Ok((Seq::empty(), Seq::empty()))
    } else {
        match cards_phase(cards.drop_last(), reads, changes) {
            Err(e) => Err(e),
            Ok((m, u)) => {
                let id = cards.last();
                let rel = module_card_path(id);
                match parse_repo_path(rel) {
                    Err(e) => Err(e),
                    Ok(_) => match read_presence(reads[cards.len() - 1]) {
                        Err(e) => Err(e),
                        Ok(present) => Ok((
                            if present { m } else { m.push(id) },
                            if updated_in_diff(changes, rel) { u } else { u.push(id) },
                        )),
                    },
                }
            },
        }
    }
}

/// The types among `types` that no record has.
pub open spec fn missing_types(types: Seq<Chars>, present: Seq<Chars>) -> Seq<Chars>
    decreases types.len(),
{
    if types.len() == 0 {
        Seq::empty()
    } else {
        missing_types(types.drop_last(), present) + if present.contains(types.last()) {
            Seq::empty()
        } else {
            seq![types.last()]
        }
    }
}

/// The `type` of each record (records without one are skipped).
pub open spec fn record_types(records: Seq<JsonValue>) -> Seq<Chars>
    decreases records.len(),
{
    if records.len() == 0 {
        Seq::empty()
    } else {
        record_types(records.drop_last()) + match str_field(records.last(), "type"@) {
            Some(t) => seq![t],
            None => Seq::empty(),
        }
    }
}

/// The required fact types that are missing and those the diff does not
/// update; or the first error reading the facts file.
pub open spec fn facts_phase(
    types: Seq<Chars>,
    changes: Seq<DiffPathChange>,
    facts: Result<Seq<Result<JsonValue, Chars>>, KbErrorView>,
) -> Result<(Seq<Chars>, Seq<Chars>), KbErrorView> {
    if types.len() == 0 {
        Ok((Seq::empty(), Seq::empty()))
    } else {
        let stale = if updated_in_diff(changes, "kb/facts/facts.jsonl"@) { Seq::empty() } else { types };
        match facts {
            Err(e) => if e.code == ErrorCode::NotFound { Ok((types, stale + types)) } else { Err(e) },
            Ok(lines) => match checked_lines(lines, "failed to parse facts.jsonl"@, RecordCheck::TypeThenId) {
                Err(e) => Err(e),
                Ok(records) => Ok((missing_types(types, record_types(records)), stale)),
            },
        }
    }
}

/// One detail `[key, value]` when the list is not empty: the list as JSON.
pub open spec fn list_detail(key: Chars, items: Seq<Chars>) -> Seq<Seq<Chars>> {
    if items.len() == 0 {
        Seq::empty()
    } else {
        seq![seq![key, json_string_list(sorted_set(items))]]
    }
}

/// What checking obligations comes to: the first error of a read, or `None`
/// when every obligation is met, or the details of the `obligations unmet` error.
pub open spec fn obligations_outcome(
    diff_source: Chars,
    cards: Seq<Chars>,
    types: Seq<Chars>,
    session: bool,
    changes: Seq<DiffPathChange>,
    reads: Seq<Result<(), KbErrorView>>,
    facts: Result<Seq<Result<JsonValue, Chars>>, KbErrorView>,
) -> Result<Option<Seq<Seq<Chars>>>, KbErrorView> {
    match cards_phase(cards, reads, changes) {
        Err(e) => Err(e),
        Ok((mc, mu)) => match facts_phase(types, changes, facts) {
            Err(e) => Err(e),
            Ok((mt, mf)) => {
                let ms = session && !session_touched(changes);
                if mc.len() == 0 && mu.len() == 0 && mt.len() == 0 && mf.len() == 0 && !ms {
                    Ok(None)
                } else {
                    Ok(Some(seq![seq!["diff_source"@, diff_source]] + list_detail("missing_module_cards"@, mc)
                        + list_detail("missing_module_card_updates"@, mu) + list_detail("missing_fact_types"@, mt)
                        + list_detail("missing_fact_updates"@, mf)
                        + if ms { seq![seq!["missing_session_capsule"@, "true"@]] } else { Seq::empty() }))
                }
            },
        },
    }
}

pub open spec fn facts_view(r: Result<Vec<Result<JsonValue, String>>, KbError>) -> Result<Seq<Result<JsonValue, Chars>>, KbErrorView> {
    match r {
        Ok(lines) => Ok(parse_views(lines@)),
        Err(e) => Err(e@),
    }
}

/// Where a module card lives, as a string.
pub fn module_card_rel_path(module_id: &str) -> (s: String)
    ensures
        s@ == module_card_path(module_id@),
{
    let mut s = copy_str("kb/atlas/modules/");
    crate::text::append_str(&mut s, module_id);
    crate::text::append_str(&mut s, ".toml");
    s
}

fn add_list_detail(e: KbError, key: &str, items: &Vec<String>, Ghost(ps): Ghost<Seq<Seq<Chars>>>) -> (r: KbError)
    requires
        sorted_key_set_of(e@.details, ps),
        crate::order::strictly_sorted(views(items@)),
    ensures
        r@.code == e@.code,
        r@.message == e@.message,
        sorted_key_set_of(r@.details, ps + list_detail(key@, views(items@))),
{
    if items.len() == 0 {
        assert(ps + list_detail(key@, views(items@)) =~= ps);
        e
    } else {
        let text = json_array_text(items);
        proof {
            crate::order::lemma_sorted_set_idempotent(views(items@));
        }
        let r = e.with_detail(key, text.as_str());
        proof {
            lemma_details_grow(r@.details, e@.details, ps, key@, text@);
            assert(ps.push(seq![key@, text@]) =~= ps + list_detail(key@, views(items@)));
        }
        r
    }
}

/// Checks that a diff meets the obligations of its plan. `card_reads` holds,
/// for each required module card in order, how reading it went; `facts` is how
/// reading `kb/facts/facts.jsonl` went, line by line (read only when fact types
/// are required). Unmet obligations give one `obligations unmet` error whose
/// details list, as JSON arrays, what is missing.
pub fn obligations_check_at(
    diff_source: &DiffSource,
    plan: &PlanDiffOutput,
    changes: &Vec<DiffPathChange>,
    card_reads: &Vec<Result<(), KbError>>,
    facts: Result<Vec<Result<JsonValue, String>>, KbError>,
) -> (r: Result<(), KbError>)
    requires
        card_reads@.len() == plan.required.module_cards@.len(),
    ensures
        match (r, obligations_outcome(
            display_text(diff_source@),
            views(plan.required.module_cards@),
            views(plan.required.fact_types@),
            plan.required.session_capsule,
            changes@,
            read_views(card_reads@),
            facts_view(facts),
        )) {
            (Ok(()), Ok(None)) => true,
            (Err(e), Err(e2)) => e@ == e2,
            (Err(e), Ok(Some(details))) => e@.code == ErrorCode::InvalidArgument && e@.message == "obligations unmet"@
                && sorted_key_set_of(e@.details, details),
            _ => false,
        },
{
    let cards = &plan.required.module_cards;
    let ghost cv = views(cards@);
    let ghost rv = read_views(card_reads@);
    let mut missing_cards: Vec<String> = Vec::new();
    let mut missing_card_updates: Vec<String> = Vec::new();
    let mut i: usize = 0;
    assert(cv.take(0) =~= Seq::<Chars>::empty());
    assert(views(missing_cards@) =~= Seq::<Chars>::empty());
    assert(views(missing_card_updates@) =~= Seq::<Chars>::empty());
    while i < cards.len()
        invariant
            i <= cards@.len(),
            cards@.len() == card_reads@.len(),
            cv == views(cards@),
            cv == views(plan.required.module_cards@),
            rv == read_views(card_reads@),
            cards_phase(cv.take(i as int), rv, changes@) == Ok::<(Seq<Chars>, Seq<Chars>), KbErrorView>((views(missing_cards@), views(missing_card_updates@))),
        decreases cards@.len() - i,
    {
        let id = &cards[i];
        assert(cv.take(i + 1).drop_last() =~= cv.take(i as int));
        assert(cv.take(i + 1).last() == id@);
        let rel = module_card_rel_path(id.as_str());
        match RepoPath::parse(rel.as_str()) {
            Err(e) => {
                proof {
                    lemma_cards_error_stays(cv, rv, changes@, i + 1, e@);
                    assert(cv == views(plan.required.module_cards@));
                    assert(rv == read_views(card_reads@));
                    assert(cards_phase(cv, rv, changes@) == Err::<(Seq<Chars>, Seq<Chars>), KbErrorView>(e@));
                }
                return Err(e);
            },
            Ok(_) => {},
        }
        let present = match &card_reads[i] {
            Ok(()) => true,
            Err(e) => if e.code == ErrorCode::NotFound {
                false
            } else {
                let e2 = e.duplicate();
                proof {
                    lemma_cards_error_stays(cv, rv, changes@, i + 1, e2@);
                }
                return Err(e2);
            },
        };
        let ghost pm = views(missing_cards@);
        let ghost pu = views(missing_card_updates@);
        if !present {
            missing_cards.push(id.clone());
            assert(views(missing_cards@) =~= pm.push(id@));
        }
        if !path_updated_in_diff(changes, rel.as_str()) {
            missing_card_updates.push(id.clone());
            assert(views(missing_card_updates@) =~= pu.push(id@));
        }
        i += 1;
    }
    assert(cv.take(cards@.len() as int) =~= cv);
    let types = &plan.required.fact_types;
    let ghost tv = views(types@);
    let ghost fv = facts_view(facts);
    let mut missing_types_v: Vec<String> = Vec::new();
    let mut missing_updates: Vec<String> = Vec::new();
    if types.len() > 0 {
        if !path_updated_in_diff(changes, "kb/facts/facts.jsonl") {
            crate::text::extend_strings(&mut missing_updates, types);
            assert(views(missing_updates@) =~= tv);
        } else {
            assert(views(missing_updates@) =~= Seq::<Chars>::empty());
        }
        let ghost stale = views(missing_updates@);
        match facts {
            Err(e) => {
                if e.code == ErrorCode::NotFound {
                    crate::text::extend_strings(&mut missing_types_v, types);
                    crate::text::extend_strings(&mut missing_updates, types);
                    assert(views(missing_types_v@) =~= tv);
                } else {
                    return Err(e);
                }
            },
            Ok(lines) => {
                let records = check_fact_lines(lines, "failed to parse facts.jsonl", RecordCheck::TypeThenId)?;
                let mut present: Vec<String> = Vec::new();
                let mut k: usize = 0;
                while k < records.len()
                    invariant
                        k <= records@.len(),
                        views(present@) == record_types(records@.take(k as int)),
                    decreases records@.len() - k,
                {
                    assert(records@.take(k + 1).drop_last() =~= records@.take(k as int));
                    let ghost pp = views(present@);
                    match get_str_field(&records[k], "type") {
                        Some(t) => {
                            present.push(copy_str(t));
                            assert(views(present@) =~= pp + seq![t@]);
                        },
                        None => {
                            assert(views(present@) =~= pp + Seq::<Chars>::empty());
                        },
                    }
                    k += 1;
                }
                assert(records@.take(records@.len() as int) =~= records@);
                let mut j: usize = 0;
                while j < types.len()
                    invariant
                        j <= types@.len(),
                        tv == views(types@),
                        views(present@) == record_types(records@),
                        views(missing_types_v@) == missing_types(tv.take(j as int), record_types(records@)),
                    decreases types@.len() - j,
                {
                    assert(tv.take(j + 1).drop_last() =~= tv.take(j as int));
                    assert(tv.take(j + 1).last() == types@[j as int]@);
                    let ghost pm = views(missing_types_v@);
                    if !contains_str(&present, types[j].as_str()) {
                        missing_types_v.push(types[j].clone());
                        assert(views(missing_types_v@) =~= pm + seq![types@[j as int]@]);
                    } else {
                        assert(views(missing_types_v@) =~= pm + Seq::<Chars>::empty());
                    }
                    j += 1;
                }
                assert(tv.take(types@.len() as int) =~= tv);
            },
        }
    } else {
        assert(views(missing_types_v@) =~= Seq::<Chars>::empty());
        assert(views(missing_updates@) =~= Seq::<Chars>::empty());
    }
    let missing_session = plan.required.session_capsule && !session_capsule_touched(changes);
    if missing_cards.len() == 0 && missing_card_updates.len() == 0 && missing_types_v.len() == 0
        && missing_updates.len() == 0 && !missing_session {
        return Ok(());
    }
    let ghost mc = views(missing_cards@);
    let ghost mu = views(missing_card_updates@);
    let ghost mt = views(missing_types_v@);
    let ghost mf = views(missing_updates@);
    let mc_sorted = sort_dedup(missing_cards);
    let mu_sorted = sort_dedup(missing_card_updates);
    let mt_sorted = sort_dedup(missing_types_v);
    let mf_sorted = sort_dedup(missing_updates);
    proof {
        crate::order::lemma_sorted_set_of_is(views(mc_sorted@), mc);
        crate::order::lemma_sorted_set_of_is(views(mu_sorted@), mu);
        crate::order::lemma_sorted_set_of_is(views(mt_sorted@), mt);
        crate::order::lemma_sorted_set_of_is(views(mf_sorted@), mf);
    }
    let display = diff_source.as_display();
    let e0 = KbError::invalid_with_detail("obligations unmet", "diff_source", display.as_str());
    let ghost p0 = seq![seq!["diff_source"@, display@]];
    assert(sorted_key_set_of(e0@.details, p0)) by {
        assert(e0@.details == p0);
        assert(Seq::<Seq<Chars>>::empty().push(seq!["diff_source"@, display@]) =~= p0);
    }
    let e1 = add_list_detail(e0, "missing_module_cards", &mc_sorted, Ghost(p0));
    let e2 = add_list_detail(e1, "missing_module_card_updates", &mu_sorted, Ghost(p0 + crate::policy::obligations::list_detail("missing_module_cards"@, views(mc_sorted@))));
    let ghost p2 = p0 + list_detail("missing_module_cards"@, views(mc_sorted@)) + list_detail("missing_module_card_updates"@, views(mu_sorted@));
    let e3 = add_list_detail(e2, "missing_fact_types", &mt_sorted, Ghost(p2));
    let ghost p3 = p2 + list_detail("missing_fact_types"@, views(mt_sorted@));
    let e4 = add_list_detail(e3, "missing_fact_updates", &mf_sorted, Ghost(p3));
    let ghost p4 = p3 + list_detail("missing_fact_updates"@, views(mf_sorted@));
    if missing_session {
        let e5 = e4.with_detail("missing_session_capsule", "true");
        proof {
            lemma_details_grow(e5@.details, e4@.details, p4, "missing_session_capsule"@, "true"@);
            lemma_list_detail_sorted("missing_module_cards"@, mc);
            lemma_list_detail_sorted("missing_module_card_updates"@, mu);
            lemma_list_detail_sorted("missing_fact_types"@, mt);
            lemma_list_detail_sorted("missing_fact_updates"@, mf);
            assert(p4.push(seq!["missing_session_capsule"@, "true"@]) =~= p4 + seq![seq!["missing_session_capsule"@, "true"@]]);
        }
        Err(e5)
    } else {
        proof {
            lemma_list_detail_sorted("missing_module_cards"@, mc);
            lemma_list_detail_sorted("missing_module_card_updates"@, mu);
            lemma_list_detail_sorted("missing_fact_types"@, mt);
            lemma_list_detail_sorted("missing_fact_updates"@, mf);
            assert(p4 + Seq::<Seq<Chars>>::empty() =~= p4);
        }
        Err(e4)
    }
}

/// The detail of a list is the same for the list and for its sorted set.
proof fn lemma_list_detail_sorted(key: Chars, items: Seq<Chars>)
    ensures
        list_detail(key, sorted_set(items)) == list_detail(key, items),
{
    let s = sorted_set(items);
    crate::order::lemma_sorted_set_exists(items);
    crate::order::lemma_sorted_set_idempotent(s);
    if items.len() > 0 {
        assert(items.contains(items[0]));
        assert(s.contains(items[0]));
    }
    if s.len() > 0 {
        assert(s.contains(s[0]));
    }
}

proof fn lemma_cards_error_stays(cards: Seq<Chars>, reads: Seq<Result<(), KbErrorView>>, changes: Seq<DiffPathChange>, n: int, e: KbErrorView)
    requires
        0 <= n <= cards.len(),
        cards_phase(cards.take(n), reads, changes) == Err::<(Seq<Chars>, Seq<Chars>), KbErrorView>(e),
    ensures
        cards_phase(cards, reads, changes) == Err::<(Seq<Chars>, Seq<Chars>), KbErrorView>(e),
    decreases cards.len() - n,
{
    if n < cards.len() {
        assert(cards.take(n + 1).drop_last() =~= cards.take(n));
        lemma_cards_error_stays(cards, reads, changes, n + 1, e);
    } else {
        assert(cards.take(n) =~= cards);
    }
}

} // verus!

verus! {

/// Obligations are met when every required module card exists and the diff
/// updates it, the diff updates `kb/facts/facts.jsonl` and its records hold
/// every required fact type, and the diff touches a session capsule when one
/// is required.
pub proof fn law_obligations_met(
    diff_source: Chars,
    cards: Seq<Chars>,
    types: Seq<Chars>,
    session: bool,
    changes: Seq<DiffPathChange>,
    reads: Seq<Result<(), KbErrorView>>,
    lines: Seq<Result<JsonValue, Chars>>,
    records: Seq<JsonValue>,
)
    requires
        reads.len() == cards.len(),
        forall|i: int| 0 <= i < cards.len() ==> #[trigger] reads[i] == Ok::<(), KbErrorView>(()),
        forall|i: int| 0 <= i < cards.len() ==> parse_repo_path(module_card_path(#[trigger] cards[i])) is Ok,
        forall|i: int| 0 <= i < cards.len() ==> updated_in_diff(changes, module_card_path(#[trigger] cards[i])),
        types.len() > 0 ==> updated_in_diff(changes, "kb/facts/facts.jsonl"@),
        types.len() > 0 ==> checked_lines(lines, "failed to parse facts.jsonl"@, RecordCheck::TypeThenId)
            == Ok::<Seq<JsonValue>, KbErrorView>(records),
        forall|i: int| 0 <= i < types.len() ==> record_types(records).contains(#[trigger] types[i]),
        session ==> session_touched(changes),
    ensures
        obligations_outcome(diff_source, cards, types, session, changes, reads, Ok(lines)) == Ok::<
            Option<Seq<Seq<Chars>>>,
            KbErrorView,
        >(None),
{
    lemma_cards_met(cards, reads, changes, cards.len() as int);
    assert(cards.take(cards.len() as int) =~= cards);
    lemma_types_met(types, record_types(records), types.len() as int);
    assert(types.take(types.len() as int) =~= types);
}

proof fn lemma_cards_met(cards: Seq<Chars>, reads: Seq<Result<(), KbErrorView>>, changes: Seq<DiffPathChange>, n: int)
    requires
        0 <= n <= cards.len(),
        reads.len() == cards.len(),
        forall|i: int| 0 <= i < cards.len() ==> #[trigger] reads[i] == Ok::<(), KbErrorView>(()),
        forall|i: int| 0 <= i < cards.len() ==> parse_repo_path(module_card_path(#[trigger] cards[i])) is Ok,
        forall|i: int| 0 <= i < cards.len() ==> updated_in_diff(changes, module_card_path(#[trigger] cards[i])),
    ensures
        cards_phase(cards.take(n), reads, changes) == Ok::<(Seq<Chars>, Seq<Chars>), KbErrorView>((Seq::empty(), Seq::empty())),
    decreases n,
{
    if n > 0 {
        lemma_cards_met(cards, reads, changes, n - 1);
        let c = cards.take(n);
        assert(c.drop_last() =~= cards.take(n - 1));
        assert(c.last() == cards[n - 1]);
        assert(reads[n - 1] == Ok::<(), KbErrorView>(()));
        assert(parse_repo_path(module_card_path(cards[n - 1])) is Ok);
        assert(updated_in_diff(changes, module_card_path(cards[n - 1])));
    }
}

proof fn lemma_types_met(types: Seq<Chars>, present: Seq<Chars>, n: int)
    requires
        0 <= n <= types.len(),
        forall|i: int| 0 <= i < types.len() ==> present.contains(#[trigger] types[i]),
    ensures
        missing_types(types.take(n), present) == Seq::<Chars>::empty(),
    decreases n,
{
    if n > 0 {
        lemma_types_met(types, present, n - 1);
        let t = types.take(n);
        assert(t.drop_last() =~= types.take(n - 1));
        assert(t.last() == types[n - 1]);
        assert(present.contains(types[n - 1]));
        assert(Seq::<Chars>::empty() + Seq::<Chars>::empty() =~= Seq::<Chars>::empty());
    }
}

} // verus!

verus! {

/// With every card path valid and every card read either found or not
/// found, the cards phase succeeds, and each card the diff does not update
/// is among those it reports as not updated.
proof fn lemma_cards_unupdated(cards: Seq<Chars>, reads: Seq<Result<(), KbErrorView>>, changes: Seq<DiffPathChange>, n: int)
    requires
        0 <= n <= cards.len(),
        reads.len() == cards.len(),
        forall|j: int| 0 <= j < cards.len() ==> parse_repo_path(module_card_path(#[trigger] cards[j])) is Ok,
        forall|j: int| 0 <= j < reads.len() ==> (#[trigger] reads[j] is Ok || reads[j]->Err_0.code == ErrorCode::NotFound),
    ensures
        cards_phase(cards.take(n), reads, changes) is Ok,
        forall|i: int|
            0 <= i < n && !updated_in_diff(changes, module_card_path(#[trigger] cards[i])) ==> (cards_phase(
                cards.take(n),
                reads,
                changes,
            )->Ok_0).1.contains(cards[i]),
    decreases n,
{
    if n > 0 {
        lemma_cards_unupdated(cards, reads, changes, n - 1);
        let c = cards.take(n);
        assert(c.drop_last() =~= cards.take(n - 1));
        assert(c.last() == cards[n - 1]);
        assert(parse_repo_path(module_card_path(cards[n - 1])) is Ok);
        assert(reads[n - 1] is Ok || reads[n - 1]->Err_0.code == ErrorCode::NotFound);
        let (m, u) = cards_phase(cards.take(n - 1), reads, changes)->Ok_0;
        let u2 = (cards_phase(c, reads, changes)->Ok_0).1;
        assert(u2 == if updated_in_diff(changes, module_card_path(cards[n - 1])) { u } else { u.push(cards[n - 1]) });
        assert forall|i: int|
            0 <= i < n && !updated_in_diff(changes, module_card_path(#[trigger] cards[i])) implies u2.contains(cards[i]) by {
            if i < n - 1 {
                assert(u.contains(cards[i]));
                let k = choose|k: int| 0 <= k < u.len() && u[k] == cards[i];
                if !updated_in_diff(changes, module_card_path(cards[n - 1])) {
                    assert(u2[k] == cards[i]);
                }
            } else {
                assert(u2[u.len() as int] == cards[i]);
            }
        }
    }
}

/// A required module card that the diff does not add, modify or rename to
/// leaves the obligations unmet, whether or not the card exists: the
/// outcome is the `obligations unmet` details, and their
/// `missing_module_card_updates` list holds the card's id. (Read errors
/// other than a missing file, a card id that makes no repository path, and
/// a failed facts read come first and are left out.)
pub proof fn law_unupdated_card_is_reported(
    diff_source: Chars,
    cards: Seq<Chars>,
    types: Seq<Chars>,
    session: bool,
    changes: Seq<DiffPathChange>,
    reads: Seq<Result<(), KbErrorView>>,
    facts: Result<Seq<Result<JsonValue, Chars>>, KbErrorView>,
    i: int,
)
    requires
        reads.len() == cards.len(),
        forall|j: int| 0 <= j < cards.len() ==> parse_repo_path(module_card_path(#[trigger] cards[j])) is Ok,
        forall|j: int| 0 <= j < reads.len() ==> (#[trigger] reads[j] is Ok || reads[j]->Err_0.code == ErrorCode::NotFound),
        facts_phase(types, changes, facts) is Ok,
        0 <= i < cards.len(),
        !updated_in_diff(changes, module_card_path(cards[i])),
    ensures
        obligations_outcome(diff_source, cards, types, session, changes, reads, facts) matches Ok(Some(d)) && exists|l: Seq<Chars>|
            l.contains(cards[i]) && d.contains(seq!["missing_module_card_updates"@, #[trigger] json_string_list(l)]),
{
    lemma_cards_unupdated(cards, reads, changes, cards.len() as int);
    assert(cards.take(cards.len() as int) =~= cards);
    let (mc, mu) = cards_phase(cards, reads, changes)->Ok_0;
    let (mt, mf) = facts_phase(types, changes, facts)->Ok_0;
    assert(mu.contains(cards[i]));
    assert(mu.len() > 0);
    let l = sorted_set(mu);
    crate::order::lemma_sorted_set_exists(mu);
    assert(l.contains(cards[i]));
    let x = seq!["missing_module_card_updates"@, json_string_list(l)];
    let a = seq![seq!["diff_source"@, diff_source]] + list_detail("missing_module_cards"@, mc);
    let b = list_detail("missing_module_card_updates"@, mu);
    assert(b == seq![x]);
    assert(b[0] == x);
    crate::text::lemma_contains_concat(a, b, x);
    let ms = session && !session_touched(changes);
    let rest = list_detail("missing_fact_types"@, mt) + list_detail("missing_fact_updates"@, mf)
        + if ms { seq![seq!["missing_session_capsule"@, "true"@]] } else { Seq::empty() };
    let c1 = list_detail("missing_fact_types"@, mt);
    let c2 = list_detail("missing_fact_updates"@, mf);
    let c3: Seq<Seq<Chars>> = if ms { seq![seq!["missing_session_capsule"@, "true"@]] } else { Seq::empty() };
    crate::text::lemma_contains_concat(a + b, c1, x);
    crate::text::lemma_contains_concat(a + b + c1, c2, x);
    crate::text::lemma_contains_concat(a + b + c1 + c2, c3, x);
    let d = obligations_outcome(diff_source, cards, types, session, changes, reads, facts)->Ok_0->Some_0;
    assert(d == a + b + c1 + c2 + c3);
    assert(d.contains(x));
}

} // verus!

verus! {

proof fn lemma_cards_clean(cards: Seq<Chars>, reads: Seq<Result<(), KbErrorView>>, changes: Seq<DiffPathChange>, n: int)
    requires
        0 <= n <= cards.len(),
        cards_phase(cards.take(n), reads, changes) is Ok,
        (cards_phase(cards.take(n), reads, changes)->Ok_0).0.len() == 0,
        (cards_phase(cards.take(n), reads, changes)->Ok_0).1.len() == 0,
    ensures
        forall|i: int| 0 <= i < n ==> (#[trigger] reads[i]) is Ok && updated_in_diff(changes, module_card_path(cards[i])),
    decreases n,
{
    if n > 0 {
        let c = cards.take(n);
        assert(c.drop_last() =~= cards.take(n - 1));
        assert(c.last() == cards[n - 1]);
        let (m, u) = cards_phase(cards.take(n - 1), reads, changes)->Ok_0;
        assert(read_presence(reads[n - 1]) == Ok::<bool, KbErrorView>(true));
        lemma_cards_clean(cards, reads, changes, n - 1);
    }
}

proof fn lemma_no_missing_types(types: Seq<Chars>, present: Seq<Chars>)
    requires
        missing_types(types, present).len() == 0,
    ensures
        forall|i: int| 0 <= i < types.len() ==> present.contains(#[trigger] types[i]),
    decreases types.len(),
{
    if types.len() > 0 {
        let tail: Seq<Chars> = if present.contains(types.last()) { Seq::empty() } else { seq![types.last()] };
        assert(missing_types(types, present) == missing_types(types.drop_last(), present) + tail);
        lemma_no_missing_types(types.drop_last(), present);
        assert forall|i: int| 0 <= i < types.len() implies present.contains(#[trigger] types[i]) by {
            if i < types.len() - 1 {
                assert(types.drop_last()[i] == types[i]);
            }
        }
    }
}

/// Obligations are met only when all of them are: every required module
/// card was found and the diff adds, modifies or renames to it; when fact
/// types are required, the diff updates `kb/facts/facts.jsonl`, its lines
/// parse, and its records hold every required type; and when a session
/// capsule is required, the diff touches one under `kb/sessions/`.
pub proof fn law_obligations_met_only_when_all_done(
    diff_source: Chars,
    cards: Seq<Chars>,
    types: Seq<Chars>,
    session: bool,
    changes: Seq<DiffPathChange>,
    reads: Seq<Result<(), KbErrorView>>,
    facts: Result<Seq<Result<JsonValue, Chars>>, KbErrorView>,
)
    requires
        obligations_outcome(diff_source, cards, types, session, changes, reads, facts) == Ok::<
            Option<Seq<Seq<Chars>>>,
            KbErrorView,
        >(None),
    ensures
        forall|i: int| 0 <= i < cards.len() ==> (#[trigger] reads[i]) is Ok && updated_in_diff(changes, module_card_path(cards[i])),
        types.len() > 0 ==> {
            &&& updated_in_diff(changes, "kb/facts/facts.jsonl"@)
            &&& facts is Ok
            &&& checked_lines(facts->Ok_0, "failed to parse facts.jsonl"@, RecordCheck::TypeThenId) is Ok
            &&& forall|i: int|
                0 <= i < types.len() ==> record_types(
                    checked_lines(facts->Ok_0, "failed to parse facts.jsonl"@, RecordCheck::TypeThenId)->Ok_0,
                ).contains(#[trigger] types[i])
        },
        session ==> session_touched(changes),
{
    assert(cards.take(cards.len() as int) =~= cards);
    lemma_cards_clean(cards, reads, changes, cards.len() as int);
    if types.len() > 0 {
        let (mt, mf) = facts_phase(types, changes, facts)->Ok_0;
        assert(mt.len() == 0 && mf.len() == 0);
        if !updated_in_diff(changes, "kb/facts/facts.jsonl"@) {
            assert(types[0] == types[0]);
            match facts {
                Err(e) => {
                    assert(mf == types + types);
                },
                Ok(lines) => {
                    assert(mf == types);
                },
            }
        }
        match facts {
            Err(e) => {
                assert(mt == types);
            },
            Ok(lines) => {
                let records = checked_lines(lines, "failed to parse facts.jsonl"@, RecordCheck::TypeThenId)->Ok_0;
                lemma_no_missing_types(types, record_types(records));
            },
        }
    }
}

proof fn lemma_cards_absent(cards: Seq<Chars>, reads: Seq<Result<(), KbErrorView>>, changes: Seq<DiffPathChange>, n: int)
    requires
        0 <= n <= cards.len(),
        reads.len() == cards.len(),
        forall|j: int| 0 <= j < cards.len() ==> parse_repo_path(module_card_path(#[trigger] cards[j])) is Ok,
        forall|j: int| 0 <= j < reads.len() ==> (#[trigger] reads[j] is Ok || reads[j]->Err_0.code == ErrorCode::NotFound),
    ensures
        cards_phase(cards.take(n), reads, changes) is Ok,
        forall|i: int|
            0 <= i < n && #[trigger] reads[i] is Err ==> (cards_phase(cards.take(n), reads, changes)->Ok_0).0.contains(cards[i]),
    decreases n,
{
    if n > 0 {
        lemma_cards_absent(cards, reads, changes, n - 1);
        let c = cards.take(n);
        assert(c.drop_last() =~= cards.take(n - 1));
        assert(c.last() == cards[n - 1]);
        assert(parse_repo_path(module_card_path(cards[n - 1])) is Ok);
        assert(reads[n - 1] is Ok || reads[n - 1]->Err_0.code == ErrorCode::NotFound);
        let (m, u) = cards_phase(cards.take(n - 1), reads, changes)->Ok_0;
        let m2 = (cards_phase(c, reads, changes)->Ok_0).0;
        assert(m2 == if reads[n - 1] is Ok { m } else { m.push(cards[n - 1]) });
        assert forall|i: int| 0 <= i < n && #[trigger] reads[i] is Err implies m2.contains(cards[i]) by {
            if i < n - 1 {
                assert(m.contains(cards[i]));
                let k = choose|k: int| 0 <= k < m.len() && m[k] == cards[i];
                if reads[n - 1] is Err {
                    assert(m2[k] == cards[i]);
                }
            } else {
                assert(m2[m.len() as int] == cards[i]);
            }
        }
    }
}

/// A required module card that is not found leaves the obligations unmet:
/// the outcome is the `obligations unmet` details, and their
/// `missing_module_cards` list holds the card's id. (Other read errors, a
/// card id that makes no repository path, and a failed facts read come
/// first and are left out.)
pub proof fn law_missing_card_is_reported(
    diff_source: Chars,
    cards: Seq<Chars>,
    types: Seq<Chars>,
    session: bool,
    changes: Seq<DiffPathChange>,
    reads: Seq<Result<(), KbErrorView>>,
    facts: Result<Seq<Result<JsonValue, Chars>>, KbErrorView>,
    i: int,
)
    requires
        reads.len() == cards.len(),
        forall|j: int| 0 <= j < cards.len() ==> parse_repo_path(module_card_path(#[trigger] cards[j])) is Ok,
        forall|j: int| 0 <= j < reads.len() ==> (#[trigger] reads[j] is Ok || reads[j]->Err_0.code == ErrorCode::NotFound),
        facts_phase(types, changes, facts) is Ok,
        0 <= i < cards.len(),
        reads[i] is Err,
    ensures
        obligations_outcome(diff_source, cards, types, session, changes, reads, facts) matches Ok(Some(d)) && exists|l: Seq<Chars>|
            l.contains(cards[i]) && d.contains(seq!["missing_module_cards"@, #[trigger] json_string_list(l)]),
{
    lemma_cards_absent(cards, reads, changes, cards.len() as int);
    assert(cards.take(cards.len() as int) =~= cards);
    let (mc, mu) = cards_phase(cards, reads, changes)->Ok_0;
    let (mt, mf) = facts_phase(types, changes, facts)->Ok_0;
    assert(mc.contains(cards[i]));
    let l = sorted_set(mc);
    crate::order::lemma_sorted_set_exists(mc);
    assert(l.contains(cards[i]));
    let x = seq!["missing_module_cards"@, json_string_list(l)];
    let a = seq![seq!["diff_source"@, diff_source]];
    let b = list_detail("missing_module_cards"@, mc);
    assert(b == seq![x]);
    assert(b[0] == x);
    crate::text::lemma_contains_concat(a, b, x);
    let ms = session && !session_touched(changes);
    let c0 = list_detail("missing_module_card_updates"@, mu);
    let c1 = list_detail("missing_fact_types"@, mt);
    let c2 = list_detail("missing_fact_updates"@, mf);
    let c3: Seq<Seq<Chars>> = if ms { seq![seq!["missing_session_capsule"@, "true"@]] } else { Seq::empty() };
    crate::text::lemma_contains_concat(a + b, c0, x);
    crate::text::lemma_contains_concat(a + b + c0, c1, x);
    crate::text::lemma_contains_concat(a + b + c0 + c1, c2, x);
    crate::text::lemma_contains_concat(a + b + c0 + c1 + c2, c3, x);
    let d = obligations_outcome(diff_source, cards, types, session, changes, reads, facts)->Ok_0->Some_0;
    assert(d == a + b + c0 + c1 + c2 + c3);
    assert(d.contains(x));
}

/// A required session capsule that the diff does not touch leaves the
/// obligations unmet, with the detail `missing_session_capsule` = `true`
/// (when the card and fact reads do not fail first).
pub proof fn law_missing_session_is_reported(
    diff_source: Chars,
    cards: Seq<Chars>,
    types: Seq<Chars>,
    changes: Seq<DiffPathChange>,
    reads: Seq<Result<(), KbErrorView>>,
    facts: Result<Seq<Result<JsonValue, Chars>>, KbErrorView>,
)
    requires
        cards_phase(cards, reads, changes) is Ok,
        facts_phase(types, changes, facts) is Ok,
        !session_touched(changes),
    ensures
        obligations_outcome(diff_source, cards, types, true, changes, reads, facts) matches Ok(Some(d)) && d.contains(
            seq!["missing_session_capsule"@, "true"@],
        ),
{
    let (mc, mu) = cards_phase(cards, reads, changes)->Ok_0;
    let (mt, mf) = facts_phase(types, changes, facts)->Ok_0;
    let x = seq!["missing_session_capsule"@, "true"@];
    let a = seq![seq!["diff_source"@, diff_source]] + list_detail("missing_module_cards"@, mc) + list_detail(
        "missing_module_card_updates"@,
        mu,
    ) + list_detail("missing_fact_types"@, mt) + list_detail("missing_fact_updates"@, mf);
    let b = seq![x];
    assert(b[0] == x);
    crate::text::lemma_contains_concat(a, b, x);
    let d = obligations_outcome(diff_source, cards, types, true, changes, reads, facts)->Ok_0->Some_0;
    assert(d == a + b);
}

} // verus!
