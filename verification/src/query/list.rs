//! Sorted, typed listings of tags, modules, facts and symbols.
use vstd::prelude::*;

use crate::config::tags::{
    entry_ids, known_tag_ids_at, tags_check, tags_load_view, validate_tag_at, TagsConfig,
};
use crate::error::{ErrorCode, KbError, KbErrorView};
use crate::facts::{record_check, check_record, parse_views, RecordCheck};
use crate::index::artifacts::{opt_view, symbol_views, SymbolRecord, SymbolRecordView};
use crate::json::{get_str_field, str_field, string_items, string_items_of, field_lookup, object_fields, JsonValue};
use crate::order::{
    key_view, sort_dedup, sort_unique_by_key, sorted_key_set_of, sorted_set, sorted_unique_views, views, SortKey,
};
use crate::query::module_card::{ModuleCardToml, ModuleCardView};
use crate::query::read::{collect_parsed, collected};
use crate::repo::path::{parse_repo_path, RepoPath};
use crate::text::{chars_of, contains_str, copy_str, join, join_strings, str_eq, Chars};

verus! {

/// The known tags.
#[derive(Debug)]
pub struct ListTagsOutput {
    pub tags: Vec<String>,
}

/// Lists the tags of the registry, sorted, once each (none without a registry).
pub fn list_tags_at(loaded: Result<Option<TagsConfig>, KbError>) -> (r: Result<ListTagsOutput, KbError>)
    ensures
        match (tags_load_view(loaded), r) {
            (Err(e1), Err(e2)) => e1 == e2@,
            (Ok(None), Ok(out)) => out.tags@.len() == 0,
            (Ok(Some(entries)), Ok(out)) => views(out.tags@) == sorted_set(entry_ids(entries)),
            _ => false,
        },
{
    match known_tag_ids_at(loaded)? {
        None => Ok(ListTagsOutput { tags: Vec::new() }),
        Some(ids) => {
            proof {
                let entries = tags_load_view(loaded)->Ok_0->Some_0;
                crate::order::lemma_sorted_set_of_is(views(ids@), entry_ids(entries));
            }
            Ok(ListTagsOutput { tags: ids })
        },
    }
}

/// The tags, one per line.
pub fn list_tags_text(out: &ListTagsOutput) -> (s: String)
    ensures
        s@ == join(views(out.tags@), "\n"@),
{
    join_strings(&out.tags, "\n")
}

/// A module and its title.
#[derive(Debug)]
pub struct ModuleListEntry {
    pub module_id: String,
    pub title: String,
}

impl View for ModuleListEntry {
    type V = (Chars, Chars);

    open spec fn view(&self) -> (Chars, Chars) {
        (self.module_id@, self.title@)
    }
}

impl SortKey for ModuleListEntry {
    open spec fn key(&self) -> Seq<Chars> {
        seq![self.module_id@]
    }

    fn exec_key(&self) -> (k: Vec<Vec<char>>) {
        let mut k: Vec<Vec<char>> = Vec::new();
        k.push(chars_of(self.module_id.as_str()));
        assert(key_view(k) =~= seq![self.module_id@]);
        k
    }
}

/// The modules that match the filters.
#[derive(Debug)]
pub struct ListModulesOutput {
    pub modules: Vec<ModuleListEntry>,
}

pub open spec fn entry_file_path(stem: Chars) -> Chars {
    "kb/atlas/modules/"@ + stem + ".toml"@
}

/// The (id, title) of the cards that match the filters, in file order; or the
/// first error: a card that could not be read or parsed, or whose id is not
/// its file's name (`Err(None)` stands for that error, with its file and id).
pub open spec fn module_entries(
    cards: Seq<Result<(Chars, ModuleCardView), KbErrorView>>,
    tag: Option<Chars>,
    owner: Option<Chars>,
) -> Result<Seq<(Chars, Chars)>, Option<(Chars, Chars)>>
    decreases cards.len(),
{
    if cards.len() == 0 {
        Ok(Seq::empty())
    } else {
        match module_entries(cards.drop_last(), tag, owner) {
            Err(e) => Err(e),
            Ok(done) => match cards.last() {
                Err(_) => Err(None),
                Ok((stem, c)) => if c.id != stem {
                    Err(Some((stem, c.id)))
                } else if tag is Some && !c.tags.contains(tag.unwrap()) {
                    Ok(done)
                } else if owner is Some && !c.owners.contains(owner.unwrap()) {
                    Ok(done)
                } else {
                    Ok(done.push((c.id, c.title)))
                },
            },
        }
    }
}

/// The first card in file order that could not be read or parsed.
pub open spec fn first_card_error(cards: Seq<Result<(Chars, ModuleCardView), KbErrorView>>) -> Option<KbErrorView>
    decreases cards.len(),
{
    if cards.len() == 0 {
        None
    } else if module_entries(cards.drop_last(), None, None) is Err {
        first_card_error(cards.drop_last())
    } else {
        match cards.last() {
            Err(e) => Some(e),
            Ok(_) => None,
        }
    }
}

pub open spec fn listed_card_views(cards: Seq<Result<(String, ModuleCardToml), KbError>>) -> Seq<Result<(Chars, ModuleCardView), KbErrorView>> {
    cards.map_values(|r: Result<(String, ModuleCardToml), KbError>| match r {
        Ok((stem, c)) => Ok((stem@, c@)),
        Err(e) => Err(e@),
    })
}

proof fn lemma_entries_filters_irrelevant(cards: Seq<Result<(Chars, ModuleCardView), KbErrorView>>, tag: Option<Chars>, owner: Option<Chars>)
    ensures
        module_entries(cards, tag, owner) is Err <==> module_entries(cards, None, None) is Err,
        module_entries(cards, tag, owner) is Err ==> module_entries(cards, tag, owner) == module_entries(cards, None, None),
    decreases cards.len(),
{
    if cards.len() > 0 {
        lemma_entries_filters_irrelevant(cards.drop_last(), tag, owner);
    }
}

/// Lists the modules whose cards carry the tag and the owner (when given),
/// sorted by id, one entry per id. `cards` holds each card file (by name) of
/// `kb/atlas/modules`, in name order, with its stem, read and parsed.
pub fn list_modules_at(
    tag: Option<String>,
    owner: Option<String>,
    tags_loaded: Result<Option<TagsConfig>, KbError>,
    cards: Result<Vec<Result<(String, ModuleCardToml), KbError>>, KbError>,
) -> (r: Result<ListModulesOutput, KbError>)
    ensures
        tag is Some && tags_check(tags_load_view(tags_loaded), seq![tag.unwrap()@]) is Err ==> (r matches Err(e)
            && tags_check(tags_load_view(tags_loaded), seq![tag.unwrap()@]) == Err::<(), KbErrorView>(e@)),
        !(tag is Some && tags_check(tags_load_view(tags_loaded), seq![tag.unwrap()@]) is Err) ==> match cards {
            Err(e) => (r matches Err(e2) && e2@ == e@),
            Ok(cs) => match module_entries(listed_card_views(cs@), opt_view(tag), opt_view(owner)) {
                Ok(entries) => (r matches Ok(out) && sorted_unique_views(out.modules@, entries)),
                Err(None) => (r matches Err(e) && Some(e@) == first_card_error(listed_card_views(cs@))),
                Err(Some((stem, id))) => (r matches Err(e) && e@.code == ErrorCode::InvalidArgument
                    && e@.message == "module card id must match filename"@
                    && sorted_key_set_of(e@.details, seq![seq!["file"@, entry_file_path(stem)], seq!["id"@, id]])),
            },
        },
{
    match &tag {
        Some(t) => validate_tag_at(tags_loaded, t.as_str())?,
        None => {},
    }
    let ghost tag_passes = !(tag is Some && tags_check(tags_load_view(tags_loaded), seq![tag.unwrap()@]) is Err);
    assert(tag_passes);
    let list = match cards {
        Err(e) => return Err(e),
        Ok(l) => l,
    };
    let ghost cv = listed_card_views(list@);
    assert(cards is Ok && listed_card_views(cards->Ok_0@) == cv);
    let ghost tv = opt_view(tag);
    let ghost ov = opt_view(owner);
    let mut entries: Vec<ModuleListEntry> = Vec::new();
    let mut i: usize = 0;
    assert(cv.take(0) =~= Seq::<Result<(Chars, ModuleCardView), KbErrorView>>::empty());
    assert(crate::order::view_seq(entries@) =~= Seq::<(Chars, Chars)>::empty());
    while i < list.len()
        invariant
            i <= list@.len(),
            cv == listed_card_views(list@),
            cards is Ok && listed_card_views(cards->Ok_0@) == cv,
            tag_passes == !(tag is Some && tags_check(tags_load_view(tags_loaded), seq![tag.unwrap()@]) is Err),
            tag_passes,
            tv == opt_view(tag),
            ov == opt_view(owner),
            module_entries(cv.take(i as int), tv, ov) == Ok::<Seq<(Chars, Chars)>, Option<(Chars, Chars)>>(crate::order::view_seq(entries@)),
        decreases list@.len() - i,
    {
        assert(cv.take(i + 1).drop_last() =~= cv.take(i as int));
        assert(cv.take(i + 1).last() == cv[i as int]);
        match &list[i] {
            Err(e) => {
                proof {
                    lemma_entries_filters_irrelevant(cv.take(i as int), tv, ov);
                    lemma_first_card_error(cv, i as int, tv, ov);
                }
                return Err(e.duplicate());
            },
            Ok((stem, card)) => {
                if !str_eq(card.id.as_str(), stem.as_str()) {
                    let mut file = copy_str("kb/atlas/modules/");
                    crate::text::append_str(&mut file, stem.as_str());
                    crate::text::append_str(&mut file, ".toml");
                    let e0 = KbError::invalid_with_detail("module card id must match filename", "file", file.as_str());
                    let e = e0.with_detail("id", card.id.as_str());
                    proof {
                        let p0 = seq![seq!["file"@, file@]];
                        crate::error::lemma_single_sorted(e0@.details, seq!["file"@, file@]);
                        assert(sorted_key_set_of(e0@.details, p0)) by {
                            assert(e0@.details == p0);
                        }
                        crate::error::lemma_details_grow(e@.details, e0@.details, p0, "id"@, card.id@);
                        assert(p0.push(seq!["id"@, card.id@]) =~= seq![seq!["file"@, file@], seq!["id"@, card.id@]]);
                        lemma_entries_error_stays(cv, tv, ov, i + 1, Some((stem@, card.id@)));
                    }
                    return Err(e);
                }
                let tag_ok = match &tag {
                    Some(t) => contains_str(&card.tags, t.as_str()),
                    None => true,
                };
                let owner_ok = match &owner {
                    Some(o) => contains_str(&card.owners, o.as_str()),
                    None => true,
                };
                if tag_ok && owner_ok {
                    let ghost prev = crate::order::view_seq(entries@);
                    entries.push(ModuleListEntry { module_id: card.id.clone(), title: card.title.clone() });
                    assert(crate::order::view_seq(entries@) =~= prev.push((card.id@, card.title@)));
                }
            },
        }
        i += 1;
    }
    assert(cv.take(list@.len() as int) =~= cv);
    let ghost unsorted = entries@;
    let sorted = sort_unique_by_key(entries);
    assert(unsorted.map_values(|x: ModuleListEntry| x@) == crate::order::view_seq(unsorted));
    Ok(ListModulesOutput { modules: sorted })
}

proof fn lemma_entries_error_stays(
    cards: Seq<Result<(Chars, ModuleCardView), KbErrorView>>,
    tag: Option<Chars>,
    owner: Option<Chars>,
    n: int,
    e: Option<(Chars, Chars)>,
)
    requires
        0 <= n <= cards.len(),
        module_entries(cards.take(n), tag, owner) == Err::<Seq<(Chars, Chars)>, Option<(Chars, Chars)>>(e),
    ensures
        module_entries(cards, tag, owner) == Err::<Seq<(Chars, Chars)>, Option<(Chars, Chars)>>(e),
    decreases cards.len() - n,
{
    if n < cards.len() {
        assert(cards.take(n + 1).drop_last() =~= cards.take(n));
        lemma_entries_error_stays(cards, tag, owner, n + 1, e);
    } else {
        assert(cards.take(n) =~= cards);
    }
}

proof fn lemma_first_card_error(cards: Seq<Result<(Chars, ModuleCardView), KbErrorView>>, i: int, tag: Option<Chars>, owner: Option<Chars>)
    requires
        0 <= i < cards.len(),
        module_entries(cards.take(i), tag, owner) is Ok,
        cards[i] is Err,
    ensures
        module_entries(cards, tag, owner) == Err::<Seq<(Chars, Chars)>, Option<(Chars, Chars)>>(None),
        first_card_error(cards) == Some(cards[i]->Err_0),
    decreases cards.len() - i,
{
    lemma_entries_filters_irrelevant(cards.take(i), tag, owner);
    assert(cards.take(i + 1).drop_last() =~= cards.take(i));
    assert(cards.take(i + 1).last() == cards[i]);
    lemma_entries_error_stays(cards, tag, owner, i + 1, None);
    lemma_first_error_prefix(cards, i + 1, cards[i]->Err_0);
}

proof fn lemma_first_error_prefix(cards: Seq<Result<(Chars, ModuleCardView), KbErrorView>>, n: int, e: KbErrorView)
    requires
        0 < n <= cards.len(),
        first_card_error(cards.take(n)) == Some(e),
        module_entries(cards.take(n), None, None) is Err,
    ensures
        first_card_error(cards) == Some(e),
    decreases cards.len() - n,
{
    if n < cards.len() {
        let t = cards.take(n + 1);
        assert(t.drop_last() =~= cards.take(n));
        lemma_entries_error_stays(t, None, None, n, module_entries(cards.take(n), None, None)->Err_0);
        lemma_first_error_prefix(cards, n + 1, e);
    } else {
        assert(cards.take(n) =~= cards);
    }
}

} // verus!

verus! {

/// The text form of a module listing: `id: title` per line.
pub open spec fn module_lines(m: Seq<(Chars, Chars)>) -> Seq<Chars> {
    m.map_values(|x: (Chars, Chars)| x.0 + ": "@ + x.1)
}

pub fn list_modules_text(out: &ListModulesOutput) -> (s: String)
    ensures
        s@ == join(module_lines(crate::order::view_seq(out.modules@)), "\n"@),
{
    let ghost want = module_lines(crate::order::view_seq(out.modules@));
    let mut lines: Vec<String> = Vec::new();
    let mut i: usize = 0;
    while i < out.modules.len()
        invariant
            i <= out.modules@.len(),
            want == module_lines(crate::order::view_seq(out.modules@)),
            views(lines@) == want.take(i as int),
        decreases out.modules@.len() - i,
    {
        let m = &out.modules[i];
        let mut t = m.module_id.clone();
        crate::text::append_str(&mut t, ": ");
        crate::text::append_str(&mut t, m.title.as_str());
        let ghost prev = views(lines@);
        lines.push(t);
        assert(views(lines@) =~= prev.push(want[i as int]));
        assert(want.take(i + 1) =~= want.take(i as int).push(want[i as int]));
        i += 1;
    }
    assert(want.take(out.modules@.len() as int) =~= want);
    join_strings(&lines, "\n")
}

/// A fact: its id, type and tags.
#[derive(Debug)]
pub struct FactSummary {
    pub fact_id: String,
    pub fact_type: String,
    pub tags: Vec<String>,
}

impl View for FactSummary {
    type V = (Chars, Chars, Seq<Chars>);

    open spec fn view(&self) -> (Chars, Chars, Seq<Chars>) {
        (self.fact_id@, self.fact_type@, views(self.tags@))
    }
}

impl SortKey for FactSummary {
    open spec fn key(&self) -> Seq<Chars> {
        seq![self.fact_id@]
    }

    fn exec_key(&self) -> (k: Vec<Vec<char>>) {
        let mut k: Vec<Vec<char>> = Vec::new();
        k.push(chars_of(self.fact_id.as_str()));
        assert(key_view(k) =~= seq![self.fact_id@]);
        k
    }
}

/// The facts that match the filters.
#[derive(Debug)]
pub struct ListFactsOutput {
    pub fact_type: Option<String>,
    pub tag: Option<String>,
    pub facts: Vec<FactSummary>,
}

/// The string items of a record's `tags` array (none without one).
pub open spec fn record_tags(v: JsonValue) -> Seq<Chars> {
    match field_lookup(object_fields(v), "tags"@) {
        Some(t) => string_items_of(t),
        None => Seq::empty(),
    }
}

/// The summaries of the facts that match the filters, in file order; or the
/// first record that is not an object with a string `type` and `fact_id`.
pub open spec fn fact_summaries(records: Seq<JsonValue>, fact_type: Option<Chars>, tag: Option<Chars>) -> Result<Seq<(Chars, Chars, Seq<Chars>)>, KbErrorView>
    decreases records.len(),
{
    if records.len() == 0 {
        Ok(Seq::empty())
    } else {
        match fact_summaries(records.drop_last(), fact_type, tag) {
            Err(e) => Err(e),
            Ok(done) => {
                let v = records.last();
                match record_check(v, RecordCheck::TypeThenId) {
                    Err(e) => Err(e),
                    Ok(()) => {
                        let t = str_field(v, "type"@).unwrap();
                        let tags = sorted_set(record_tags(v));
                        if fact_type is Some && fact_type.unwrap() != t {
                            Ok(done)
                        } else if tag is Some && !tags.contains(tag.unwrap()) {
                            Ok(done)
                        } else {
                            Ok(done.push((str_field(v, "fact_id"@).unwrap(), t, tags)))
                        }
                    },
                }
            },
        }
    }
}

proof fn lemma_summaries_error_stays(records: Seq<JsonValue>, fact_type: Option<Chars>, tag: Option<Chars>, n: int, e: KbErrorView)
    requires
        0 <= n <= records.len(),
        fact_summaries(records.take(n), fact_type, tag) == Err::<Seq<(Chars, Chars, Seq<Chars>)>, KbErrorView>(e),
    ensures
        fact_summaries(records, fact_type, tag) == Err::<Seq<(Chars, Chars, Seq<Chars>)>, KbErrorView>(e),
    decreases records.len() - n,
{
    if n < records.len() {
        assert(records.take(n + 1).drop_last() =~= records.take(n));
        lemma_summaries_error_stays(records, fact_type, tag, n + 1, e);
    } else {
        assert(records.take(n) =~= records);
    }
}

fn record_tag_list(v: &JsonValue) -> (r: Vec<String>)
    ensures
        views(r@) == record_tags(*v),
{
    match v {
        JsonValue::Object(fields) => match crate::json::get_field(fields, "tags") {
            Some(t) => string_items(t),
            None => Vec::new(),
        },
        _ => {
            assert(field_lookup(Seq::<crate::json::JsonField>::empty(), "tags"@) is None);
            Vec::new()
        },
    }
}

pub open spec fn facts_load_view(r: Result<Vec<Result<JsonValue, String>>, KbError>) -> Result<Seq<Result<JsonValue, Chars>>, KbErrorView> {
    match r {
        Ok(lines) => Ok(parse_views(lines@)),
        Err(e) => Err(e@),
    }
}

/// Listing facts, once the tag filter is checked: a missing facts file lists
/// nothing; else the records are parsed, checked and filtered.
pub open spec fn list_facts_result(
    facts: Result<Seq<Result<JsonValue, Chars>>, KbErrorView>,
    fact_type: Option<Chars>,
    tag: Option<Chars>,
) -> Result<Seq<(Chars, Chars, Seq<Chars>)>, KbErrorView> {
    match facts {
        Err(e) => if e.code == ErrorCode::NotFound { Ok(Seq::empty()) } else { Err(e) },
        Ok(lines) => match collected(lines, "failed to parse jsonl"@) {
            Err(e) => Err(e),
            Ok(records) => fact_summaries(records, fact_type, tag),
        },
    }
}

/// Lists the facts of the given type and tag (when given), sorted by id, one
/// per id; each with its tags sorted once each. `facts` is the read of
/// `kb/facts/facts.jsonl`, line by line.
pub fn list_facts_at(
    fact_type: Option<String>,
    tag: Option<String>,
    tags_loaded: Result<Option<TagsConfig>, KbError>,
    facts: Result<Vec<Result<JsonValue, String>>, KbError>,
) -> (r: Result<ListFactsOutput, KbError>)
    ensures
        tag is Some && tags_check(tags_load_view(tags_loaded), seq![tag.unwrap()@]) is Err ==> (r matches Err(e)
            && tags_check(tags_load_view(tags_loaded), seq![tag.unwrap()@]) == Err::<(), KbErrorView>(e@)),
        !(tag is Some && tags_check(tags_load_view(tags_loaded), seq![tag.unwrap()@]) is Err) ==> match list_facts_result(
            facts_load_view(facts),
            opt_view(fact_type),
            opt_view(tag),
        ) {
            Ok(summaries) => (r matches Ok(out) && sorted_unique_views(out.facts@, summaries)
                && opt_view(out.fact_type) == opt_view(fact_type) && opt_view(out.tag) == opt_view(tag)),
            Err(e) => (r matches Err(e2) && e2@ == e),
        },
{
    match &tag {
        Some(t) => validate_tag_at(tags_loaded, t.as_str())?,
        None => {},
    }
    let ghost tv = opt_view(tag);
    let ghost fv = opt_view(fact_type);
    let ghost tag_passes = !(tag is Some && tags_check(tags_load_view(tags_loaded), seq![tag.unwrap()@]) is Err);
    assert(tag_passes);
    let ghost loaded = facts_load_view(facts);
    let records: Vec<JsonValue> = match facts {
        Err(e) => {
            if e.code == ErrorCode::NotFound {
                Vec::new()
            } else {
                return Err(e);
            }
        },
        Ok(lines) => collect_parsed(lines, "failed to parse jsonl")?,
    };
    let ghost rv = records@;
    assert(list_facts_result(loaded, fv, tv) == fact_summaries(rv, fv, tv));
    let mut out: Vec<FactSummary> = Vec::new();
    let mut i: usize = 0;
    assert(rv.take(0) =~= Seq::<JsonValue>::empty());
    assert(crate::order::view_seq(out@) =~= Seq::<(Chars, Chars, Seq<Chars>)>::empty());
    while i < records.len()
        invariant
            i <= records@.len(),
            rv == records@,
            tv == opt_view(tag),
            fv == opt_view(fact_type),
            loaded == facts_load_view(facts),
            tag_passes == !(tag is Some && tags_check(tags_load_view(tags_loaded), seq![tag.unwrap()@]) is Err),
            tag_passes,
            list_facts_result(loaded, fv, tv) == fact_summaries(rv, fv, tv),
            fact_summaries(rv.take(i as int), fv, tv) == Ok::<Seq<(Chars, Chars, Seq<Chars>)>, KbErrorView>(crate::order::view_seq(out@)),
        decreases records@.len() - i,
    {
        assert(rv.take(i + 1).drop_last() =~= rv.take(i as int));
        assert(rv.take(i + 1).last() == rv[i as int]);
        let v = &records[i];
        match check_record(v, RecordCheck::TypeThenId) {
            Err(e) => {
                proof {
                    lemma_summaries_error_stays(rv, fv, tv, i + 1, e@);
                }
                return Err(e);
            },
            Ok(()) => {},
        }
        let t = match get_str_field(v, "type") {
            Some(t) => t,
            None => "",
        };
        let id = match get_str_field(v, "fact_id") {
            Some(x) => x,
            None => "",
        };
        let type_ok = match &fact_type {
            Some(f) => str_eq(f.as_str(), t),
            None => true,
        };
        if type_ok {
            let tags = sort_dedup(record_tag_list(v));
            proof {
                crate::order::lemma_sorted_set_of_is(views(tags@), record_tags(*v));
            }
            let tag_ok = match &tag {
                Some(g) => contains_str(&tags, g.as_str()),
                None => true,
            };
            if tag_ok {
                let ghost prev = crate::order::view_seq(out@);
                out.push(FactSummary { fact_id: copy_str(id), fact_type: copy_str(t), tags });
                assert(crate::order::view_seq(out@) =~= prev.push((id@, t@, views(tags@))));
            }
        }
        i += 1;
    }
    assert(rv.take(records@.len() as int) =~= rv);
    let ghost unsorted = out@;
    let sorted = sort_unique_by_key(out);
    assert(unsorted.map_values(|x: FactSummary| x@) == crate::order::view_seq(unsorted));
    Ok(ListFactsOutput { fact_type, tag, facts: sorted })
}

/// The fact ids, one per line.
pub open spec fn fact_id_lines(f: Seq<(Chars, Chars, Seq<Chars>)>) -> Seq<Chars> {
    f.map_values(|x: (Chars, Chars, Seq<Chars>)| x.0)
}

pub fn list_facts_text(out: &ListFactsOutput) -> (s: String)
    ensures
        s@ == join(fact_id_lines(crate::order::view_seq(out.facts@)), "\n"@),
{
    let ghost want = fact_id_lines(crate::order::view_seq(out.facts@));
    let mut lines: Vec<String> = Vec::new();
    let mut i: usize = 0;
    while i < out.facts.len()
        invariant
            i <= out.facts@.len(),
            want == fact_id_lines(crate::order::view_seq(out.facts@)),
            views(lines@) == want.take(i as int),
        decreases out.facts@.len() - i,
    {
        let ghost prev = views(lines@);
        lines.push(out.facts[i].fact_id.clone());
        assert(views(lines@) =~= prev.push(want[i as int]));
        assert(want.take(i + 1) =~= want.take(i as int).push(want[i as int]));
        i += 1;
    }
    assert(want.take(out.facts@.len() as int) =~= want);
    join_strings(&lines, "\n")
}

} // verus!

verus! {

/// A symbol of a file: its id, name and qualified name.
#[derive(Debug)]
pub struct SymbolListEntry {
    pub symbol_id: String,
    pub name: String,
    pub qualified_name: String,
}

impl View for SymbolListEntry {
    type V = (Chars, Chars, Chars);

    open spec fn view(&self) -> (Chars, Chars, Chars) {
        (self.symbol_id@, self.name@, self.qualified_name@)
    }
}

impl SortKey for SymbolListEntry {
    open spec fn key(&self) -> Seq<Chars> {
        seq![self.symbol_id@]
    }

    fn exec_key(&self) -> (k: Vec<Vec<char>>) {
        let mut k: Vec<Vec<char>> = Vec::new();
        k.push(chars_of(self.symbol_id.as_str()));
        assert(key_view(k) =~= seq![self.symbol_id@]);
        k
    }
}

/// The symbols of a file.
#[derive(Debug)]
pub struct ListSymbolsOutput {
    pub path: String,
    pub kind: Option<String>,
    pub symbols: Vec<SymbolListEntry>,
}

/// The symbols of the file (of the kind, when given), in index order.
pub open spec fn file_symbols(symbols: Seq<SymbolRecordView>, path: Chars, kind: Option<Chars>) -> Seq<(Chars, Chars, Chars)>
    decreases symbols.len(),
{
    if symbols.len() == 0 {
        Seq::empty()
    } else {
        let s = symbols.last();
        file_symbols(symbols.drop_last(), path, kind) + if s.path == path && (kind is None || kind.unwrap() == s.kind) {
            seq![(s.symbol_id, s.name, s.qualified_name)]
        } else {
            Seq::empty()
        }
    }
}

/// Lists the symbols of a file (of a kind, when given), sorted by id, one per
/// id. The path is normalized first; `symbols` is the load of `kb/gen/symbols.jsonl`.
pub fn list_symbols_at(path: &str, kind: Option<String>, symbols: Result<Vec<SymbolRecord>, KbError>) -> (r: Result<ListSymbolsOutput, KbError>)
    ensures
        match parse_repo_path(path@) {
            Err(e) => (r matches Err(e2) && e2@ == e),
            Ok(p) => match symbols {
                Err(e) => (r matches Err(e2) && e2@ == e@),
                Ok(all) => (r matches Ok(out) && out.path@ == p && opt_view(out.kind) == opt_view(kind)
                    && sorted_unique_views(out.symbols@, file_symbols(symbol_views(all@), p, opt_view(kind)))),
            },
        },
{
    let normalized = RepoPath::parse(path)?;
    let norm = copy_str(normalized.as_str());
    let all = match symbols {
        Err(e) => return Err(e),
        Ok(a) => a,
    };
    let ghost sv = symbol_views(all@);
    let ghost kv = opt_view(kind);
    let mut out: Vec<SymbolListEntry> = Vec::new();
    let mut i: usize = 0;
    assert(sv.take(0) =~= Seq::<SymbolRecordView>::empty());
    assert(crate::order::view_seq(out@) =~= Seq::<(Chars, Chars, Chars)>::empty());
    while i < all.len()
        invariant
            i <= all@.len(),
            sv == symbol_views(all@),
            kv == opt_view(kind),
            crate::order::view_seq(out@) == file_symbols(sv.take(i as int), norm@, kv),
        decreases all@.len() - i,
    {
        assert(sv.take(i + 1).drop_last() =~= sv.take(i as int));
        assert(sv.take(i + 1).last() == all@[i as int]@);
        let s = &all[i];
        let kind_ok = match &kind {
            Some(k) => str_eq(s.kind.as_str(), k.as_str()),
            None => true,
        };
        let ghost prev = crate::order::view_seq(out@);
        if str_eq(s.path.as_str(), norm.as_str()) && kind_ok {
            out.push(SymbolListEntry { symbol_id: s.symbol_id.clone(), name: s.name.clone(), qualified_name: s.qualified_name.clone() });
            assert(crate::order::view_seq(out@) =~= prev + seq![(s.symbol_id@, s.name@, s.qualified_name@)]);
        } else {
            assert(crate::order::view_seq(out@) =~= prev + Seq::<(Chars, Chars, Chars)>::empty());
        }
        i += 1;
    }
    assert(sv.take(all@.len() as int) =~= sv);
    let ghost unsorted = out@;
    let sorted = sort_unique_by_key(out);
    assert(unsorted.map_values(|x: SymbolListEntry| x@) == crate::order::view_seq(unsorted));
    Ok(ListSymbolsOutput { path: norm, kind, symbols: sorted })
}

/// `id qualified_name` per line.
pub open spec fn symbol_lines(s: Seq<(Chars, Chars, Chars)>) -> Seq<Chars> {
    s.map_values(|x: (Chars, Chars, Chars)| x.0 + " "@ + x.2)
}

pub fn list_symbols_text(out: &ListSymbolsOutput) -> (s: String)
    ensures
        s@ == join(symbol_lines(crate::order::view_seq(out.symbols@)), "\n"@),
{
    let ghost want = symbol_lines(crate::order::view_seq(out.symbols@));
    let mut lines: Vec<String> = Vec::new();
    let mut i: usize = 0;
    while i < out.symbols.len()
        invariant
            i <= out.symbols@.len(),
            want == symbol_lines(crate::order::view_seq(out.symbols@)),
            views(lines@) == want.take(i as int),
        decreases out.symbols@.len() - i,
    {
        let m = &out.symbols[i];
        let mut t = m.symbol_id.clone();
        crate::text::append_str(&mut t, " ");
        crate::text::append_str(&mut t, m.qualified_name.as_str());
        let ghost prev = views(lines@);
        lines.push(t);
        assert(views(lines@) =~= prev.push(want[i as int]));
        assert(want.take(i + 1) =~= want.take(i as int).push(want[i as int]));
        i += 1;
    }
    assert(want.take(out.symbols@.len() as int) =~= want);
    join_strings(&lines, "\n")
}

} // verus!

verus! {

/// Listing a file's symbols gives exactly the symbols whose path is the
/// file's (and whose kind is the given one, when given), each as its id,
/// name and qualified name.
pub proof fn law_file_symbols_members(symbols: Seq<SymbolRecordView>, path: Chars, kind: Option<Chars>, x: (Chars, Chars, Chars))
    ensures
        file_symbols(symbols, path, kind).contains(x) <==> exists|i: int|
            0 <= i < symbols.len() && (#[trigger] symbols[i]).path == path && (kind is None || kind.unwrap() == symbols[i].kind)
                && x == (symbols[i].symbol_id, symbols[i].name, symbols[i].qualified_name),
    decreases symbols.len(),
{
    if symbols.len() > 0 {
        let p = symbols.drop_last();
        law_file_symbols_members(p, path, kind, x);
        let s = symbols.last();
        let tail: Seq<(Chars, Chars, Chars)> = if s.path == path && (kind is None || kind.unwrap() == s.kind) {
            seq![(s.symbol_id, s.name, s.qualified_name)]
        } else {
            Seq::empty()
        };
        assert(file_symbols(symbols, path, kind) == file_symbols(p, path, kind) + tail);
        crate::text::lemma_contains_concat(file_symbols(p, path, kind), tail, x);
        if tail.contains(x) {
            assert(tail[0] == x);
            assert(symbols[symbols.len() - 1] == s);
        }
        if exists|i: int|
            0 <= i < symbols.len() && (#[trigger] symbols[i]).path == path && (kind is None || kind.unwrap() == symbols[i].kind)
                && x == (symbols[i].symbol_id, symbols[i].name, symbols[i].qualified_name) {
            let i = choose|i: int|
                0 <= i < symbols.len() && (#[trigger] symbols[i]).path == path && (kind is None || kind.unwrap()
                    == symbols[i].kind) && x == (symbols[i].symbol_id, symbols[i].name, symbols[i].qualified_name);
            if i < symbols.len() - 1 {
                assert(p[i] == symbols[i]);
            } else {
                assert(tail[0] == x);
            }
        }
        if exists|i: int|
            0 <= i < p.len() && (#[trigger] p[i]).path == path && (kind is None || kind.unwrap() == p[i].kind) && x == (
                p[i].symbol_id,
                p[i].name,
                p[i].qualified_name,
            ) {
            let i = choose|i: int|
                0 <= i < p.len() && (#[trigger] p[i]).path == path && (kind is None || kind.unwrap() == p[i].kind) && x == (
                    p[i].symbol_id,
                    p[i].name,
                    p[i].qualified_name,
                );
            assert(symbols[i] == p[i]);
        }
    }
}

/// When the module cards all read well, the listing holds exactly the
/// (id, title) of each card that carries the tag and the owner (those given).
pub proof fn law_module_entries_members(
    cards: Seq<Result<(Chars, ModuleCardView), KbErrorView>>,
    tag: Option<Chars>,
    owner: Option<Chars>,
    x: (Chars, Chars),
)
    requires
        module_entries(cards, tag, owner) is Ok,
    ensures
        (module_entries(cards, tag, owner)->Ok_0).contains(x) <==> exists|i: int|
            0 <= i < cards.len() && (#[trigger] cards[i]) is Ok && (tag is None || (cards[i]->Ok_0).1.tags.contains(tag.unwrap()))
                && (owner is None || (cards[i]->Ok_0).1.owners.contains(owner.unwrap())) && x == (
                (cards[i]->Ok_0).1.id,
                (cards[i]->Ok_0).1.title,
            ),
    decreases cards.len(),
{
    if cards.len() > 0 {
        let p = cards.drop_last();
        assert(module_entries(p, tag, owner) is Ok);
        law_module_entries_members(p, tag, owner, x);
        let done = module_entries(p, tag, owner)->Ok_0;
        let all = module_entries(cards, tag, owner)->Ok_0;
        let last = cards.last();
        assert(last is Ok);
        let c = (last->Ok_0).1;
        let keep = (tag is None || c.tags.contains(tag.unwrap())) && (owner is None || c.owners.contains(owner.unwrap()));
        let tail: Seq<(Chars, Chars)> = if keep { seq![(c.id, c.title)] } else { Seq::empty() };
        assert(all =~= done + tail);
        crate::text::lemma_contains_concat(done, tail, x);
        if tail.contains(x) {
            assert(tail[0] == x);
            assert(cards[cards.len() - 1] == last);
        }
        if exists|i: int|
            0 <= i < cards.len() && (#[trigger] cards[i]) is Ok && (tag is None || (cards[i]->Ok_0).1.tags.contains(tag.unwrap()))
                && (owner is None || (cards[i]->Ok_0).1.owners.contains(owner.unwrap())) && x == (
                (cards[i]->Ok_0).1.id,
                (cards[i]->Ok_0).1.title,
            ) {
            let i = choose|i: int|
                0 <= i < cards.len() && (#[trigger] cards[i]) is Ok && (tag is None || (cards[i]->Ok_0).1.tags.contains(
                    tag.unwrap(),
                )) && (owner is None || (cards[i]->Ok_0).1.owners.contains(owner.unwrap())) && x == (
                    (cards[i]->Ok_0).1.id,
                    (cards[i]->Ok_0).1.title,
                );
            if i < cards.len() - 1 {
                assert(p[i] == cards[i]);
            } else {
                assert(tail[0] == x);
            }
        }
        if done.contains(x) {
            let i = choose|i: int|
                0 <= i < p.len() && (#[trigger] p[i]) is Ok && (tag is None || (p[i]->Ok_0).1.tags.contains(tag.unwrap()))
                    && (owner is None || (p[i]->Ok_0).1.owners.contains(owner.unwrap())) && x == (
                    (p[i]->Ok_0).1.id,
                    (p[i]->Ok_0).1.title,
                );
            assert(cards[i] == p[i]);
        }
    }
}

/// The fact summary `(id, type, tags)` of a record.
pub open spec fn fact_summary_of(v: JsonValue) -> (Chars, Chars, Seq<Chars>) {
    (str_field(v, "fact_id"@).unwrap(), str_field(v, "type"@).unwrap(), sorted_set(record_tags(v)))
}

/// When every fact record checks, the listing holds exactly the summaries
/// (id, type, sorted tags) of the records of the given type that carry the
/// given tag (those given).
pub proof fn law_fact_summaries_members(records: Seq<JsonValue>, fact_type: Option<Chars>, tag: Option<Chars>, x: (Chars, Chars, Seq<Chars>))
    requires
        fact_summaries(records, fact_type, tag) is Ok,
    ensures
        (fact_summaries(records, fact_type, tag)->Ok_0).contains(x) <==> exists|i: int|
            0 <= i < records.len() && (fact_type is None || fact_type.unwrap() == str_field(#[trigger] records[i], "type"@).unwrap())
                && (tag is None || record_tags(records[i]).contains(tag.unwrap())) && x == fact_summary_of(records[i]),
    decreases records.len(),
{
    if records.len() > 0 {
        let p = records.drop_last();
        assert(fact_summaries(p, fact_type, tag) is Ok);
        law_fact_summaries_members(p, fact_type, tag, x);
        let done = fact_summaries(p, fact_type, tag)->Ok_0;
        let all = fact_summaries(records, fact_type, tag)->Ok_0;
        let v = records.last();
        crate::order::lemma_sorted_set_exists(record_tags(v));
        let keep = (fact_type is None || fact_type.unwrap() == str_field(v, "type"@).unwrap()) && (tag is None || record_tags(
            v,
        ).contains(tag.unwrap()));
        let tail: Seq<(Chars, Chars, Seq<Chars>)> = if keep { seq![fact_summary_of(v)] } else { Seq::empty() };
        assert(all =~= done + tail);
        crate::text::lemma_contains_concat(done, tail, x);
        if tail.contains(x) {
            assert(tail[0] == x);
            assert(records[records.len() - 1] == v);
        }
        if exists|i: int|
            0 <= i < records.len() && (fact_type is None || fact_type.unwrap() == str_field(#[trigger] records[i], "type"@).unwrap())
                && (tag is None || record_tags(records[i]).contains(tag.unwrap())) && x == fact_summary_of(records[i]) {
            let i = choose|i: int|
                0 <= i < records.len() && (fact_type is None || fact_type.unwrap() == str_field(#[trigger] records[i], "type"@).unwrap())
                    && (tag is None || record_tags(records[i]).contains(tag.unwrap())) && x == fact_summary_of(records[i]);
            if i < records.len() - 1 {
                assert(p[i] == records[i]);
            } else {
                assert(tail[0] == x);
            }
        }
        if done.contains(x) {
            let i = choose|i: int|
                0 <= i < p.len() && (fact_type is None || fact_type.unwrap() == str_field(#[trigger] p[i], "type"@).unwrap())
                    && (tag is None || record_tags(p[i]).contains(tag.unwrap())) && x == fact_summary_of(p[i]);
            assert(records[i] == p[i]);
        }
    }
}

} // verus!
