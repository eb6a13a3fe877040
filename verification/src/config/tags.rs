//! `kb/config/tags.toml`: the registry of known tags.
use vstd::prelude::*;

use crate::error::{invalid_with, KbError, KbErrorView};
use crate::index::artifacts::opt_view;
use crate::order::{sort_dedup, sorted_set_of, views, SortKey};
use crate::text::{chars_of, contains_str, copy_str, Chars};

verus! {

/// The parsed tags registry.
#[derive(Debug)]
pub struct TagsConfig {
    pub tag: Vec<TagEntry>,
}

#[derive(Debug)]
pub struct TagEntry {
    pub id: String,
    pub description: Option<String>,
}

pub struct TagEntryView {
    pub id: Chars,
    pub description: Option<Chars>,
}

impl View for TagEntry {
    type V = TagEntryView;

    open spec fn view(&self) -> TagEntryView {
        TagEntryView { id: self.id@, description: opt_view(self.description) }
    }
}

impl SortKey for TagEntry {
    open spec fn key(&self) -> Seq<Chars> {
        seq![self.id@]
    }

    fn exec_key(&self) -> (k: Vec<Vec<char>>) {
        let mut k: Vec<Vec<char>> = Vec::new();
        k.push(chars_of(self.id.as_str()));
        assert(crate::order::key_view(k) =~= seq![self.id@]);
        k
    }
}

pub open spec fn tag_entry_views(s: Seq<TagEntry>) -> Seq<TagEntryView> {
    s.map_values(|t: TagEntry| t@)
}

/// The ids of the entries, in order.
pub open spec fn entry_ids(s: Seq<TagEntryView>) -> Seq<Chars> {
    s.map_values(|t: TagEntryView| t.id)
}

/// What loading the registry gave: an error, no registry, or its entries.
pub open spec fn tags_load_view(r: Result<Option<TagsConfig>, KbError>) -> Result<Option<Seq<TagEntryView>>, KbErrorView> {
    match r {
        Err(e) => Err(e@),
        Ok(None) => Ok(None),
        Ok(Some(cfg)) => Ok(Some(tag_entry_views(cfg.tag@))),
    }
}

/// Where the registry lives in a repository.
pub fn tags_toml_path() -> (p: String)
    ensures
        p@ == "kb/config/tags.toml"@,
{
    copy_str("kb/config/tags.toml")
}

/// The ids the registry declares, sorted, once each; `None` without a registry.
pub fn known_tag_ids_at(loaded: Result<Option<TagsConfig>, KbError>) -> (r: Result<Option<Vec<String>>, KbError>)
    ensures
        match (tags_load_view(loaded), r) {
            (Err(e1), Err(e2)) => e1 == e2@,
            (Ok(None), Ok(None)) => true,
            (Ok(Some(entries)), Ok(Some(ids))) => sorted_set_of(views(ids@), entry_ids(entries)),
            _ => false,
        },
{
    let cfg = match loaded {
        Err(e) => return Err(e),
        Ok(None) => return Ok(None),
        Ok(Some(cfg)) => cfg,
    };
    let ghost entries = tag_entry_views(cfg.tag@);
    let mut ids: Vec<String> = Vec::new();
    let mut i: usize = 0;
    while i < cfg.tag.len()
        invariant
            i <= cfg.tag@.len(),
            entries == tag_entry_views(cfg.tag@),
            views(ids@) == entry_ids(entries).take(i as int),
        decreases cfg.tag@.len() - i,
    {
        let ghost prev = views(ids@);
        ids.push(cfg.tag[i].id.clone());
        assert(views(ids@) =~= prev.push(entries[i as int].id));
        assert(entry_ids(entries).take(i + 1) =~= entry_ids(entries).take(i as int).push(entries[i as int].id));
        i += 1;
    }
    assert(entry_ids(entries).take(cfg.tag@.len() as int) =~= entry_ids(entries));
    Ok(Some(sort_dedup(ids)))
}

/// The first of `tags` that `ids` lacks.
pub open spec fn first_unknown(ids: Seq<Chars>, tags: Seq<Chars>) -> Option<Chars>
    decreases tags.len(),
{
    if tags.len() == 0 {
        None
    } else if !ids.contains(tags[0]) {
        Some(tags[0])
    } else {
        first_unknown(ids, tags.drop_first())
    }
}

/// Checking tags against a loaded registry: a load error stands; without a
/// registry every tag is accepted; else the first unknown tag is refused.
pub open spec fn tags_check(loaded: Result<Option<Seq<TagEntryView>>, KbErrorView>, tags: Seq<Chars>) -> Result<(), KbErrorView> {
    match loaded {
        Err(e) => Err(e),
        Ok(None) => Ok(()),
        Ok(Some(entries)) => match first_unknown(entry_ids(entries), tags) {
            Some(t) => Err(invalid_with("unknown tag"@, "tag"@, t)),
            None => Ok(()),
        },
    }
}

/// Whether every tag is declared in the registry (any tag is, without one).
pub fn validate_tags_at(loaded: Result<Option<TagsConfig>, KbError>, tags: &Vec<String>) -> (r: Result<(), KbError>)
    ensures
        match r {
            Ok(()) => tags_check(tags_load_view(loaded), views(tags@)) is Ok,
            Err(e) => tags_check(tags_load_view(loaded), views(tags@)) == Err::<(), KbErrorView>(e@),
        },
{
    let ghost lv = tags_load_view(loaded);
    let known = match known_tag_ids_at(loaded) {
        Err(e) => return Err(e),
        Ok(None) => return Ok(()),
        Ok(Some(k)) => k,
    };
    let ghost entries = lv->Ok_0.unwrap();
    let ghost tv = views(tags@);
    let mut i: usize = 0;
    assert(tv.skip(0) =~= tv);
    assert(lv == Ok::<Option<Seq<TagEntryView>>, KbErrorView>(Some(entries)));
    while i < tags.len()
        invariant
            lv == Ok::<Option<Seq<TagEntryView>>, KbErrorView>(Some(entries)),
            lv == tags_load_view(loaded),
            i <= tags@.len(),
            tv == views(tags@),
            sorted_set_of(views(known@), entry_ids(entries)),
            first_unknown(entry_ids(entries), tv) == first_unknown(entry_ids(entries), tv.skip(i as int)),
        decreases tags@.len() - i,
    {
        let t = &tags[i];
        assert(tv.skip(i as int)[0] == t@);
        assert(tv.skip(i as int).drop_first() =~= tv.skip(i + 1));
        if !contains_str(&known, t.as_str()) {
            assert(!entry_ids(entries).contains(t@));
            assert(first_unknown(entry_ids(entries), tv.skip(i as int)) == Some(t@));
            assert(lv == Ok::<Option<Seq<TagEntryView>>, KbErrorView>(Some(entries)));
            return Err(KbError::invalid_with_detail("unknown tag", "tag", t.as_str()));
        }
        assert(entry_ids(entries).contains(t@));
        i += 1;
    }
    assert(tv.skip(tags@.len() as int) =~= Seq::<Chars>::empty());
    Ok(())
}

/// Whether one tag is declared in the registry (any tag is, without one).
pub fn validate_tag_at(loaded: Result<Option<TagsConfig>, KbError>, tag: &str) -> (r: Result<(), KbError>)
    ensures
        match r {
            Ok(()) => tags_check(tags_load_view(loaded), seq![tag@]) is Ok,
            Err(e) => tags_check(tags_load_view(loaded), seq![tag@]) == Err::<(), KbErrorView>(e@),
        },
{
    let mut one: Vec<String> = Vec::new();
    one.push(copy_str(tag));
    assert(views(one@) =~= seq![tag@]);
    validate_tags_at(loaded, &one)
}

} // verus!

verus! {

impl TagEntry {
    pub fn duplicate(&self) -> (r: TagEntry)
        ensures
            r@ == self@,
    {
        let d = crate::text::copy_opt_string(&self.description);
        let r = TagEntry { id: self.id.clone(), description: d };
        assert(opt_view(r.description) == opt_view(self.description));
        r
    }
}

} // verus!
