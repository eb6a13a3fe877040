//! Module cards (`kb/atlas/modules/<id>.toml`) as read back.
use vstd::prelude::*;

use crate::order::views;
use crate::text::Chars;

verus! {

/// A parsed module card.
#[derive(Debug)]
pub struct ModuleCardToml {
    pub id: String,
    pub title: String,
    pub owners: Vec<String>,
    pub tags: Vec<String>,
    pub entrypoints: Vec<String>,
    pub edit_points: Vec<String>,
    pub related_facts: Vec<String>,
}

pub struct ModuleCardView {
    pub id: Chars,
    pub title: Chars,
    pub owners: Seq<Chars>,
    pub tags: Seq<Chars>,
    pub entrypoints: Seq<Chars>,
    pub edit_points: Seq<Chars>,
    pub related_facts: Seq<Chars>,
}

impl View for ModuleCardToml {
    type V = ModuleCardView;

    open spec fn view(&self) -> ModuleCardView {
        ModuleCardView {
            id: self.id@,
            title: self.title@,
            owners: views(self.owners@),
            tags: views(self.tags@),
            entrypoints: views(self.entrypoints@),
            edit_points: views(self.edit_points@),
            related_facts: views(self.related_facts@),
        }
    }
}

} // verus!
