//! `kb/config/obligations.toml`: rules that tie changed paths to required overlays.
use vstd::prelude::*;

use crate::index::artifacts::{opt_view, opt_views};
use crate::order::SortKey;
use crate::text::{chars_of, copy_opt_string, copy_strings, Chars};

verus! {

/// The parsed obligations config.
#[derive(Debug)]
pub struct ObligationsConfig {
    pub rule: Vec<ObligationRule>,
}

/// A rule: when a changed path starts with the prefix, the listed overlays are required.
#[derive(Debug)]
pub struct ObligationRule {
    pub id: String,
    pub when_path_prefix: String,
    pub require_module_card: Option<String>,
    pub require_fact_types: Option<Vec<String>>,
    pub require_session_capsule: Option<bool>,
}

pub struct ObligationRuleView {
    pub id: Chars,
    pub when_path_prefix: Chars,
    pub require_module_card: Option<Chars>,
    pub require_fact_types: Option<Seq<Chars>>,
    pub require_session_capsule: Option<bool>,
}

impl View for ObligationRule {
    type V = ObligationRuleView;

    open spec fn view(&self) -> ObligationRuleView {
        ObligationRuleView {
            id: self.id@,
            when_path_prefix: self.when_path_prefix@,
            require_module_card: opt_view(self.require_module_card),
            require_fact_types: opt_views(self.require_fact_types),
            require_session_capsule: self.require_session_capsule,
        }
    }
}

impl SortKey for ObligationRule {
    open spec fn key(&self) -> Seq<Chars> {
        seq![self.id@]
    }

    fn exec_key(&self) -> (k: Vec<Vec<char>>) {
        let mut k: Vec<Vec<char>> = Vec::new();
        k.push(chars_of(self.id.as_str()));
        assert(crate::order::key_view(k) =~= seq![self.id@]);
        k
    }
}

impl ObligationRule {
    pub fn duplicate(&self) -> (r: ObligationRule)
        ensures
            r@ == self@,
    {
        let types = match &self.require_fact_types {
            Some(v) => Some(copy_strings(v)),
            None => None,
        };
        let card = copy_opt_string(&self.require_module_card);
        let r = ObligationRule {
            id: self.id.clone(),
            when_path_prefix: self.when_path_prefix.clone(),
            require_module_card: card,
            require_fact_types: types,
            require_session_capsule: self.require_session_capsule,
        };
        assert(opt_view(r.require_module_card) == opt_view(self.require_module_card));
        r
    }
}

pub open spec fn rule_views(s: Seq<ObligationRule>) -> Seq<ObligationRuleView> {
    s.map_values(|r: ObligationRule| r@)
}

} // verus!
