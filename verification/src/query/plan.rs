//! Which obligations a diff triggers, and what they require.
use vstd::prelude::*;

use crate::config::obligations::{rule_views, ObligationRuleView, ObligationsConfig};
use crate::error::{KbError, KbErrorView};
use crate::order::{
    key_view, sort_dedup, sorted_set, sorted_set_of, stable_sort_by_key, stably_sorted, view_seq,
    views, KeyedCopy, SortKey,
};
use crate::repo::diff::{change_kind_text, DiffPathChange};
use crate::repo::diff_source::{display_text, DiffSource};
use crate::repo::prefix::{normalize_path_prefix, normalize_prefix};
use crate::text::{
    append_str, chars_of, copy_str, join, join_strings, starts_with, starts_with_chars, Chars,
};

verus! {

#[derive(Clone, Copy, Debug, PartialEq, Eq, Structural)]
pub enum Policy {
    Default,
    Strict,
}

pub open spec fn policy_text(p: Policy) -> Chars {
    match p {
        Policy::Default => "default"@,
        Policy::Strict => "strict"@,
    }
}

impl Policy {
    pub fn as_str(self) -> (s: &'static str)
        ensures
            s@ == policy_text(self),
    {
        match self {
            Policy::Default => "default",
            Policy::Strict => "strict",
        }
    }
}

/// A changed path and the name of its change kind.
#[derive(Debug)]
pub struct ChangedPath {
    pub path: String,
    pub change_kind: String,
}

impl View for ChangedPath {
    type V = (Chars, Chars);

    open spec fn view(&self) -> (Chars, Chars) {
        (self.path@, self.change_kind@)
    }
}

impl ChangedPath {
    pub fn duplicate(&self) -> (r: ChangedPath)
        ensures
            r@ == self@,
    {
        ChangedPath { path: self.path.clone(), change_kind: self.change_kind.clone() }
    }
}

/// A rule that a diff triggered, with its normalized prefix.
#[derive(Debug)]
pub struct TriggeredRule {
    pub id: String,
    pub when_path_prefix: String,
}

impl View for TriggeredRule {
    type V = (Chars, Chars);

    open spec fn view(&self) -> (Chars, Chars) {
        (self.id@, self.when_path_prefix@)
    }
}

impl SortKey for TriggeredRule {
    open spec fn key(&self) -> Seq<Chars> {
        seq![self.id@]
    }

    fn exec_key(&self) -> (k: Vec<Vec<char>>) {
        let mut k: Vec<Vec<char>> = Vec::new();
        k.push(chars_of(self.id.as_str()));
        assert(key_view(k) =~= seq![self.id@]);
        k
    }
}

impl KeyedCopy for TriggeredRule {
    fn duplicate(&self) -> (r: TriggeredRule) {
        TriggeredRule { id: self.id.clone(), when_path_prefix: self.when_path_prefix.clone() }
    }
}

/// What the triggered rules require.
#[derive(Debug)]
pub struct Required {
    pub module_cards: Vec<String>,
    pub fact_types: Vec<String>,
    pub session_capsule: bool,
}

/// The plan of a diff: what changed and what the obligations require.
#[derive(Debug)]
pub struct PlanDiffOutput {
    pub diff_source: String,
    pub policy: String,
    pub changed_paths: Vec<ChangedPath>,
    pub affected_modules: Vec<String>,
    pub triggered_rules: Vec<TriggeredRule>,
    pub required: Required,
}

/// Some changed path starts with the prefix.
pub open spec fn prefix_matches(prefix: Chars, paths: Seq<Chars>) -> bool {
    exists|i: int| 0 <= i < paths.len() && starts_with(#[trigger] paths[i], prefix)
}

/// The rules that the changed paths trigger, in config order, each with its
/// normalized prefix; or the first prefix that does not normalize.
pub open spec fn triggered_of(rules: Seq<ObligationRuleView>, paths: Seq<Chars>) -> Result<Seq<(ObligationRuleView, Chars)>, KbErrorView>
    decreases rules.len(),
{
    if rules.len() == 0 {
        Ok(Seq::empty())
    } else {
        match triggered_of(rules.drop_last(), paths) {
            Err(e) => Err(e),
            Ok(done) => match normalize_prefix(rules.last().when_path_prefix) {
                Err(e) => Err(e),
                Ok(p) => if prefix_matches(p, paths) { Ok(done.push((rules.last(), p))) } else { Ok(done) },
            },
        }
    }
}

/// The required cards of triggered rules, in order.
pub open spec fn cards_of(t: Seq<(ObligationRuleView, Chars)>) -> Seq<Chars>
    decreases t.len(),
{
    if t.len() == 0 {
        Seq::empty()
    } else {
        cards_of(t.drop_last()) + match t.last().0.require_module_card {
            Some(c) => seq![c],
            None => Seq::empty(),
        }
    }
}

/// The required fact types of triggered rules, in order.
pub open spec fn types_of(t: Seq<(ObligationRuleView, Chars)>) -> Seq<Chars>
    decreases t.len(),
{
    if t.len() == 0 {
        Seq::empty()
    } else {
        types_of(t.drop_last()) + match t.last().0.require_fact_types {
            Some(ts) => ts,
            None => Seq::empty(),
        }
    }
}

/// Some triggered rule requires a session capsule.
pub open spec fn session_of(t: Seq<(ObligationRuleView, Chars)>) -> bool
    decreases t.len(),
{
    if t.len() == 0 {
        false
    } else {
        session_of(t.drop_last()) || t.last().0.require_session_capsule == Some(true)
    }
}

/// The (id, prefix) pairs of triggered rules.
pub open spec fn rule_pairs(t: Seq<(ObligationRuleView, Chars)>) -> Seq<(Chars, Chars)> {
    t.map_values(|x: (ObligationRuleView, Chars)| (x.0.id, x.1))
}

/// Drops each element equal to the one before it (`Vec::dedup`).
pub open spec fn dedup_adjacent<A>(s: Seq<A>) -> Seq<A>
    decreases s.len(),
{
    if s.len() <= 1 {
        s
    } else if s.last() == s[s.len() - 2] {
        dedup_adjacent(s.drop_last())
    } else {
        dedup_adjacent(s.drop_last()).push(s.last())
    }
}

proof fn lemma_dedup_adjacent_last<A>(s: Seq<A>)
    requires
        s.len() > 0,
    ensures
        dedup_adjacent(s).len() > 0,
        dedup_adjacent(s).last() == s.last(),
    decreases s.len(),
{
    if s.len() > 1 {
        lemma_dedup_adjacent_last(s.drop_last());
    }
}

/// The triggered rules as listed: sorted by id (stably), repeated entries dropped.
pub open spec fn listed_rules(out: Seq<(Chars, Chars)>, t: Seq<(ObligationRuleView, Chars)>) -> bool {
    exists|u: Seq<TriggeredRule>, s: Seq<TriggeredRule>|
        view_seq(u) == rule_pairs(t) && #[trigger] stably_sorted(s, u) && out == dedup_adjacent(view_seq(s))
}

pub open spec fn changed_views(c: Seq<DiffPathChange>) -> Seq<Chars> {
    c.map_values(|x: DiffPathChange| x.path@)
}

fn any_starts_with(paths: &Vec<DiffPathChange>, prefix: &str) -> (b: bool)
    ensures
        b == prefix_matches(prefix@, changed_views(paths@)),
{
    let p = chars_of(prefix);
    let ghost pv = changed_views(paths@);
    let mut i: usize = 0;
    while i < paths.len()
        invariant
            i <= paths@.len(),
            p@ == prefix@,
            pv == changed_views(paths@),
            forall|k: int| 0 <= k < i ==> !starts_with(#[trigger] pv[k], prefix@),
        decreases paths@.len() - i,
    {
        let c = chars_of(paths[i].path.as_str());
        if starts_with_chars(c.as_slice(), p.as_slice()) {
            assert(starts_with(pv[i as int], prefix@));
            return true;
        }
        i += 1;
    }
    false
}

fn dedup_rules(s: Vec<TriggeredRule>) -> (out: Vec<TriggeredRule>)
    ensures
        view_seq(out@) == dedup_adjacent(view_seq(s@)),
{
    let ghost sv = view_seq(s@);
    let mut out: Vec<TriggeredRule> = Vec::new();
    let mut i: usize = 0;
    while i < s.len()
        invariant
            i <= s@.len(),
            sv == view_seq(s@),
            view_seq(out@) == dedup_adjacent(sv.take(i as int)),
        decreases s@.len() - i,
    {
        let ghost prev = view_seq(out@);
        assert(sv.take(i + 1).drop_last() =~= sv.take(i as int));
        assert(sv.take(i + 1).last() == sv[i as int]);
        let same = if out.len() > 0 {
            let last = &out[out.len() - 1];
            crate::text::str_eq(last.id.as_str(), s[i].id.as_str()) && crate::text::str_eq(
                last.when_path_prefix.as_str(),
                s[i].when_path_prefix.as_str(),
            )
        } else {
            false
        };
        proof {
            if i > 0 {
                lemma_dedup_adjacent_last(sv.take(i as int));
                assert(sv.take(i as int).last() == sv[i - 1]);
                assert(sv.take(i + 1)[i - 1] == sv[i - 1]);
            }
        }
        if !same {
            out.push(s[i].duplicate());
            assert(view_seq(out@) =~= prev.push(sv[i as int]));
        }
        i += 1;
    }
    assert(sv.take(s@.len() as int) =~= sv);
    out
}

/// Evaluates the obligation rules against the changes: the triggered rules
/// (sorted by id, repeats dropped) and what they require (cards and fact
/// types as sorted sets; a capsule if any rule asks for one).
pub fn evaluate_obligations(config: &ObligationsConfig, changes: &Vec<DiffPathChange>) -> (r: Result<(Vec<TriggeredRule>, Required), KbError>)
    ensures
        match r {
            Ok((rules, req)) => triggered_of(rule_views(config.rule@), changed_views(changes@)) matches Ok(t)
                && listed_rules(view_seq(rules@), t)
                && views(req.module_cards@) == sorted_set(cards_of(t))
                && views(req.fact_types@) == sorted_set(types_of(t))
                && req.session_capsule == session_of(t)
                && crate::order::strictly_sorted(views(req.module_cards@)),
            Err(e) => triggered_of(rule_views(config.rule@), changed_views(changes@)) == Err::<Seq<(ObligationRuleView, Chars)>, KbErrorView>(e@),
        },
{
    let ghost rv = rule_views(config.rule@);
    let ghost paths = changed_views(changes@);
    let mut triggered: Vec<TriggeredRule> = Vec::new();
    let mut cards: Vec<String> = Vec::new();
    let mut types: Vec<String> = Vec::new();
    let mut session = false;
    let ghost mut t: Seq<(ObligationRuleView, Chars)> = Seq::empty();
    let mut i: usize = 0;
    assert(rv.take(0) =~= Seq::<ObligationRuleView>::empty());
    while i < config.rule.len()
        invariant
            i <= config.rule@.len(),
            rv == rule_views(config.rule@),
            paths == changed_views(changes@),
            triggered_of(rv.take(i as int), paths) == Ok::<Seq<(ObligationRuleView, Chars)>, KbErrorView>(t),
            view_seq(triggered@) == rule_pairs(t),
            views(cards@) == cards_of(t),
            views(types@) == types_of(t),
            session == session_of(t),
        decreases config.rule@.len() - i,
    {
        let rule = &config.rule[i];
        assert(rv.take(i + 1).drop_last() =~= rv.take(i as int));
        assert(rv.take(i + 1).last() == rule@);
        let prefix = match normalize_path_prefix(rule.when_path_prefix.as_str()) {
            Ok(p) => p,
            Err(e) => {
                proof {
                    lemma_triggered_error_stays(rv, paths, i + 1, e@);
                }
                return Err(e);
            },
        };
        if any_starts_with(changes, prefix.as_str()) {
            let ghost t2 = t.push((rule@, prefix@));
            let ghost pt = view_seq(triggered@);
            triggered.push(TriggeredRule { id: rule.id.clone(), when_path_prefix: prefix });
            assert(view_seq(triggered@) =~= pt.push((rule@.id, t2.last().1)));
            assert(rule_pairs(t2) =~= rule_pairs(t).push((rule@.id, t2.last().1)));
            assert(t2.drop_last() =~= t);
            let ghost pc = views(cards@);
            match &rule.require_module_card {
                Some(c) => {
                    cards.push(c.clone());
                    assert(views(cards@) =~= pc + seq![c@]);
                },
                None => {
                    assert(views(cards@) =~= pc + Seq::<Chars>::empty());
                },
            }
            let ghost ptypes = views(types@);
            match &rule.require_fact_types {
                Some(ts) => {
                    crate::text::extend_strings(&mut types, ts);
                },
                None => {
                    assert(views(types@) =~= ptypes + Seq::<Chars>::empty());
                },
            }
            if rule.require_session_capsule == Some(true) {
                session = true;
            }
            proof {
                t = t2;
            }
        }
        i += 1;
    }
    assert(rv.take(config.rule@.len() as int) =~= rv);
    let ghost unsorted = triggered@;
    let sorted = stable_sort_by_key(&triggered);
    let ghost sorted_seq = sorted@;
    let listed = dedup_rules(sorted);
    assert(listed_rules(view_seq(listed@), t));
    let cards_out = sort_dedup(cards);
    let types_out = sort_dedup(types);
    proof {
        crate::order::lemma_sorted_set_of_is(views(cards_out@), cards_of(t));
        crate::order::lemma_sorted_set_of_is(views(types_out@), types_of(t));
    }
    Ok((listed, Required { module_cards: cards_out, fact_types: types_out, session_capsule: session }))
}

proof fn lemma_triggered_error_stays(rules: Seq<ObligationRuleView>, paths: Seq<Chars>, n: int, e: KbErrorView)
    requires
        0 <= n <= rules.len(),
        triggered_of(rules.take(n), paths) == Err::<Seq<(ObligationRuleView, Chars)>, KbErrorView>(e),
    ensures
        triggered_of(rules, paths) == Err::<Seq<(ObligationRuleView, Chars)>, KbErrorView>(e),
    decreases rules.len() - n,
{
    if n < rules.len() {
        assert(rules.take(n + 1).drop_last() =~= rules.take(n));
        lemma_triggered_error_stays(rules, paths, n + 1, e);
    } else {
        assert(rules.take(n) =~= rules);
    }
}

} // verus!

verus! {

/// The changed paths with the names of their kinds.
pub open spec fn changed_path_views(c: Seq<DiffPathChange>) -> Seq<(Chars, Chars)> {
    c.map_values(|x: DiffPathChange| (x.path@, change_kind_text(x.change_kind)))
}

fn changed_paths_of(changes: &Vec<DiffPathChange>) -> (out: Vec<ChangedPath>)
    ensures
        view_seq(out@) == changed_path_views(changes@),
{
    let mut out: Vec<ChangedPath> = Vec::new();
    let mut i: usize = 0;
    while i < changes.len()
        invariant
            i <= changes@.len(),
            view_seq(out@) == changed_path_views(changes@).take(i as int),
        decreases changes@.len() - i,
    {
        let ghost prev = view_seq(out@);
        let c = &changes[i];
        out.push(ChangedPath { path: c.path.clone(), change_kind: copy_str(c.change_kind.as_str()) });
        assert(view_seq(out@) =~= prev.push(changed_path_views(changes@)[i as int]));
        assert(changed_path_views(changes@).take(i + 1) =~= changed_path_views(changes@).take(i as int).push(
            changed_path_views(changes@)[i as int],
        ));
        i += 1;
    }
    assert(changed_path_views(changes@).take(changes@.len() as int) =~= changed_path_views(changes@));
    out
}

/// The plan of a diff, from its obligations config and its changes (sorted
/// by path and kind, as `list_changed_paths` gives them).
pub fn plan_diff_at(
    diff_source: &DiffSource,
    policy: Policy,
    config: &ObligationsConfig,
    changes: &Vec<DiffPathChange>,
) -> (r: Result<PlanDiffOutput, KbError>)
    ensures
        match r {
            Ok(out) => triggered_of(rule_views(config.rule@), changed_views(changes@)) matches Ok(t)
                && out.diff_source@ == display_text(diff_source@)
                && out.policy@ == policy_text(policy)
                && view_seq(out.changed_paths@) == changed_path_views(changes@)
                && views(out.affected_modules@) == sorted_set(cards_of(t))
                && listed_rules(view_seq(out.triggered_rules@), t)
                && views(out.required.module_cards@) == sorted_set(cards_of(t))
                && views(out.required.fact_types@) == sorted_set(types_of(t))
                && out.required.session_capsule == session_of(t),
            Err(e) => triggered_of(rule_views(config.rule@), changed_views(changes@)) == Err::<Seq<(ObligationRuleView, Chars)>, KbErrorView>(e@),
        },
{
    let changed_paths = changed_paths_of(changes);
    let (triggered_rules, required) = evaluate_obligations(config, changes)?;
    let affected_modules = sort_dedup(crate::text::copy_strings(&required.module_cards));
    proof {
        crate::order::lemma_sorted_set_of_is(views(affected_modules@), views(required.module_cards@));
        crate::order::lemma_sorted_set_idempotent(views(required.module_cards@));
    }
    Ok(PlanDiffOutput {
        diff_source: diff_source.as_display(),
        policy: copy_str(policy.as_str()),
        changed_paths,
        affected_modules,
        triggered_rules,
        required,
    })
}

pub open spec fn bool_text(b: bool) -> Chars {
    if b { "true"@ } else { "false"@ }
}

fn bool_str(b: bool) -> (s: &'static str)
    ensures
        s@ == bool_text(b),
{
    if b { "true" } else { "false" }
}

/// `- path (kind)` for each changed path.
pub open spec fn changed_lines(c: Seq<(Chars, Chars)>) -> Seq<Chars> {
    c.map_values(|x: (Chars, Chars)| "- "@ + x.0 + " ("@ + x.1 + ")"@)
}

/// `- id (prefix=..)` for each triggered rule.
pub open spec fn rule_lines(r: Seq<(Chars, Chars)>) -> Seq<Chars> {
    r.map_values(|x: (Chars, Chars)| "- "@ + x.0 + " (prefix="@ + x.1 + ")"@)
}

/// The `required:` section.
pub open spec fn required_lines(cards: Seq<Chars>, types: Seq<Chars>, session: bool) -> Seq<Chars> {
    seq![
        "required:"@,
        "- module_cards: "@ + join(cards, ", "@),
        "- fact_types: "@ + join(types, ", "@),
        "- session_capsule: "@ + bool_text(session),
    ]
}

/// The lines of a plan's text form.
pub open spec fn plan_lines(out: PlanDiffOutput) -> Seq<Chars> {
    seq!["diff_source: "@ + out.diff_source@, "policy: "@ + out.policy@, "changed_paths:"@]
        + changed_lines(view_seq(out.changed_paths@)) + seq!["triggered_rules:"@]
        + rule_lines(view_seq(out.triggered_rules@))
        + required_lines(views(out.required.module_cards@), views(out.required.fact_types@), out.required.session_capsule)
}

/// Pushes `- a (b)`-shaped lines.
fn push_pair_lines(lines: &mut Vec<String>, pairs: &Vec<(String, String)>, mid: &str)
    ensures
        views(final(lines)@) == views(old(lines)@) + pairs@.map_values(|x: (String, String)| "- "@ + x.0@ + mid@ + x.1@ + ")"@),
{
    let ghost start = views(lines@);
    let ghost want = pairs@.map_values(|x: (String, String)| "- "@ + x.0@ + mid@ + x.1@ + ")"@);
    let mut i: usize = 0;
    while i < pairs.len()
        invariant
            i <= pairs@.len(),
            want == pairs@.map_values(|x: (String, String)| "- "@ + x.0@ + mid@ + x.1@ + ")"@),
            views(lines@) == start + want.take(i as int),
        decreases pairs@.len() - i,
    {
        let mut s = copy_str("- ");
        append_str(&mut s, pairs[i].0.as_str());
        append_str(&mut s, mid);
        append_str(&mut s, pairs[i].1.as_str());
        append_str(&mut s, ")");
        let ghost prev = views(lines@);
        lines.push(s);
        assert(views(lines@) =~= prev.push(want[i as int]));
        assert(start + want.take(i + 1) =~= (start + want.take(i as int)).push(want[i as int]));
        i += 1;
    }
    assert(want.take(pairs@.len() as int) =~= want);
}

fn line2(a: &str, b: &str) -> (s: String)
    ensures
        s@ == a@ + b@,
{
    crate::text::concat2(a, b)
}

/// The text form of a plan.
pub fn plan_diff_text(out: &PlanDiffOutput) -> (s: String)
    ensures
        s@ == join(plan_lines(*out), "\n"@),
{
    let mut lines: Vec<String> = Vec::new();
    lines.push(line2("diff_source: ", out.diff_source.as_str()));
    lines.push(line2("policy: ", out.policy.as_str()));
    lines.push(copy_str("changed_paths:"));
    let mut pairs: Vec<(String, String)> = Vec::new();
    let mut i: usize = 0;
    while i < out.changed_paths.len()
        invariant
            i <= out.changed_paths@.len(),
            pairs@.map_values(|x: (String, String)| (x.0@, x.1@)) == view_seq(out.changed_paths@).take(i as int),
        decreases out.changed_paths@.len() - i,
    {
        let ghost prev = pairs@.map_values(|x: (String, String)| (x.0@, x.1@));
        let c = &out.changed_paths[i];
        pairs.push((c.path.clone(), c.change_kind.clone()));
        assert(pairs@.map_values(|x: (String, String)| (x.0@, x.1@)) =~= prev.push(c@));
        assert(view_seq(out.changed_paths@).take(i + 1) =~= view_seq(out.changed_paths@).take(i as int).push(c@));
        i += 1;
    }
    assert(view_seq(out.changed_paths@).take(out.changed_paths@.len() as int) =~= view_seq(out.changed_paths@));
    let ghost l0 = views(lines@);
    assert(l0 =~= seq!["diff_source: "@ + out.diff_source@, "policy: "@ + out.policy@, "changed_paths:"@]);
    push_pair_lines(&mut lines, &pairs, " (");
    assert(pairs@.map_values(|x: (String, String)| "- "@ + x.0@ + " ("@ + x.1@ + ")"@) =~= changed_lines(view_seq(out.changed_paths@))) by {
        assert forall|k: int| 0 <= k < pairs@.len() implies pairs@[k].0@ == view_seq(out.changed_paths@)[k].0 && pairs@[k].1@ == view_seq(out.changed_paths@)[k].1 by {
            assert(pairs@.map_values(|x: (String, String)| (x.0@, x.1@))[k] == (pairs@[k].0@, pairs@[k].1@));
        }
    }
    let ghost l1 = views(lines@);
    assert(l1 =~= l0 + changed_lines(view_seq(out.changed_paths@)));
    lines.push(copy_str("triggered_rules:"));
    let ghost l2 = views(lines@);
    assert(l2 =~= l1 + seq!["triggered_rules:"@]);
    let mut rpairs: Vec<(String, String)> = Vec::new();
    let mut j: usize = 0;
    while j < out.triggered_rules.len()
        invariant
            j <= out.triggered_rules@.len(),
            rpairs@.map_values(|x: (String, String)| (x.0@, x.1@)) == view_seq(out.triggered_rules@).take(j as int),
        decreases out.triggered_rules@.len() - j,
    {
        let ghost prev = rpairs@.map_values(|x: (String, String)| (x.0@, x.1@));
        let t = &out.triggered_rules[j];
        rpairs.push((t.id.clone(), t.when_path_prefix.clone()));
        assert(rpairs@.map_values(|x: (String, String)| (x.0@, x.1@)) =~= prev.push(t@));
        assert(view_seq(out.triggered_rules@).take(j + 1) =~= view_seq(out.triggered_rules@).take(j as int).push(t@));
        j += 1;
    }
    assert(view_seq(out.triggered_rules@).take(out.triggered_rules@.len() as int) =~= view_seq(out.triggered_rules@));
    push_pair_lines(&mut lines, &rpairs, " (prefix=");
    assert(rpairs@.map_values(|x: (String, String)| "- "@ + x.0@ + " (prefix="@ + x.1@ + ")"@) =~= rule_lines(view_seq(out.triggered_rules@))) by {
        assert forall|k: int| 0 <= k < rpairs@.len() implies rpairs@[k].0@ == view_seq(out.triggered_rules@)[k].0 && rpairs@[k].1@ == view_seq(out.triggered_rules@)[k].1 by {
            assert(rpairs@.map_values(|x: (String, String)| (x.0@, x.1@))[k] == (rpairs@[k].0@, rpairs@[k].1@));
        }
    }
    let ghost l3 = views(lines@);
    assert(l3 =~= l2 + rule_lines(view_seq(out.triggered_rules@)));
    lines.push(copy_str("required:"));
    lines.push(line2("- module_cards: ", join_strings(&out.required.module_cards, ", ").as_str()));
    lines.push(line2("- fact_types: ", join_strings(&out.required.fact_types, ", ").as_str()));
    lines.push(line2("- session_capsule: ", bool_str(out.required.session_capsule)));
    assert(views(lines@) =~= l3 + required_lines(views(out.required.module_cards@), views(out.required.fact_types@), out.required.session_capsule));
    assert(views(lines@) =~= plan_lines(*out));
    join_strings(&lines, "\n")
}

} // verus!

verus! {

proof fn lemma_triggered_members(rules: Seq<ObligationRuleView>, paths: Seq<Chars>, x: (ObligationRuleView, Chars))
    requires
        triggered_of(rules, paths) is Ok,
    ensures
        (triggered_of(rules, paths)->Ok_0).contains(x) <==> exists|i: int|
            0 <= i < rules.len() && #[trigger] rules[i] == x.0 && normalize_prefix(rules[i].when_path_prefix) == Ok::<
                Chars,
                KbErrorView,
            >(x.1) && exists|j: int| 0 <= j < paths.len() && starts_with(#[trigger] paths[j], x.1),
    decreases rules.len(),
{
    if rules.len() > 0 {
        let p = rules.drop_last();
        lemma_triggered_members(p, paths, x);
        let done = triggered_of(p, paths)->Ok_0;
        let t = triggered_of(rules, paths)->Ok_0;
        let r = rules.last();
        let np = normalize_prefix(r.when_path_prefix)->Ok_0;
        let tail: Seq<(ObligationRuleView, Chars)> = if prefix_matches(np, paths) { seq![(r, np)] } else { Seq::empty() };
        assert(t =~= done + tail);
        crate::text::lemma_contains_concat(done, tail, x);
        if exists|i: int|
            0 <= i < rules.len() && #[trigger] rules[i] == x.0 && normalize_prefix(rules[i].when_path_prefix) == Ok::<
                Chars,
                KbErrorView,
            >(x.1) && exists|j: int| 0 <= j < paths.len() && starts_with(#[trigger] paths[j], x.1) {
            let i = choose|i: int|
                0 <= i < rules.len() && #[trigger] rules[i] == x.0 && normalize_prefix(rules[i].when_path_prefix) == Ok::<
                    Chars,
                    KbErrorView,
                >(x.1) && exists|j: int| 0 <= j < paths.len() && starts_with(#[trigger] paths[j], x.1);
            if i < rules.len() - 1 {
                assert(p[i] == rules[i]);
            } else {
                assert(x.0 == r && x.1 == np);
                assert(prefix_matches(np, paths));
                assert(tail[0] == x);
            }
        }
        if done.contains(x) {
            let i = choose|i: int|
                0 <= i < p.len() && #[trigger] p[i] == x.0 && normalize_prefix(p[i].when_path_prefix) == Ok::<
                    Chars,
                    KbErrorView,
                >(x.1) && exists|j: int| 0 <= j < paths.len() && starts_with(#[trigger] paths[j], x.1);
            assert(rules[i] == p[i]);
        }
        if tail.contains(x) {
            assert(tail[0] == x);
            assert(rules[rules.len() - 1] == r);
        }
    }
}

proof fn lemma_requirements_of_member(t: Seq<(ObligationRuleView, Chars)>, x: (ObligationRuleView, Chars))
    requires
        t.contains(x),
    ensures
        x.0.require_module_card matches Some(c) ==> cards_of(t).contains(c),
        x.0.require_fact_types matches Some(ts) ==> forall|k: int| 0 <= k < ts.len() ==> types_of(t).contains(#[trigger] ts[k]),
        x.0.require_session_capsule == Some(true) ==> session_of(t),
    decreases t.len(),
{
    let p = t.drop_last();
    let tc: Seq<Chars> = match t.last().0.require_module_card {
        Some(c) => seq![c],
        None => Seq::empty(),
    };
    let tt: Seq<Chars> = match t.last().0.require_fact_types {
        Some(ts) => ts,
        None => Seq::empty(),
    };
    assert(cards_of(t) == cards_of(p) + tc);
    assert(types_of(t) == types_of(p) + tt);
    if t.last() == x {
        if x.0.require_module_card is Some {
            assert(tc[0] == x.0.require_module_card->Some_0);
            crate::text::lemma_contains_concat(cards_of(p), tc, x.0.require_module_card->Some_0);
        }
        if x.0.require_fact_types is Some {
            let ts = x.0.require_fact_types->Some_0;
            assert forall|k: int| 0 <= k < ts.len() implies types_of(t).contains(#[trigger] ts[k]) by {
                assert(tt[k] == ts[k]);
                crate::text::lemma_contains_concat(types_of(p), tt, ts[k]);
            }
        }
    } else {
        let i = choose|i: int| 0 <= i < t.len() && t[i] == x;
        assert(p[i] == x);
        lemma_requirements_of_member(p, x);
        if x.0.require_module_card is Some {
            crate::text::lemma_contains_concat(cards_of(p), tc, x.0.require_module_card->Some_0);
        }
        if x.0.require_fact_types is Some {
            let ts = x.0.require_fact_types->Some_0;
            assert forall|k: int| 0 <= k < ts.len() implies types_of(t).contains(#[trigger] ts[k]) by {
                crate::text::lemma_contains_concat(types_of(p), tt, ts[k]);
            }
        }
    }
}

/// A rule fires exactly when some changed path starts with its normalized
/// prefix, and what a fired rule asks for is required: its module card is
/// among the required cards, each of its fact types among the required
/// types, and a session capsule is required when it asks for one.
pub proof fn law_matching_rule_is_required(rules: Seq<ObligationRuleView>, paths: Seq<Chars>, i: int, p: Chars)
    requires
        triggered_of(rules, paths) is Ok,
        0 <= i < rules.len(),
        normalize_prefix(rules[i].when_path_prefix) == Ok::<Chars, KbErrorView>(p),
    ensures
        (triggered_of(rules, paths)->Ok_0).contains((rules[i], p)) <==> exists|j: int|
            0 <= j < paths.len() && starts_with(#[trigger] paths[j], p),
        (exists|j: int| 0 <= j < paths.len() && starts_with(#[trigger] paths[j], p)) ==> {
            let t = triggered_of(rules, paths)->Ok_0;
            &&& rules[i].require_module_card matches Some(c) ==> cards_of(t).contains(c)
            &&& rules[i].require_fact_types matches Some(ts) ==> forall|k: int|
                0 <= k < ts.len() ==> types_of(t).contains(#[trigger] ts[k])
            &&& rules[i].require_session_capsule == Some(true) ==> session_of(t)
        },
{
    let t = triggered_of(rules, paths)->Ok_0;
    lemma_triggered_members(rules, paths, (rules[i], p));
    if exists|j: int| 0 <= j < paths.len() && starts_with(#[trigger] paths[j], p) {
        assert(t.contains((rules[i], p)));
        lemma_requirements_of_member(t, (rules[i], p));
    }
}

proof fn lemma_card_source(t: Seq<(ObligationRuleView, Chars)>, c: Chars)
    requires
        cards_of(t).contains(c),
    ensures
        exists|k: int| 0 <= k < t.len() && (#[trigger] t[k]).0.require_module_card == Some(c),
    decreases t.len(),
{
    let p = t.drop_last();
    let tc: Seq<Chars> = match t.last().0.require_module_card {
        Some(x) => seq![x],
        None => Seq::empty(),
    };
    assert(cards_of(t) == cards_of(p) + tc);
    crate::text::lemma_contains_concat(cards_of(p), tc, c);
    if cards_of(p).contains(c) {
        lemma_card_source(p, c);
        let k = choose|k: int| 0 <= k < p.len() && (#[trigger] p[k]).0.require_module_card == Some(c);
        assert(t[k] == p[k]);
    } else {
        assert(tc[0] == c);
        assert(t[t.len() - 1].0.require_module_card == Some(c));
    }
}

/// Every required module card is asked for by a rule that fired: some rule
/// requires that card, and a changed path starts with its normalized
/// prefix.
pub proof fn law_required_card_has_fired_rule(rules: Seq<ObligationRuleView>, paths: Seq<Chars>, c: Chars)
    requires
        triggered_of(rules, paths) is Ok,
        cards_of(triggered_of(rules, paths)->Ok_0).contains(c),
    ensures
        exists|i: int|
            0 <= i < rules.len() && (#[trigger] rules[i]).require_module_card == Some(c) && normalize_prefix(
                rules[i].when_path_prefix,
            ) is Ok && exists|j: int|
                0 <= j < paths.len() && starts_with(#[trigger] paths[j], normalize_prefix(rules[i].when_path_prefix)->Ok_0),
{
    let t = triggered_of(rules, paths)->Ok_0;
    lemma_card_source(t, c);
    let k = choose|k: int| 0 <= k < t.len() && (#[trigger] t[k]).0.require_module_card == Some(c);
    assert(t.contains(t[k]));
    lemma_triggered_members(rules, paths, t[k]);
    let i = choose|i: int|
        0 <= i < rules.len() && #[trigger] rules[i] == t[k].0 && normalize_prefix(rules[i].when_path_prefix) == Ok::<
            Chars,
            KbErrorView,
        >(t[k].1) && exists|j: int| 0 <= j < paths.len() && starts_with(#[trigger] paths[j], t[k].1);
    assert(rules[i].require_module_card == Some(c));
}

} // verus!
