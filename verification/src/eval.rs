//! Routing evaluation: what each fixture case selects, misses and wrongly selects.
//! (The recall and precision ratios and their thresholds are computed by the
//! caller from the counts.)
use vstd::prelude::*;

use crate::catalog::{selector_of, Catalog, EntryKind, SkillleafError, SkillleafResult};
use crate::resolve::{
    broken, closed_map, first_missing, kept_map, resolution_ok, resolve, total_bytes, ResolvedEntry, Resolution,
};
use crate::strset::{copy_string, is_strset, strs_contain, strset_from, strset_insert, strset_new, text_set, views};
use crate::text::{concat2, owned, same_text};

verus! {

pub const EVAL_SCHEMA: &'static str = "skillleaf.eval.v1";

/// One routing fixture: a task, the selectors it must select and those it must not.
#[derive(Clone, Debug)]
pub struct EvalCase {
    pub name: String,
    pub task: String,
    pub expect: Vec<String>,
    pub reject: Vec<String>,
}

/// The outcome of one fixture.
#[derive(Clone, Debug)]
pub struct EvalCaseResult {
    pub name: String,
    pub passed: bool,
    pub selected: Vec<String>,
    pub missed: Vec<String>,
    pub rejected_but_selected: Vec<String>,
}

/// The counts from which recall and precision are computed.
#[derive(Clone, Debug)]
pub struct CaseCounts {
    pub expected: usize,
    pub selected: usize,
    pub true_positive: usize,
}

/// Checks the header of an evaluation suite: its schema and that it has a case.
pub fn check_suite(schema: &str, case_count: usize) -> (r: SkillleafResult<()>)
    ensures
        schema@ != EVAL_SCHEMA@ ==> (r matches Err(SkillleafError::CatalogInput(m)) && m@ == "unsupported evaluation schema: "@ + schema@),
        schema@ == EVAL_SCHEMA@ && case_count == 0 ==> (r matches Err(SkillleafError::CatalogInput(m)) && m@
            == "evaluation suite must contain at least one case"@),
        schema@ == EVAL_SCHEMA@ && case_count > 0 ==> r is Ok,
{
    if !same_text(schema, EVAL_SCHEMA) {
        return Err(SkillleafError::CatalogInput(concat2("unsupported evaluation schema: ", schema)));
    }
    if case_count == 0 {
        return Err(SkillleafError::CatalogInput(owned("evaluation suite must contain at least one case")));
    }
    Ok(())
}

/// The selectors of the skills and commands of a catalogue.
pub open spec fn routable(c: Catalog) -> Set<Seq<char>> {
    Set::new(|s: Seq<char>| exists|i: int| 0 <= i < c.entries@.len() && (#[trigger] c.entries@[i]).kind != EntryKind::Resource && selector_of(c.entries@[i]) == s)
}

/// The routable selectors that a resolution selected.
pub open spec fn selected_set(c: Catalog, res: Resolution) -> Set<Seq<char>> {
    res.selected@.map_values(|x: ResolvedEntry| x.selector@).to_set().intersect(routable(c))
}

/// The outcome of a fixture given what its task resolved to.
pub open spec fn case_scored(out: EvalCaseResult, counts: CaseCounts, c: Catalog, case: EvalCase, res: Resolution) -> bool {
    let sel = selected_set(c, res);
    let exp = views(case.expect@).to_set();
    let rej = views(case.reject@).to_set();
    &&& out.name@ == case.name@
    &&& is_strset(out.selected@) && text_set(out.selected@) == sel
    &&& is_strset(out.missed@) && text_set(out.missed@) == exp.difference(sel)
    &&& is_strset(out.rejected_but_selected@) && text_set(out.rejected_but_selected@) == rej.intersect(sel)
    &&& out.passed == (out.missed@.len() == 0 && out.rejected_but_selected@.len() == 0)
    &&& counts.expected == exp.len()
    &&& counts.selected == sel.len()
    &&& counts.true_positive == exp.intersect(sel).len()
}

/// Whether a catalogue has a skill or command with a selector.
fn is_routable(c: &Catalog, s: &str) -> (r: bool)
    ensures
        r == routable(*c).contains(s@),
{
    let mut i: usize = 0;
    while i < c.entries.len()
        invariant
            i <= c.entries@.len(),
            forall|j: int| 0 <= j < i ==> !((#[trigger] c.entries@[j]).kind != EntryKind::Resource && selector_of(c.entries@[j]) == s@),
        decreases c.entries@.len() - i,
    {
        if c.entries[i].kind != EntryKind::Resource {
            let sel = c.entries[i].selector();
            if same_text(sel.as_str(), s) {
                return true;
            }
        }
        i += 1;
    }
    false
}

/// The members of `a` that are (or, with `keep` false, are not) in `b`, as an ordered set.
fn filter_set(a: &Vec<String>, b: &Vec<String>, keep: bool) -> (r: Vec<String>)
    ensures
        is_strset(r@),
        keep ==> text_set(r@) == text_set(a@).intersect(text_set(b@)),
        !keep ==> text_set(r@) == text_set(a@).difference(text_set(b@)),
{
    let mut r = strset_new();
    let mut i: usize = 0;
    while i < a.len()
        invariant
            i <= a@.len(),
            is_strset(r@),
            keep ==> text_set(r@) == views(a@).take(i as int).to_set().intersect(text_set(b@)),
            !keep ==> text_set(r@) == views(a@).take(i as int).to_set().difference(text_set(b@)),
        decreases a@.len() - i,
    {
        let inside = strs_contain(b, a[i].as_str());
        if inside == keep {
            strset_insert(&mut r, copy_string(&a[i]));
        }
        proof {
            assert(views(a@).take(i + 1) =~= views(a@).take(i as int).push(a@[i as int]@));
            views(a@).take(i as int).lemma_push_to_set_commute(a@[i as int]@);
            if keep {
                assert(text_set(r@) =~= views(a@).take(i + 1).to_set().intersect(text_set(b@)));
            } else {
                assert(text_set(r@) =~= views(a@).take(i + 1).to_set().difference(text_set(b@)));
            }
        }
        i += 1;
    }
    proof {
        assert(views(a@).take(a@.len() as int) =~= views(a@));
    }
    r
}

/// Scores a fixture against what its task resolved to.
pub fn score_case(catalog: &Catalog, case: &EvalCase, res: &Resolution) -> (r: (EvalCaseResult, CaseCounts))
    ensures
        case_scored(r.0, r.1, *catalog, *case, *res),
{
    let mut sel = strset_new();
    let ghost ss = res.selected@.map_values(|x: ResolvedEntry| x.selector@);
    let mut i: usize = 0;
    while i < res.selected.len()
        invariant
            i <= res.selected@.len(),
            ss == res.selected@.map_values(|x: ResolvedEntry| x.selector@),
            is_strset(sel@),
            text_set(sel@) == ss.take(i as int).to_set().intersect(routable(*catalog)),
        decreases res.selected@.len() - i,
    {
        let s = &res.selected[i].selector;
        if is_routable(catalog, s.as_str()) {
            strset_insert(&mut sel, copy_string(s));
        }
        proof {
            assert(ss.take(i + 1) =~= ss.take(i as int).push(s@));
            ss.take(i as int).lemma_push_to_set_commute(s@);
            assert(text_set(sel@) =~= ss.take(i + 1).to_set().intersect(routable(*catalog)));
        }
        i += 1;
    }
    proof {
        assert(ss.take(res.selected@.len() as int) =~= ss);
    }
    let expected = strset_from(&case.expect);
    let rejected = strset_from(&case.reject);
    let missed = filter_set(&expected, &sel, false);
    let wrong = filter_set(&rejected, &sel, true);
    let hits = filter_set(&expected, &sel, true);
    proof {
        crate::strset::lemma_strset_len(expected@);
        crate::strset::lemma_strset_len(sel@);
        crate::strset::lemma_strset_len(hits@);
    }
    let counts = CaseCounts { expected: expected.len(), selected: sel.len(), true_positive: hits.len() };
    let passed = missed.len() == 0 && wrong.len() == 0;
    (EvalCaseResult { name: copy_string(&case.name), passed, selected: sel, missed, rejected_but_selected: wrong }, counts)
}

/// Resolves a fixture's task (with no required selector) and scores it.
pub fn evaluate_case(catalog: &Catalog, case: &EvalCase, limit: usize) -> (r: SkillleafResult<(EvalCaseResult, CaseCounts)>)
    requires
        !broken(catalog.entries@, kept_map(catalog.entries@, case.task@, Seq::empty(), limit as nat).dom())
            ==> total_bytes(catalog.entries@, catalog.entries@.len() as int) <= u64::MAX,
    ensures
        ({
            let km = kept_map(catalog.entries@, case.task@, Seq::empty(), limit as nat);
            if broken(catalog.entries@, km.dom()) {
                r matches Err(SkillleafError::Resolution(m)) && Some(m@) == crate::resolve::first_refusal(
                    catalog.entries@,
                    crate::strset::ordered(km.dom()),
                    Set::empty(),
                )
            } else {
                r matches Ok((out, counts)) && exists|res: Resolution| #[trigger] resolution_ok(
                    res,
                    *catalog,
                    case.task@,
                    closed_map(catalog.entries@, km),
                ) && case_scored(out, counts, *catalog, *case, res)
            }
        }),
{
    let none: Vec<String> = Vec::new();
    proof {
        assert(views(none@) =~= Seq::<Seq<char>>::empty());
        assert(first_missing(catalog.entries@, views(none@), 0) is None);
    }
    let res = resolve(catalog, case.task.as_str(), &none, limit)?;
    let (out, counts) = score_case(catalog, case, &res);
    Ok((out, counts))
}


/// The sum of one of the counts over the cases.
pub open spec fn count_sum(cs: Seq<CaseCounts>, field: int) -> int
    decreases cs.len(),
{
    if cs.len() == 0 {
        0
    } else {
        count_sum(cs.drop_last(), field) + if field == 0 {
            cs.last().expected as int
        } else if field == 1 {
            cs.last().selected as int
        } else {
            cs.last().true_positive as int
        }
    }
}

proof fn lemma_count_sum_mono(cs: Seq<CaseCounts>, field: int, k: int)
    requires
        0 <= k <= cs.len(),
    ensures
        0 <= count_sum(cs.take(k), field) <= count_sum(cs, field),
    decreases cs.len() - k,
{
    if k < cs.len() {
        lemma_count_sum_mono(cs, field, k + 1);
        assert(cs.take(k + 1).drop_last() =~= cs.take(k));
        lemma_count_sum_nonneg(cs.take(k), field);
    } else {
        assert(cs.take(k) =~= cs);
        lemma_count_sum_nonneg(cs, field);
    }
}

proof fn lemma_count_sum_nonneg(cs: Seq<CaseCounts>, field: int)
    ensures
        0 <= count_sum(cs, field),
    decreases cs.len(),
{
    if cs.len() > 0 {
        lemma_count_sum_nonneg(cs.drop_last(), field);
    }
}

/// The totals of a suite add up its cases: an empty suite totals nothing,
/// and one more case adds its expected, selected and true-positive counts to
/// the expected, selected and true-positive totals respectively (so a suite
/// of one case totals exactly that case's counts).
pub proof fn lemma_totals_add_cases(cs: Seq<CaseCounts>, c: CaseCounts)
    ensures
        count_sum(Seq::empty(), 0) == 0,
        count_sum(Seq::empty(), 1) == 0,
        count_sum(Seq::empty(), 2) == 0,
        count_sum(cs.push(c), 0) == count_sum(cs, 0) + c.expected,
        count_sum(cs.push(c), 1) == count_sum(cs, 1) + c.selected,
        count_sum(cs.push(c), 2) == count_sum(cs, 2) + c.true_positive,
        count_sum(seq![c], 0) == c.expected,
        count_sum(seq![c], 1) == c.selected,
        count_sum(seq![c], 2) == c.true_positive,
{
    assert(cs.push(c).drop_last() =~= cs);
    assert(seq![c].drop_last() =~= Seq::<CaseCounts>::empty());
}

/// The counts of a whole suite: each count summed over its cases.
pub fn total_counts(cases: &Vec<CaseCounts>) -> (r: CaseCounts)
    requires
        count_sum(cases@, 0) <= usize::MAX,
        count_sum(cases@, 1) <= usize::MAX,
        count_sum(cases@, 2) <= usize::MAX,
    ensures
        r.expected == count_sum(cases@, 0),
        r.selected == count_sum(cases@, 1),
        r.true_positive == count_sum(cases@, 2),
{
    let mut t = CaseCounts { expected: 0, selected: 0, true_positive: 0 };
    let mut i: usize = 0;
    while i < cases.len()
        invariant
            i <= cases@.len(),
            count_sum(cases@, 0) <= usize::MAX,
            count_sum(cases@, 1) <= usize::MAX,
            count_sum(cases@, 2) <= usize::MAX,
            t.expected == count_sum(cases@.take(i as int), 0),
            t.selected == count_sum(cases@.take(i as int), 1),
            t.true_positive == count_sum(cases@.take(i as int), 2),
        decreases cases@.len() - i,
    {
        proof {
            assert(cases@.take(i + 1).drop_last() =~= cases@.take(i as int));
            lemma_count_sum_mono(cases@, 0, i + 1);
            lemma_count_sum_mono(cases@, 1, i + 1);
            lemma_count_sum_mono(cases@, 2, i + 1);
        }
        t = CaseCounts {
            expected: t.expected + cases[i].expected,
            selected: t.selected + cases[i].selected,
            true_positive: t.true_positive + cases[i].true_positive,
        };
        i += 1;
    }
    proof {
        assert(cases@.take(cases@.len() as int) =~= cases@);
    }
    t
}

} // verus!
