//! Ranking of complete combinations under a named policy, and the Pareto
//! frontier over cost, lead time, purity and excess purchased mass.

use crate::commercial_catalog::model::{
    CommercialPlanningConfig, CommercialRankingPolicy, Money, PurityFraction,
};
use crate::commercial_catalog::ranking::{
    catalog_names, choice_cost_key, q_lt, cost_key_eq, cost_key_less, cost_key_lt, cost_key_same,
    cost_triple_lt, describes, id_names, maker_names, rank_entry, sorted_texts, texts_less,
    texts_lt, texts_same, unresolved_total, RankEntry,
};
use crate::commercial_catalog::search::{
    all_choices, chosen, cost_total, excess_overflows, excess_sum, chosen_lead_max, chosen_purity_min, choice_passes, choice_views,
    decode, decode_choice, decode_combo_index, first_k, frac_lt, lead_max, lemma_decode_len,
    passes_max_total_cost, passing, purity_min, row_lens, searchable, some_row_empty, space_size,
    total_combination_space, valid_choice, OfferCandidate,
};
use crate::error::GugenError;
use crate::frac::Frac;
use vstd::prelude::*;

verus! {

/// Lead times best first: a known one before an unknown one, the shorter
/// before the longer.
pub open spec fn lead_before(a: Option<int>, b: Option<int>) -> bool {
    match (a, b) {
        (Some(x), Some(y)) => x < y,
        (Some(_), None) => true,
        _ => false,
    }
}

/// Purities best first: a known one before an unknown one, the higher
/// before the lower.
pub open spec fn purity_before(a: Option<PurityFraction>, b: Option<PurityFraction>) -> bool {
    match (a, b) {
        (Some(x), Some(y)) => frac_lt(y.fraction(), x.fraction()),
        (Some(_), None) => true,
        _ => false,
    }
}

/// The name tiebreak: sorted manufacturers, then sorted catalog numbers,
/// then sorted offer identifiers, each in list order.
pub open spec fn names_before<'a>(a: Seq<OfferCandidate<'a>>, b: Seq<OfferCandidate<'a>>) -> bool {
    if sorted_texts(maker_names(a)) != sorted_texts(maker_names(b)) {
        texts_lt(sorted_texts(maker_names(a)), sorted_texts(maker_names(b)))
    } else if sorted_texts(catalog_names(a)) != sorted_texts(catalog_names(b)) {
        texts_lt(sorted_texts(catalog_names(a)), sorted_texts(catalog_names(b)))
    } else {
        texts_lt(sorted_texts(id_names(a)), sorted_texts(id_names(b)))
    }
}

/// Cost keys best first.
pub open spec fn cost_before<'a>(a: Seq<OfferCandidate<'a>>, b: Seq<OfferCandidate<'a>>) -> bool {
    choice_cost_key(a) != choice_cost_key(b) && cost_triple_lt(choice_cost_key(a), choice_cost_key(b))
}

/// The policies that rank by a total order.
pub open spec fn is_ordering_policy(policy: CommercialRankingPolicy) -> bool {
    ||| policy == CommercialRankingPolicy::CostFirst
    ||| policy == CommercialRankingPolicy::LeadTimeFirst
    ||| policy == CommercialRankingPolicy::PurityFirst
}

/// Choice `x` ranks strictly before `y` under `policy`: the policy's own
/// dimension first, then the fewest unresolved fields, then the remaining
/// dimensions among cost, lead time and purity in that order, then the
/// name tiebreak.
pub open spec fn policy_choice_before<'a>(
    rows: Seq<Vec<OfferCandidate<'a>>>,
    x: Seq<usize>,
    y: Seq<usize>,
    policy: CommercialRankingPolicy,
) -> bool {
    let a = chosen(rows, x);
    let b = chosen(rows, y);
    let ua = unresolved_total(a);
    let ub = unresolved_total(b);
    let la = lead_max(a);
    let lb = lead_max(b);
    let pa = purity_min(a);
    let pb = purity_min(b);
    let cost_differs = choice_cost_key(a) != choice_cost_key(b);
    let lead_differs = lead_before(la, lb) || lead_before(lb, la);
    let purity_differs = purity_before(pa, pb) || purity_before(pb, pa);
    match policy {
        CommercialRankingPolicy::CostFirst => if cost_differs {
            cost_before(a, b)
        } else if ua != ub {
            ua < ub
        } else if lead_differs {
            lead_before(la, lb)
        } else if purity_differs {
            purity_before(pa, pb)
        } else {
            names_before(a, b)
        },
        CommercialRankingPolicy::LeadTimeFirst => if lead_differs {
            lead_before(la, lb)
        } else if ua != ub {
            ua < ub
        } else if cost_differs {
            cost_before(a, b)
        } else if purity_differs {
            purity_before(pa, pb)
        } else {
            names_before(a, b)
        },
        CommercialRankingPolicy::PurityFirst => if purity_differs {
            purity_before(pa, pb)
        } else if ua != ub {
            ua < ub
        } else if cost_differs {
            cost_before(a, b)
        } else if lead_differs {
            lead_before(la, lb)
        } else {
            names_before(a, b)
        },
        _ => false,
    }
}

/// Each ordering policy ranks by its own dimension first: under cost first
/// a known total before an unknown one and the lower amount in the same
/// currency; under lead time first a known longest lead time before an
/// unknown one and the shorter; under purity first a known lowest purity
/// before an unknown one and the higher. With that dimension equal, fewer
/// unresolved fields come first. Each decides the order one way only.
pub proof fn lemma_policy_priorities<'a>(rows: Seq<Vec<OfferCandidate<'a>>>, x: Seq<usize>, y: Seq<usize>)
    ensures
        (cost_total(chosen(rows, x)) is Some && cost_total(chosen(rows, y)) is None) ==> policy_choice_before(
            rows,
            x,
            y,
            CommercialRankingPolicy::CostFirst,
        ) && !policy_choice_before(rows, y, x, CommercialRankingPolicy::CostFirst),
        (cost_total(chosen(rows, x)) matches Some(tx) && cost_total(chosen(rows, y)) matches Some(ty)
            && tx.1.letters() == ty.1.letters() && tx.0 < ty.0) ==> policy_choice_before(
            rows,
            x,
            y,
            CommercialRankingPolicy::CostFirst,
        ) && !policy_choice_before(rows, y, x, CommercialRankingPolicy::CostFirst),
        (cost_total(chosen(rows, x)) == cost_total(chosen(rows, y)) && unresolved_total(chosen(rows, x))
            < unresolved_total(chosen(rows, y))) ==> policy_choice_before(
            rows,
            x,
            y,
            CommercialRankingPolicy::CostFirst,
        ) && !policy_choice_before(rows, y, x, CommercialRankingPolicy::CostFirst),
        (lead_max(chosen(rows, x)) is Some && lead_max(chosen(rows, y)) is None) ==> policy_choice_before(
            rows,
            x,
            y,
            CommercialRankingPolicy::LeadTimeFirst,
        ) && !policy_choice_before(rows, y, x, CommercialRankingPolicy::LeadTimeFirst),
        (lead_max(chosen(rows, x)) matches Some(lx) && lead_max(chosen(rows, y)) matches Some(ly) && lx
            < ly) ==> policy_choice_before(rows, x, y, CommercialRankingPolicy::LeadTimeFirst)
            && !policy_choice_before(rows, y, x, CommercialRankingPolicy::LeadTimeFirst),
        (lead_max(chosen(rows, x)) == lead_max(chosen(rows, y)) && unresolved_total(chosen(rows, x))
            < unresolved_total(chosen(rows, y))) ==> policy_choice_before(
            rows,
            x,
            y,
            CommercialRankingPolicy::LeadTimeFirst,
        ) && !policy_choice_before(rows, y, x, CommercialRankingPolicy::LeadTimeFirst),
        (purity_min(chosen(rows, x)) is Some && purity_min(chosen(rows, y)) is None) ==> policy_choice_before(
            rows,
            x,
            y,
            CommercialRankingPolicy::PurityFirst,
        ) && !policy_choice_before(rows, y, x, CommercialRankingPolicy::PurityFirst),
        (purity_min(chosen(rows, x)) matches Some(px) && purity_min(chosen(rows, y)) matches Some(py)
            && py.fraction()@.0 * px.fraction()@.1 < px.fraction()@.0 * py.fraction()@.1)
            ==> policy_choice_before(rows, x, y, CommercialRankingPolicy::PurityFirst)
            && !policy_choice_before(rows, y, x, CommercialRankingPolicy::PurityFirst),
        (purity_min(chosen(rows, x)) == purity_min(chosen(rows, y)) && unresolved_total(chosen(rows, x))
            < unresolved_total(chosen(rows, y))) ==> policy_choice_before(
            rows,
            x,
            y,
            CommercialRankingPolicy::PurityFirst,
        ) && !policy_choice_before(rows, y, x, CommercialRankingPolicy::PurityFirst),
{
}

/// `x` inserted into a list ranked under `policy` after every entry it
/// does not rank strictly before (a stable insertion).
pub open spec fn insert_by_policy<'a>(
    rows: Seq<Vec<OfferCandidate<'a>>>,
    s: Seq<Seq<usize>>,
    x: Seq<usize>,
    policy: CommercialRankingPolicy,
) -> Seq<Seq<usize>>
    decreases s.len(),
{
    if s.len() == 0 {
        seq![x]
    } else if policy_choice_before(rows, x, s[0], policy) {
        seq![x] + s
    } else {
        seq![s[0]] + insert_by_policy(rows, s.drop_first(), x, policy)
    }
}

/// The choices ranked under `policy`, best first; equally ranked ones keep
/// their order.
pub open spec fn policy_sorted<'a>(
    rows: Seq<Vec<OfferCandidate<'a>>>,
    s: Seq<Seq<usize>>,
    policy: CommercialRankingPolicy,
) -> Seq<Seq<usize>>
    decreases s.len(),
{
    if s.len() == 0 {
        Seq::empty()
    } else {
        insert_by_policy(rows, policy_sorted(rows, s.drop_last(), policy), s.last(), policy)
    }
}

proof fn lemma_insert_by_policy_at<'a>(
    rows: Seq<Vec<OfferCandidate<'a>>>,
    s: Seq<Seq<usize>>,
    x: Seq<usize>,
    policy: CommercialRankingPolicy,
    p: int,
)
    requires
        0 <= p <= s.len(),
        forall|j: int| 0 <= j < p ==> !policy_choice_before(rows, x, #[trigger] s[j], policy),
        p < s.len() ==> policy_choice_before(rows, x, s[p], policy),
    ensures
        insert_by_policy(rows, s, x, policy) == s.take(p) + seq![x] + s.skip(p),
    decreases s.len(),
{
    if s.len() == 0 {
        assert(s.take(p) + seq![x] + s.skip(p) =~= seq![x]);
    } else if p == 0 {
        assert(s.take(0) + seq![x] + s.skip(0) =~= seq![x] + s);
    } else {
        let t = s.drop_first();
        assert forall|j: int| 0 <= j < p - 1 implies !policy_choice_before(rows, x, #[trigger] t[j], policy) by {
            assert(t[j] == s[j + 1]);
        }
        lemma_insert_by_policy_at(rows, t, x, policy, p - 1);
        assert(seq![s[0]] + (t.take(p - 1) + seq![x] + t.skip(p - 1)) =~= s.take(p) + seq![x] + s.skip(p));
    }
}

/// The metrics of one complete combination under the named policies:
/// the balanced rank entry, and the lead time and purity kept as genuine
/// options (unknown when one chosen offer leaves them unknown).
pub struct PolicyEntry {
    pub base: RankEntry,
    pub max_lead_time_days: Option<u32>,
    pub min_purity: Option<PurityFraction>,
}

/// `e` holds the metrics of the combination its indices pick from `rows`.
pub open spec fn policy_describes<'a>(e: PolicyEntry, rows: Seq<Vec<OfferCandidate<'a>>>) -> bool {
    let sel = chosen(rows, e.base.indices@);
    &&& describes(e.base, rows)
    &&& (e.max_lead_time_days is None <==> lead_max(sel) is None)
    &&& (e.max_lead_time_days matches Some(m) ==> lead_max(sel) == Some(m as int))
    &&& e.min_purity == purity_min(sel)
}

/// The policy metrics of the combination `indices` picks.
pub fn policy_entry<'a>(indices: Vec<usize>, rows: &[Vec<OfferCandidate<'a>>]) -> (r: PolicyEntry)
    requires
        valid_choice(rows@, indices@),
        indices@.len() > 0,
    ensures
        policy_describes(r, rows@),
        r.base.indices@ == indices@,
{
    let max_lead_time_days = chosen_lead_max(rows, indices.as_slice());
    let min_purity = chosen_purity_min(rows, indices.as_slice());
    let base = rank_entry(indices, rows);
    PolicyEntry { base, max_lead_time_days, min_purity }
}

/// Whether lead time `a` ranks strictly before `b`.
fn lead_time_best_first_before(a: Option<u32>, b: Option<u32>) -> (r: bool)
    ensures
        r == lead_before(
            match a {
                Some(x) => Some(x as int),
                None => None,
            },
            match b {
                Some(x) => Some(x as int),
                None => None,
            },
        ),
{
    match (a, b) {
        (Some(x), Some(y)) => x < y,
        (Some(_), None) => true,
        _ => false,
    }
}

/// Whether purity `a` ranks strictly before `b`.
fn purity_best_first_before(a: Option<PurityFraction>, b: Option<PurityFraction>) -> (r: bool)
    ensures
        r == purity_before(a, b),
{
    match (a, b) {
        (Some(x), Some(y)) => y.value().less_than(&x.value()),
        (Some(_), None) => true,
        _ => false,
    }
}

/// Whether entry `a` ranks strictly before `b` under `policy`, as
/// [`policy_choice_before`] says of their choices.
fn policy_before<'a>(
    a: &PolicyEntry,
    b: &PolicyEntry,
    policy: CommercialRankingPolicy,
    Ghost(rows): Ghost<Seq<Vec<OfferCandidate<'a>>>>,
) -> (r: bool)
    requires
        policy_describes(*a, rows),
        policy_describes(*b, rows),
        is_ordering_policy(policy),
    ensures
        r == policy_choice_before(rows, a.base.indices@, b.base.indices@, policy),
{
    let ghost sa = chosen(rows, a.base.indices@);
    let ghost sb = chosen(rows, b.base.indices@);
    proof {
        assert(cost_key_eq(a.base.cost_key, b.base.cost_key) == (choice_cost_key(sa) == choice_cost_key(sb)));
        if !cost_key_eq(a.base.cost_key, b.base.cost_key) {
            assert(cost_key_lt(a.base.cost_key, b.base.cost_key) == cost_triple_lt(choice_cost_key(sa), choice_cost_key(sb)));
        }
    }
    let cost_differs = !cost_key_same(&a.base.cost_key, &b.base.cost_key);
    let cost_first = cost_key_less(&a.base.cost_key, &b.base.cost_key);
    let ua = a.base.unresolved_sum;
    let ub = b.base.unresolved_sum;
    let lead_first = lead_time_best_first_before(a.max_lead_time_days, b.max_lead_time_days);
    let lead_second = lead_time_best_first_before(b.max_lead_time_days, a.max_lead_time_days);
    let purity_first = purity_best_first_before(a.min_purity, b.min_purity);
    let purity_second = purity_best_first_before(b.min_purity, a.min_purity);
    let lead_differs = lead_first || lead_second;
    let purity_differs = purity_first || purity_second;
    proof {
        assert(lead_first == lead_before(lead_max(sa), lead_max(sb)));
        assert(lead_second == lead_before(lead_max(sb), lead_max(sa)));
    }
    let names_first = if !texts_same(&a.base.manufacturers, &b.base.manufacturers) {
        texts_less(&a.base.manufacturers, &b.base.manufacturers)
    } else if !texts_same(&a.base.catalog_numbers, &b.base.catalog_numbers) {
        texts_less(&a.base.catalog_numbers, &b.base.catalog_numbers)
    } else {
        texts_less(&a.base.offer_ids, &b.base.offer_ids)
    };
    assert(names_first == names_before(sa, sb));
    match policy {
        CommercialRankingPolicy::CostFirst => if cost_differs {
            cost_first
        } else if ua != ub {
            ua < ub
        } else if lead_differs {
            lead_first
        } else if purity_differs {
            purity_first
        } else {
            names_first
        },
        CommercialRankingPolicy::LeadTimeFirst => if lead_differs {
            lead_first
        } else if ua != ub {
            ua < ub
        } else if cost_differs {
            cost_first
        } else if purity_differs {
            purity_first
        } else {
            names_first
        },
        _ => if purity_differs {
            purity_first
        } else if ua != ub {
            ua < ub
        } else if cost_differs {
            cost_first
        } else if lead_differs {
            lead_first
        } else {
            names_first
        },
    }
}

/// The index lists of policy entries.
pub open spec fn policy_choices(v: Seq<PolicyEntry>) -> Seq<Seq<usize>> {
    Seq::new(v.len(), |i: int| v[i].base.indices@)
}

/// Ranks entries under `policy`, best first; equally ranked ones keep
/// their order.
fn sort_policy_entries<'a>(
    v: Vec<PolicyEntry>,
    policy: CommercialRankingPolicy,
    Ghost(rows): Ghost<Seq<Vec<OfferCandidate<'a>>>>,
) -> (r: Vec<PolicyEntry>)
    requires
        is_ordering_policy(policy),
        forall|i: int| 0 <= i < v@.len() ==> policy_describes(#[trigger] v@[i], rows),
    ensures
        policy_choices(r@) == policy_sorted(rows, policy_choices(v@), policy),
        forall|i: int| 0 <= i < r@.len() ==> policy_describes(#[trigger] r@[i], rows),
{
    let ghost orig = policy_choices(v@);
    let ghost ov = v@;
    let n = v.len();
    let mut rest = v;
    let mut out: Vec<PolicyEntry> = Vec::new();
    let mut i: usize = 0;
    assert(policy_choices(out@) =~= policy_sorted(rows, orig.take(0), policy));
    while i < n
        invariant
            i <= n,
            n == orig.len(),
            n == ov.len(),
            orig == policy_choices(ov),
            is_ordering_policy(policy),
            rest@ == ov.skip(i as int),
            forall|k: int| 0 <= k < ov.len() ==> policy_describes(#[trigger] ov[k], rows),
            forall|k: int| 0 <= k < out@.len() ==> policy_describes(#[trigger] out@[k], rows),
            policy_choices(out@) == policy_sorted(rows, orig.take(i as int), policy),
        decreases n - i,
    {
        let x = rest.remove(0);
        proof {
            assert(x == ov[i as int]);
            assert(rest@ =~= ov.skip(i + 1));
        }
        let mut p: usize = 0;
        while p < out.len() && !policy_before(&x, &out[p], policy, Ghost(rows))
            invariant
                p <= out@.len(),
                is_ordering_policy(policy),
                policy_describes(x, rows),
                forall|k: int| 0 <= k < out@.len() ==> policy_describes(#[trigger] out@[k], rows),
                forall|j: int| 0 <= j < p ==> !policy_choice_before(rows, x.base.indices@, #[trigger] policy_choices(out@)[j], policy),
            decreases out@.len() - p,
        {
            p = p + 1;
        }
        let ghost o0 = out@;
        proof {
            lemma_insert_by_policy_at(rows, policy_choices(o0), x.base.indices@, policy, p as int);
            assert(orig.take(i + 1).drop_last() =~= orig.take(i as int));
            assert(orig.take(i + 1).last() == x.base.indices@);
        }
        out.insert(p, x);
        proof {
            assert(policy_choices(out@) =~= policy_choices(o0).take(p as int) + seq![orig[i as int]] + policy_choices(o0).skip(p as int));
            assert forall|k: int| 0 <= k < out@.len() implies policy_describes(#[trigger] out@[k], rows) by {
                if k < p {
                    assert(out@[k] == o0[k]);
                } else if k > p {
                    assert(out@[k] == o0[k - 1]);
                }
            }
        }
        i = i + 1;
    }
    assert(orig.take(n as int) =~= orig);
    out
}

/// The number of combinations the named policies evaluate: the whole
/// space, capped at the evaluation budget.
pub open spec fn evaluated_count(space: int, budget: int) -> int {
    if space <= budget {
        space
    } else {
        budget
    }
}

/// Every combination numbered below `total_space`, capped at
/// `config.max_combinations_evaluated`, decoded and scored, in numbering
/// order.
fn evaluate_all_by_policy<'a>(
    rows: &[Vec<OfferCandidate<'a>>],
    config: &CommercialPlanningConfig,
    total_space: u64,
) -> (r: Vec<PolicyEntry>)
    requires
        searchable(rows@),
    ensures
        r@.len() == evaluated_count(total_space as int, config.max_combinations_evaluated as int),
        policy_choices(r@) == all_choices(rows@, r@.len() as int),
        forall|i: int| 0 <= i < r@.len() ==> policy_describes(#[trigger] r@[i], rows@),
{
    let ghost lens = row_lens(rows@);
    let budget = config.max_combinations_evaluated as u64;
    let evaluated: u64 = if total_space <= budget {
        total_space
    } else {
        budget
    };
    let mut all: Vec<PolicyEntry> = Vec::new();
    let mut c: u64 = 0;
    assert(policy_choices(all@) =~= all_choices(rows@, 0));
    while c < evaluated
        invariant
            c <= evaluated,
            evaluated as int == evaluated_count(total_space as int, config.max_combinations_evaluated as int),
            searchable(rows@),
            lens == row_lens(rows@),
            all@.len() == c,
            policy_choices(all@) == all_choices(rows@, c as int),
            forall|i: int| 0 <= i < all@.len() ==> policy_describes(#[trigger] all@[i], rows@),
        decreases evaluated - c,
    {
        let idx = decode_combo_index(c, rows);
        proof {
            lemma_decode_len(c as int, lens);
            assert forall|j: int| 0 <= j < idx@.len() implies idx@[j] == #[trigger] decode_choice(c as int, lens)[j] by {
                assert(idx@[j] as int == decode(c as int, lens)[j]);
            }
            assert(idx@ =~= decode_choice(c as int, lens));
        }
        let e = policy_entry(idx, rows);
        let ghost a0 = all@;
        all.push(e);
        proof {
            assert forall|i: int| 0 <= i < c + 1 implies #[trigger] policy_choices(all@)[i] == all_choices(rows@, c + 1)[i] by {
                if i < c {
                    assert(all@[i] == a0[i]);
                    assert(policy_choices(a0)[i] == all_choices(rows@, c as int)[i]);
                } else {
                    assert(all@[i] == e);
                }
            }
            assert(policy_choices(all@) =~= all_choices(rows@, c + 1));
            assert forall|i: int| 0 <= i < all@.len() implies policy_describes(#[trigger] all@[i], rows@) by {
                if i < c {
                    assert(all@[i] == a0[i]);
                }
            }
        }
        c = c + 1;
    }
    all
}

/// What a named ordering policy returns: the evaluated combinations ranked
/// under the policy, those within the ceiling, at most `k` of them.
pub open spec fn policy_result<'a>(
    rows: Seq<Vec<OfferCandidate<'a>>>,
    n: int,
    ceiling: Option<Money>,
    k: int,
    policy: CommercialRankingPolicy,
) -> Seq<Seq<usize>> {
    first_k(passing(rows, policy_sorted(rows, all_choices(rows, n), policy), ceiling), k)
}

/// Keeps, in order, the entries within the cost ceiling, at most `k`.
fn take_passing<'a>(
    v: Vec<PolicyEntry>,
    max_total_cost: Option<Money>,
    k: usize,
    Ghost(rows): Ghost<Seq<Vec<OfferCandidate<'a>>>>,
) -> (r: Vec<Vec<usize>>)
    requires
        forall|i: int| 0 <= i < v@.len() ==> policy_describes(#[trigger] v@[i], rows),
    ensures
        choice_views(r@) == first_k(passing(rows, policy_choices(v@), max_total_cost), k as int),
{
    let ghost sorted = policy_choices(v@);
    let ghost ov = v@;
    let n = v.len();
    let mut rest = v;
    let mut results: Vec<Vec<usize>> = Vec::new();
    let mut i: usize = 0;
    proof {
        assert(sorted.take(0) =~= Seq::<Seq<usize>>::empty());
        assert(choice_views(results@) =~= Seq::<Seq<usize>>::empty());
    }
    while i < n
        invariant
            i <= n,
            n == sorted.len(),
            n == ov.len(),
            sorted == policy_choices(ov),
            rest@ == ov.skip(i as int),
            forall|j: int| 0 <= j < ov.len() ==> policy_describes(#[trigger] ov[j], rows),
            choice_views(results@) == first_k(passing(rows, sorted.take(i as int), max_total_cost), k as int),
        decreases n - i,
    {
        let e = rest.remove(0);
        proof {
            assert(e == ov[i as int]);
            assert(rest@ =~= ov.skip(i + 1));
            assert(sorted.take(i + 1).drop_last() =~= sorted.take(i as int));
            assert(sorted.take(i + 1).last() == e.base.indices@);
        }
        let keep = passes_max_total_cost(e.base.total_cost, max_total_cost);
        assert(keep == choice_passes(rows, e.base.indices@, max_total_cost));
        if keep && results.len() < k {
            let ghost before = choice_views(results@);
            results.push(e.base.indices);
            proof {
                assert(choice_views(results@) =~= before.push(sorted[i as int]));
            }
        }
        i = i + 1;
    }
    proof {
        assert(sorted.take(n as int) =~= sorted);
    }
    results
}

/// Ranks the evaluated combinations (the whole space, capped at the
/// evaluation budget) under `policy`, one of `CostFirst`, `LeadTimeFirst`
/// and `PurityFirst`, keeps those within the cost ceiling before
/// truncating to `config.max_results_returned`, and returns them with the
/// number evaluated and the space size. With no row, or an empty one,
/// there is none.
pub fn ranked_search_by_policy<'a>(
    rows: &[Vec<OfferCandidate<'a>>],
    config: &CommercialPlanningConfig,
    max_total_cost: Option<Money>,
    policy: CommercialRankingPolicy,
) -> (r: (Vec<Vec<usize>>, usize, u64))
    requires
        is_ordering_policy(policy),
    ensures
        !searchable(rows@) ==> r.0@.len() == 0 && r.1 == 0 && r.2 == 0,
        searchable(rows@) ==> {
            &&& r.2 == space_size(row_lens(rows@))
            &&& r.1 == evaluated_count(r.2 as int, config.max_combinations_evaluated as int)
            &&& choice_views(r.0@) == policy_result(
                rows@,
                r.1 as int,
                max_total_cost,
                config.max_results_returned as int,
                policy,
            )
        },
{
    if rows.len() == 0 || some_row_empty(rows) {
        return (Vec::new(), 0, 0);
    }
    let total_space = total_combination_space(rows);
    let all = evaluate_all_by_policy(rows, config, total_space);
    let evaluated = all.len();
    let ghost listed = policy_choices(all@);
    let sorted = sort_policy_entries(all, policy, Ghost(rows@));
    let results = take_passing(sorted, max_total_cost, config.max_results_returned, Ghost(rows@));
    (results, evaluated, total_space)
}

/// The cost, lead time, purity and excess purchased mass of the choice are
/// all known.
pub open spec fn fully_known<'a>(rows: Seq<Vec<OfferCandidate<'a>>>, x: Seq<usize>) -> bool {
    let sel = chosen(rows, x);
    &&& cost_total(sel) is Some
    &&& lead_max(sel) is Some
    &&& purity_min(sel) is Some
    &&& excess_sum(sel) is Some
}

/// The fully known choices of `s`, in order.
pub open spec fn known_choices<'a>(rows: Seq<Vec<OfferCandidate<'a>>>, s: Seq<Seq<usize>>) -> Seq<Seq<usize>>
    decreases s.len(),
{
    if s.len() == 0 {
        Seq::empty()
    } else {
        let p = known_choices(rows, s.drop_last());
        if fully_known(rows, s.last()) {
            p.push(s.last())
        } else {
            p
        }
    }
}

/// The currency letters of a choice's total, empty when it is unknown.
pub open spec fn cost_letters<'a>(rows: Seq<Vec<OfferCandidate<'a>>>, x: Seq<usize>) -> Seq<char> {
    match cost_total(chosen(rows, x)) {
        Some(t) => t.1.letters(),
        None => Seq::empty(),
    }
}

/// The choices of `s` priced in the currency `letters`, in order.
pub open spec fn in_currency<'a>(rows: Seq<Vec<OfferCandidate<'a>>>, s: Seq<Seq<usize>>, letters: Seq<char>) -> Seq<Seq<usize>>
    decreases s.len(),
{
    if s.len() == 0 {
        Seq::empty()
    } else {
        let p = in_currency(rows, s.drop_last(), letters);
        if cost_letters(rows, s.last()) == letters {
            p.push(s.last())
        } else {
            p
        }
    }
}

/// The fully known choices of `s` priced in the currency of the first of
/// them, in order.
pub open spec fn comparable_choices<'a>(rows: Seq<Vec<OfferCandidate<'a>>>, s: Seq<Seq<usize>>) -> Seq<Seq<usize>> {
    let k = known_choices(rows, s);
    if k.len() == 0 {
        k
    } else {
        in_currency(rows, k, cost_letters(rows, k[0]))
    }
}

/// Choice `x` dominates `y`: at least as good on every dimension (lower or
/// equal cost, lead time and excess mass, higher or equal purity) and
/// strictly better on one. Costs are compared by their minor units.
pub open spec fn dominates_choice<'a>(rows: Seq<Vec<OfferCandidate<'a>>>, x: Seq<usize>, y: Seq<usize>) -> bool {
    let a = chosen(rows, x);
    let b = chosen(rows, y);
    match (cost_total(a), cost_total(b), lead_max(a), lead_max(b), purity_min(a), purity_min(b), excess_sum(a), excess_sum(b)) {
        (Some(ca), Some(cb), Some(la), Some(lb), Some(pa), Some(pb), Some(ea), Some(eb)) => {
            let at_least_as_good = ca.0 <= cb.0 && la <= lb && !frac_lt(pa.fraction(), pb.fraction()) && !q_lt(eb, ea);
            let strictly_better = ca.0 < cb.0 || la < lb || frac_lt(pb.fraction(), pa.fraction()) || q_lt(ea, eb);
            at_least_as_good && strictly_better
        },
        _ => false,
    }
}

/// A combination dominates another exactly when both have a known total,
/// lead time, lowest purity and excess mass, and it costs no more, arrives
/// no later, is no less pure and wastes no more, while being strictly
/// better in one of these. In particular a combination is never dominated
/// by a less pure one, nor by a dearer, slower or more wasteful one.
pub proof fn lemma_dominance<'a>(rows: Seq<Vec<OfferCandidate<'a>>>, x: Seq<usize>, y: Seq<usize>)
    ensures
        dominates_choice(rows, x, y) <==> (cost_total(chosen(rows, x)) matches Some(ca) && cost_total(
            chosen(rows, y),
        ) matches Some(cb) && lead_max(chosen(rows, x)) matches Some(la) && lead_max(chosen(rows, y))
            matches Some(lb) && purity_min(chosen(rows, x)) matches Some(pa) && purity_min(chosen(rows, y))
            matches Some(pb) && excess_sum(chosen(rows, x)) matches Some(ea) && excess_sum(chosen(rows, y))
            matches Some(eb) && ca.0 <= cb.0 && la <= lb && pb.fraction()@.0 * pa.fraction()@.1
            <= pa.fraction()@.0 * pb.fraction()@.1 && ea.0 * eb.1 <= eb.0 * ea.1 && (ca.0 < cb.0 || la < lb
            || pb.fraction()@.0 * pa.fraction()@.1 < pa.fraction()@.0 * pb.fraction()@.1 || ea.0 * eb.1
            < eb.0 * ea.1)),
        (purity_min(chosen(rows, x)) matches Some(px) && purity_min(chosen(rows, y)) matches Some(py)
            && py.fraction()@.0 * px.fraction()@.1 < px.fraction()@.0 * py.fraction()@.1)
            ==> !dominates_choice(rows, y, x),
{
}

/// Some choice of `pool` dominates `x`.
pub open spec fn dominated_in<'a>(rows: Seq<Vec<OfferCandidate<'a>>>, x: Seq<usize>, pool: Seq<Seq<usize>>) -> bool {
    exists|j: int| 0 <= j < pool.len() && dominates_choice(rows, #[trigger] pool[j], x)
}

/// The choices of `s` that no choice of `pool` dominates, in order.
pub open spec fn undominated<'a>(rows: Seq<Vec<OfferCandidate<'a>>>, s: Seq<Seq<usize>>, pool: Seq<Seq<usize>>) -> Seq<Seq<usize>>
    decreases s.len(),
{
    if s.len() == 0 {
        Seq::empty()
    } else {
        let p = undominated(rows, s.drop_last(), pool);
        if !dominated_in(rows, s.last(), pool) {
            p.push(s.last())
        } else {
            p
        }
    }
}

/// What the Pareto policy returns: among the first `n` combinations, the
/// comparable ones no other comparable one dominates, ranked cheapest
/// first, those within the ceiling, at most `k` of them.
pub open spec fn pareto_result<'a>(
    rows: Seq<Vec<OfferCandidate<'a>>>,
    n: int,
    ceiling: Option<Money>,
    k: int,
) -> Seq<Seq<usize>> {
    let comparable = comparable_choices(rows, all_choices(rows, n));
    let frontier = undominated(rows, comparable, comparable);
    first_k(passing(rows, policy_sorted(rows, frontier, CommercialRankingPolicy::CostFirst), ceiling), k)
}

proof fn lemma_known_len<'a>(rows: Seq<Vec<OfferCandidate<'a>>>, s: Seq<Seq<usize>>)
    ensures
        known_choices(rows, s).len() <= s.len(),
    decreases s.len(),
{
    if s.len() > 0 {
        lemma_known_len(rows, s.drop_last());
    }
}

proof fn lemma_in_currency_len<'a>(rows: Seq<Vec<OfferCandidate<'a>>>, s: Seq<Seq<usize>>, letters: Seq<char>)
    ensures
        in_currency(rows, s, letters).len() <= s.len(),
    decreases s.len(),
{
    if s.len() > 0 {
        lemma_in_currency_len(rows, s.drop_last(), letters);
    }
}

proof fn lemma_comparable_len<'a>(rows: Seq<Vec<OfferCandidate<'a>>>, s: Seq<Seq<usize>>)
    ensures
        comparable_choices(rows, s).len() <= s.len(),
{
    let k = known_choices(rows, s);
    lemma_known_len(rows, s);
    if k.len() > 0 {
        lemma_in_currency_len(rows, k, cost_letters(rows, k[0]));
    }
}

/// A fully known combination with its total excess purchased mass.
struct ParetoPoint {
    entry: PolicyEntry,
    excess: Frac,
}

spec fn point_describes<'a>(p: ParetoPoint, rows: Seq<Vec<OfferCandidate<'a>>>) -> bool {
    &&& policy_describes(p.entry, rows)
    &&& fully_known(rows, p.entry.base.indices@)
    &&& p.excess.wf()
    &&& excess_sum(chosen(rows, p.entry.base.indices@)) == Some(p.excess@)
}

spec fn point_choices(v: Seq<ParetoPoint>) -> Seq<Seq<usize>> {
    Seq::new(v.len(), |i: int| v[i].entry.base.indices@)
}

/// Whether `a` dominates `b`, as [`dominates_choice`] says; both must be
/// fully known.
fn dominates<'a>(a: &ParetoPoint, b: &ParetoPoint, Ghost(rows): Ghost<Seq<Vec<OfferCandidate<'a>>>>) -> (r: bool)
    requires
        point_describes(*a, rows),
        point_describes(*b, rows),
    ensures
        r == dominates_choice(rows, a.entry.base.indices@, b.entry.base.indices@),
{
    let a_cost = match a.entry.base.total_cost {
        Some(m) => m.minor_units(),
        None => 0,
    };
    let b_cost = match b.entry.base.total_cost {
        Some(m) => m.minor_units(),
        None => 0,
    };
    let a_lead = match a.entry.max_lead_time_days {
        Some(d) => d,
        None => 0,
    };
    let b_lead = match b.entry.max_lead_time_days {
        Some(d) => d,
        None => 0,
    };
    let (a_purity, b_purity) = match (a.entry.min_purity, b.entry.min_purity) {
        (Some(x), Some(y)) => (x.value(), y.value()),
        _ => (Frac::zero(), Frac::zero()),
    };
    let a_below = a_purity.less_than(&b_purity);
    let b_below = b_purity.less_than(&a_purity);
    let a_excess_below = a.excess.less_than(&b.excess);
    let b_excess_below = b.excess.less_than(&a.excess);
    let at_least_as_good = a_cost <= b_cost && a_lead <= b_lead && !a_below && !b_excess_below;
    let strictly_better = a_cost < b_cost || a_lead < b_lead || b_below || a_excess_below;
    at_least_as_good && strictly_better
}

/// The chosen excess masses, where known, are well-formed fractions.
pub open spec fn excess_masses_wf<'a>(rows: Seq<Vec<OfferCandidate<'a>>>) -> bool {
    forall|i: int, j: int|
        0 <= i < rows.len() && 0 <= j < rows[i]@.len() && (#[trigger] rows[i]@[j]).quantity.excess_mass_grams is Some
            ==> rows[i]@[j].quantity.excess_mass_grams->0.wf()
}

/// For one of the first `n` combinations, summing its excess masses leaves
/// `i128`.
pub open spec fn pareto_overflows<'a>(rows: Seq<Vec<OfferCandidate<'a>>>, n: int) -> bool {
    exists|k: int| 0 <= k < n && excess_overflows(chosen(rows, #[trigger] all_choices(rows, n)[k]))
}

/// The non-dominated set over cost, lead time, purity and excess purchased
/// mass among the evaluated combinations (the whole space, capped at the
/// evaluation budget). A combination missing one of the four, or priced in
/// another currency than the first fully known one, is excluded and
/// counted. The frontier is ranked cheapest first (the `CostFirst` order),
/// kept within the cost ceiling and truncated to
/// `config.max_results_returned`. Returns the choices, the number
/// evaluated, the space size and the number excluded; with no row, or an
/// empty one, all are empty. `Err(ArithmeticOverflow)` exactly when, for
/// some evaluated combination, summing its excess masses leaves `i128`
/// ([`pareto_overflows`]).
pub fn pareto_search<'a>(
    rows: &[Vec<OfferCandidate<'a>>],
    config: &CommercialPlanningConfig,
    max_total_cost: Option<Money>,
) -> (r: Result<(Vec<Vec<usize>>, usize, u64, usize), GugenError>)
    requires
        excess_masses_wf(rows@),
    ensures
        r is Err ==> r->Err_0 == GugenError::ArithmeticOverflow,
        !searchable(rows@) ==> (r matches Ok(t) && t.0@.len() == 0 && t.1 == 0 && t.2 == 0 && t.3 == 0),
        searchable(rows@) ==> (r is Err <==> pareto_overflows(
            rows@,
            evaluated_count(space_size(row_lens(rows@)) as int, config.max_combinations_evaluated as int),
        )),
        searchable(rows@) ==> (r matches Ok(t) ==> {
            &&& t.2 == space_size(row_lens(rows@))
            &&& t.1 == evaluated_count(t.2 as int, config.max_combinations_evaluated as int)
            &&& choice_views(t.0@) == pareto_result(rows@, t.1 as int, max_total_cost, config.max_results_returned as int)
            &&& t.3 == t.1 - comparable_choices(rows@, all_choices(rows@, t.1 as int)).len()
        }),
{
    if rows.len() == 0 || some_row_empty(rows) {
        return Ok((Vec::new(), 0, 0, 0));
    }
    let total_space = total_combination_space(rows);
    let all = evaluate_all_by_policy(rows, config, total_space);
    let evaluated = all.len();
    let ghost listed = policy_choices(all@);
    let ghost oall = all@;

    // The fully known combinations, with their excess totals.
    let mut known: Vec<ParetoPoint> = Vec::new();
    let mut rest = all;
    let mut i: usize = 0;
    assert(point_choices(known@) =~= known_choices(rows@, listed.take(0)));
    while i < evaluated
        invariant
            i <= evaluated,
            evaluated == oall.len(),
            listed == policy_choices(oall),
            searchable(rows@),
            excess_masses_wf(rows@),
            rest@ == oall.skip(i as int),
            forall|k: int| 0 <= k < oall.len() ==> policy_describes(#[trigger] oall[k], rows@),
            forall|k: int| 0 <= k < known@.len() ==> point_describes(#[trigger] known@[k], rows@),
            point_choices(known@) == known_choices(rows@, listed.take(i as int)),
            forall|k: int| 0 <= k < i ==> !excess_overflows(chosen(rows@, #[trigger] listed[k])),
            listed == all_choices(rows@, evaluated as int),
            evaluated == evaluated_count(total_space as int, config.max_combinations_evaluated as int),
            total_space == space_size(row_lens(rows@)),
        decreases evaluated - i,
    {
        let e = rest.remove(0);
        proof {
            assert(e == oall[i as int]);
            assert(rest@ =~= oall.skip(i + 1));
            assert(listed.take(i + 1).drop_last() =~= listed.take(i as int));
            assert(listed.take(i + 1).last() == e.base.indices@);
            let sel = chosen(rows@, e.base.indices@);
            assert forall|k: int|
                0 <= k < e.base.indices@.len() && (#[trigger] sel[k]).quantity.excess_mass_grams is Some
                    implies sel[k].quantity.excess_mass_grams->0.wf() by {
                assert(sel[k] == rows@[k]@[e.base.indices@[k] as int]);
            }
        }
        let excess = match crate::commercial_catalog::search::chosen_excess_sum(rows, e.base.indices.as_slice()) {
            Ok(x) => x,
            Err(err) => {
                proof {
                    assert(listed[i as int] == e.base.indices@);
                    assert(excess_overflows(chosen(rows@, all_choices(rows@, evaluated as int)[i as int])));
                }
                return Err(err);
            },
        };
        assert(listed[i as int] == e.base.indices@);
        match excess {
            Some(ex) => {
                if e.base.total_cost.is_some() && e.max_lead_time_days.is_some() && e.min_purity.is_some() {
                    let ghost k0 = point_choices(known@);
                    let ghost k0v = known@;
                    known.push(ParetoPoint { entry: e, excess: ex });
                    proof {
                        assert(point_choices(known@) =~= k0.push(listed[i as int]));
                        assert forall|k: int| 0 <= k < known@.len() implies point_describes(#[trigger] known@[k], rows@) by {
                            if k < k0v.len() {
                                assert(known@[k] == k0v[k]);
                            }
                        }
                    }
                }
            },
            None => {},
        }
        i = i + 1;
    }
    proof {
        assert(listed.take(evaluated as int) =~= listed);
        assert(!pareto_overflows(rows@, evaluated as int));
    }

    // Those priced in the currency of the first fully known combination.
    let ghost kc = point_choices(known@);
    let ghost oknown = known@;
    let nk = known.len();
    let mut comparable: Vec<ParetoPoint> = Vec::new();
    if nk > 0 {
        let reference = match known[0].entry.base.total_cost {
            Some(m) => m.currency(),
            None => {
                assert(false);
                return Ok((Vec::new(), 0, 0, 0));
            },
        };
        assert(reference.letters() == cost_letters(rows@, kc[0]));
        let mut rest2 = known;
        let mut j: usize = 0;
        assert(point_choices(comparable@) =~= in_currency(rows@, kc.take(0), reference.letters()));
        while j < nk
            invariant
                j <= nk,
                nk == oknown.len(),
                kc == point_choices(oknown),
                reference.letters() == cost_letters(rows@, kc[0]),
                rest2@ == oknown.skip(j as int),
                forall|k: int| 0 <= k < oknown.len() ==> point_describes(#[trigger] oknown[k], rows@),
                forall|k: int| 0 <= k < comparable@.len() ==> point_describes(#[trigger] comparable@[k], rows@),
                point_choices(comparable@) == in_currency(rows@, kc.take(j as int), reference.letters()),
            decreases nk - j,
        {
            let p = rest2.remove(0);
            proof {
                assert(p == oknown[j as int]);
                assert(rest2@ =~= oknown.skip(j + 1));
                assert(kc.take(j + 1).drop_last() =~= kc.take(j as int));
                assert(kc.take(j + 1).last() == p.entry.base.indices@);
            }
            let same = match p.entry.base.total_cost {
                Some(m) => m.currency().same(&reference),
                None => false,
            };
            assert(same == (cost_letters(rows@, p.entry.base.indices@) == reference.letters()));
            if same {
                let ghost c0 = point_choices(comparable@);
                let ghost c0v = comparable@;
                comparable.push(p);
                proof {
                    assert(point_choices(comparable@) =~= c0.push(kc[j as int]));
                    assert forall|k: int| 0 <= k < comparable@.len() implies point_describes(#[trigger] comparable@[k], rows@) by {
                        if k < c0v.len() {
                            assert(comparable@[k] == c0v[k]);
                        }
                    }
                }
            }
            j = j + 1;
        }
        proof {
            assert(kc.take(nk as int) =~= kc);
        }
    } else {
        assert(point_choices(comparable@) =~= comparable_choices(rows@, listed));
    }
    let ghost cc = point_choices(comparable@);
    assert(cc == comparable_choices(rows@, all_choices(rows@, evaluated as int)));
    proof {
        lemma_comparable_len(rows@, listed);
    }

    // Which of them no other one dominates.
    let nc = comparable.len();
    let mut keep: Vec<bool> = Vec::new();
    let mut a: usize = 0;
    while a < nc
        invariant
            a <= nc,
            nc == comparable@.len(),
            cc == point_choices(comparable@),
            forall|k: int| 0 <= k < comparable@.len() ==> point_describes(#[trigger] comparable@[k], rows@),
            keep@.len() == a,
            forall|k: int| 0 <= k < a ==> #[trigger] keep@[k] == !dominated_in(rows@, cc[k], cc),
        decreases nc - a,
    {
        let mut dominated = false;
        let mut b: usize = 0;
        while b < nc
            invariant
                b <= nc,
                a < nc,
                nc == comparable@.len(),
                cc == point_choices(comparable@),
                forall|k: int| 0 <= k < comparable@.len() ==> point_describes(#[trigger] comparable@[k], rows@),
                dominated == exists|j: int| 0 <= j < b && dominates_choice(rows@, #[trigger] cc[j], cc[a as int]),
            decreases nc - b,
        {
            let d = dominates(&comparable[b], &comparable[a], Ghost(rows@));
            proof {
                assert(cc[b as int] == comparable@[b as int].entry.base.indices@);
                assert(cc[a as int] == comparable@[a as int].entry.base.indices@);
            }
            if d {
                dominated = true;
            }
            b = b + 1;
        }
        keep.push(!dominated);
        a = a + 1;
    }
    let ghost ocomp = comparable@;
    let mut frontier: Vec<PolicyEntry> = Vec::new();
    let mut rest3 = comparable;
    let mut m: usize = 0;
    assert(policy_choices(frontier@) =~= undominated(rows@, cc.take(0), cc));
    while m < nc
        invariant
            m <= nc,
            nc == ocomp.len(),
            cc == point_choices(ocomp),
            keep@.len() == nc,
            forall|k: int| 0 <= k < nc ==> #[trigger] keep@[k] == !dominated_in(rows@, cc[k], cc),
            rest3@ == ocomp.skip(m as int),
            forall|k: int| 0 <= k < ocomp.len() ==> point_describes(#[trigger] ocomp[k], rows@),
            forall|k: int| 0 <= k < frontier@.len() ==> policy_describes(#[trigger] frontier@[k], rows@),
            policy_choices(frontier@) == undominated(rows@, cc.take(m as int), cc),
        decreases nc - m,
    {
        let p = rest3.remove(0);
        proof {
            assert(p == ocomp[m as int]);
            assert(rest3@ =~= ocomp.skip(m + 1));
            assert(cc.take(m + 1).drop_last() =~= cc.take(m as int));
            assert(cc.take(m + 1).last() == p.entry.base.indices@);
        }
        if keep[m] {
            let ghost f0 = policy_choices(frontier@);
            let ghost f0v = frontier@;
            frontier.push(p.entry);
            proof {
                assert(policy_choices(frontier@) =~= f0.push(cc[m as int]));
                assert forall|k: int| 0 <= k < frontier@.len() implies policy_describes(#[trigger] frontier@[k], rows@) by {
                    if k < f0v.len() {
                        assert(frontier@[k] == f0v[k]);
                    }
                }
            }
        }
        m = m + 1;
    }
    proof {
        assert(cc.take(nc as int) =~= cc);
    }
    let sorted = sort_policy_entries(frontier, CommercialRankingPolicy::CostFirst, Ghost(rows@));
    let results = take_passing(sorted, max_total_cost, config.max_results_returned, Ghost(rows@));
    Ok((results, evaluated, total_space, evaluated - nc))
}

} // verus!
