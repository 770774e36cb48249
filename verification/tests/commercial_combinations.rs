use gugen::commercial_catalog::formula::parse_formula;
use gugen::commercial_catalog::model::{
    AvailabilityStatus, CommercialOfferId, CommercialPlanningConfig, CommercialPrecursorOffer,
    CommercialRankingPolicy, CommercialSourceType, CurrencyCode, Money, OfferProvenance,
    PackageMass, PurityFraction,
};
use gugen::commercial_catalog::policy::{pareto_search, ranked_search_by_policy};
use gugen::commercial_catalog::quantity::{compute_offer_quantity, unresolved_fields_for};
use gugen::commercial_catalog::ranking::{rank_better, rank_candidates, rank_entry, RankEntry};
use gugen::commercial_catalog::search::{
    decode_combo_index, search_combinations, total_combination_space, OfferCandidate,
};
use gugen::frac::Frac;

fn frac(n: i128, d: i128) -> Frac {
    Frac::new(n, d).unwrap()
}

fn priced(
    id: &str,
    purity: (i128, i128),
    price: Option<(u64, &str)>,
    lead_time_days: Option<u32>,
) -> CommercialPrecursorOffer {
    CommercialPrecursorOffer {
        offer_id: CommercialOfferId(id.to_string()),
        manufacturer: "Example Materials Ltd.".to_string(),
        product_name: "Demo Oxide Grade A".to_string(),
        composition: parse_formula("Fe2O3").unwrap(),
        provenance: OfferProvenance {
            source_type: CommercialSourceType::SyntheticFixture,
            source_identifier: id.to_string(),
            retrieved_at: None,
            supplied_by: None,
            license_or_terms: None,
            checksum: None,
        },
        formula: "Fe2O3".to_string(),
        catalog_number: None,
        cas_number: None,
        grade: None,
        purity: Some(PurityFraction::new(frac(purity.0, purity.1)).unwrap()),
        package_mass: Some(PackageMass::new(frac(100, 1)).unwrap()),
        unit_price: price.map(|(units, code)| Money::new(units, CurrencyCode::new(code).unwrap())),
        availability: Some(AvailabilityStatus::InStock),
        lead_time_days,
        physical_form: None,
        particle_size_range_um: None,
        country_region: None,
        product_url: None,
        tags: Vec::new(),
        notes: None,
    }
}

fn candidates_for(offers: &[CommercialPrecursorOffer], required: Frac) -> Vec<OfferCandidate<'_>> {
    let candidates: Vec<OfferCandidate<'_>> = offers
        .iter()
        .map(|offer| OfferCandidate {
            offer,
            unresolved_fields: unresolved_fields_for(offer),
            quantity: compute_offer_quantity(offer, required).unwrap(),
        })
        .collect();
    rank_candidates(candidates)
}

fn unsorted_candidates(offers: &[CommercialPrecursorOffer], required: Frac) -> Vec<OfferCandidate<'_>> {
    offers
        .iter()
        .map(|offer| OfferCandidate {
            offer,
            unresolved_fields: unresolved_fields_for(offer),
            quantity: compute_offer_quantity(offer, required).unwrap(),
        })
        .collect()
}

fn best_first(a: &RankEntry, b: &RankEntry) -> std::cmp::Ordering {
    if rank_better(a, b) {
        std::cmp::Ordering::Less
    } else if rank_better(b, a) {
        std::cmp::Ordering::Greater
    } else {
        std::cmp::Ordering::Equal
    }
}

fn three_offer_row(prefix: &str, prices: [u64; 3]) -> Vec<CommercialPrecursorOffer> {
    (0..3)
        .map(|i| {
            priced(
                &format!("{prefix}-{i}"),
                (90 + i as i128, 100),
                Some((prices[i], "USD")),
                Some(5 + i as u32),
            )
        })
        .collect()
}

#[test]
fn combination_search_matches_a_brute_force_enumeration() {
    let row_a = three_offer_row("A", [300, 100, 200]);
    let row_b = three_offer_row("B", [50, 250, 150]);
    let row_c = three_offer_row("C", [400, 350, 10]);
    let required = frac(197335, 1000);
    let rows = vec![
        candidates_for(&row_a, required),
        candidates_for(&row_b, required),
        candidates_for(&row_c, required),
    ];
    let config = CommercialPlanningConfig {
        max_offers_per_precursor: 50,
        max_combinations_evaluated: 27,
        max_results_returned: 27,
    };
    let (results, evaluated, total_space) = search_combinations(&rows, &config, None);
    assert_eq!(evaluated, 27);
    assert_eq!(total_space, 27);

    let mut all: Vec<RankEntry> = Vec::new();
    for i in 0..3 {
        for j in 0..3 {
            for k in 0..3 {
                all.push(rank_entry(vec![i, j, k], &rows));
            }
        }
    }
    all.sort_by(best_first);
    let oracle: Vec<Vec<usize>> = all.into_iter().map(|e| e.indices).collect();
    assert_eq!(results, oracle);
}

#[test]
fn combinations_are_numbered_with_the_first_row_varying_fastest() {
    let row_a = three_offer_row("A", [1, 2, 3]);
    let row_b = three_offer_row("B", [4, 5, 6]);
    let required = frac(50, 1);
    let rows = vec![
        unsorted_candidates(&row_a[..2], required),
        unsorted_candidates(&row_b, required),
    ];
    assert_eq!(total_combination_space(&rows), 6);
    assert_eq!(decode_combo_index(0, &rows), vec![0, 0]);
    assert_eq!(decode_combo_index(1, &rows), vec![1, 0]);
    assert_eq!(decode_combo_index(2, &rows), vec![0, 1]);
    assert_eq!(decode_combo_index(5, &rows), vec![1, 2]);
}

#[test]
fn rows_are_ranked_cheapest_first_before_the_search() {
    let row = three_offer_row("A", [300, 100, 200]);
    let ranked = candidates_for(&row, frac(50, 1));
    let ids: Vec<&str> = ranked.iter().map(|c| c.offer.offer_id.0.as_str()).collect();
    assert_eq!(ids, vec!["A-1", "A-2", "A-0"]);
}

#[test]
fn an_empty_row_leaves_nothing_to_search() {
    let row = three_offer_row("A", [1, 2, 3]);
    let required = frac(50, 1);
    let rows = vec![unsorted_candidates(&row, required), Vec::new()];
    let config = CommercialPlanningConfig {
        max_offers_per_precursor: 50,
        max_combinations_evaluated: 100,
        max_results_returned: 10,
    };
    assert_eq!(search_combinations(&rows, &config, None), (Vec::new(), 0, 0));
    assert_eq!(
        ranked_search_by_policy(&rows, &config, None, CommercialRankingPolicy::CostFirst),
        (Vec::new(), 0, 0)
    );
    assert_eq!(pareto_search(&rows, &config, None), Ok((Vec::new(), 0, 0, 0)));
}

fn oversized_rows(offers: &[Vec<CommercialPrecursorOffer>]) -> Vec<Vec<OfferCandidate<'_>>> {
    offers
        .iter()
        .map(|row| candidates_for(row, frac(197335, 1000)))
        .collect()
}

fn offer_grid(row_lens: &[usize]) -> Vec<Vec<CommercialPrecursorOffer>> {
    row_lens
        .iter()
        .enumerate()
        .map(|(row_i, &count)| {
            (0..count)
                .map(|i| {
                    let price = (row_i as u64 + 1) * 977 + (i as u64) * 131 + 1;
                    priced(
                        &format!("R{row_i}-{i}"),
                        (90 + i as i128, 100),
                        Some((price, "USD")),
                        Some(5 + i as u32),
                    )
                })
                .collect()
        })
        .collect()
}

#[test]
fn the_heuristic_tier_stays_within_its_budgets() {
    let grid = offer_grid(&[6, 7, 5]);
    let rows = oversized_rows(&grid);
    let config = CommercialPlanningConfig {
        max_offers_per_precursor: 50,
        max_combinations_evaluated: 20,
        max_results_returned: 5,
    };
    let (results, evaluated, total_space) = search_combinations(&rows, &config, None);
    assert_eq!(total_space, 210);
    assert!(evaluated <= 20);
    assert!(results.len() <= 5);
    assert!(!results.is_empty());
    for (i, a) in results.iter().enumerate() {
        for b in &results[i + 1..] {
            assert_ne!(a, b);
        }
    }
}

#[test]
fn the_heuristic_tier_is_deterministic() {
    let grid = offer_grid(&[8, 8]);
    let rows = oversized_rows(&grid);
    let config = CommercialPlanningConfig {
        max_offers_per_precursor: 50,
        max_combinations_evaluated: 10,
        max_results_returned: 4,
    };
    let first = search_combinations(&rows, &config, None);
    let second = search_combinations(&rows, &config, None);
    assert_eq!(first, second);
    assert_eq!(first.0[0], vec![0, 0]);
}

fn policy_row() -> Vec<CommercialPrecursorOffer> {
    vec![
        priced("X", (1, 1), Some((100, "USD")), Some(5)),
        priced("Y", (1, 1), Some((200, "USD")), Some(10)),
        priced("Z", (1, 1), Some((300, "USD")), Some(2)),
        priced("W", (1, 1), Some((50, "USD")), None),
        priced("V", (1, 1), Some((10, "EUR")), Some(1)),
    ]
}

fn policy_config() -> CommercialPlanningConfig {
    CommercialPlanningConfig {
        max_offers_per_precursor: 50,
        max_combinations_evaluated: 100,
        max_results_returned: 10,
    }
}

#[test]
fn cost_first_ranks_by_cost_key() {
    let offers = policy_row();
    let rows = vec![unsorted_candidates(&offers, frac(100, 1))];
    let (results, evaluated, total_space) =
        ranked_search_by_policy(&rows, &policy_config(), None, CommercialRankingPolicy::CostFirst);
    assert_eq!(evaluated, 5);
    assert_eq!(total_space, 5);
    assert_eq!(results, vec![vec![4], vec![3], vec![0], vec![1], vec![2]]);
}

#[test]
fn lead_time_first_puts_unknown_lead_times_last() {
    let offers = policy_row();
    let rows = vec![unsorted_candidates(&offers, frac(100, 1))];
    let (results, _, _) = ranked_search_by_policy(
        &rows,
        &policy_config(),
        None,
        CommercialRankingPolicy::LeadTimeFirst,
    );
    assert_eq!(results, vec![vec![4], vec![2], vec![0], vec![1], vec![3]]);
}

#[test]
fn purity_first_falls_back_to_unresolved_count_then_cost() {
    let offers = policy_row();
    let rows = vec![unsorted_candidates(&offers, frac(100, 1))];
    let (results, _, _) = ranked_search_by_policy(
        &rows,
        &policy_config(),
        None,
        CommercialRankingPolicy::PurityFirst,
    );
    assert_eq!(results, vec![vec![4], vec![0], vec![1], vec![2], vec![3]]);
}

#[test]
fn purity_first_prefers_the_higher_purity() {
    let offers = vec![
        priced("LOW", (9, 10), Some((10, "USD")), Some(1)),
        priced("HIGH", (99, 100), Some((900, "USD")), Some(9)),
    ];
    let rows = vec![unsorted_candidates(&offers, frac(100, 1))];
    let (results, _, _) = ranked_search_by_policy(
        &rows,
        &policy_config(),
        None,
        CommercialRankingPolicy::PurityFirst,
    );
    assert_eq!(results, vec![vec![1], vec![0]]);
}

#[test]
fn the_cost_ceiling_is_applied_before_truncation() {
    let offers = policy_row();
    let rows = vec![unsorted_candidates(&offers, frac(100, 1))];
    let config = CommercialPlanningConfig {
        max_offers_per_precursor: 50,
        max_combinations_evaluated: 100,
        max_results_returned: 2,
    };
    let ceiling = Some(Money::new(150, CurrencyCode::new("USD").unwrap()));
    let (results, _, _) =
        ranked_search_by_policy(&rows, &config, ceiling, CommercialRankingPolicy::LeadTimeFirst);
    // Z (300 USD) is over the ceiling; V is priced in EUR and passes unjudged.
    assert_eq!(results, vec![vec![4], vec![0]]);
}

#[test]
fn the_evaluation_budget_caps_the_named_policies() {
    let offers = policy_row();
    let rows = vec![unsorted_candidates(&offers, frac(100, 1))];
    let config = CommercialPlanningConfig {
        max_offers_per_precursor: 50,
        max_combinations_evaluated: 3,
        max_results_returned: 10,
    };
    let (results, evaluated, total_space) =
        ranked_search_by_policy(&rows, &config, None, CommercialRankingPolicy::CostFirst);
    assert_eq!(evaluated, 3);
    assert_eq!(total_space, 5);
    assert_eq!(results, vec![vec![0], vec![1], vec![2]]);
}

#[test]
fn pareto_keeps_the_undominated_comparable_combinations() {
    let offers = policy_row();
    let rows = vec![unsorted_candidates(&offers, frac(100, 1))];
    let (results, evaluated, total_space, excluded) =
        pareto_search(&rows, &policy_config(), None).unwrap();
    assert_eq!(evaluated, 5);
    assert_eq!(total_space, 5);
    // W misses its lead time, V is priced in another currency than X.
    assert_eq!(excluded, 2);
    // Y is dominated by X; X and Z trade cost against lead time.
    assert_eq!(results, vec![vec![0], vec![2]]);
}

#[test]
fn pareto_weighs_purity_and_excess_mass_too() {
    let offers = vec![
        priced("CHEAP", (9, 10), Some((100, "USD")), Some(5)),
        priced("PURE", (1, 1), Some((100, "USD")), Some(5)),
        priced("WORSE", (9, 10), Some((150, "USD")), Some(5)),
    ];
    let rows = vec![unsorted_candidates(&offers, frac(100, 1))];
    let (results, _, _, excluded) = pareto_search(&rows, &policy_config(), None).unwrap();
    assert_eq!(excluded, 0);
    // PURE has the higher purity; CHEAP buys two packages for the
    // purity-adjusted mass and so carries more excess.
    assert_eq!(results, vec![vec![1]]);
}

#[test]
fn the_heuristic_tier_returns_nothing_when_no_results_are_asked_for() {
    let grid = offer_grid(&[6, 7, 5]);
    let rows = oversized_rows(&grid);
    let config = CommercialPlanningConfig {
        max_offers_per_precursor: 50,
        max_combinations_evaluated: 20,
        max_results_returned: 0,
    };
    let (results, evaluated, total_space) = search_combinations(&rows, &config, None);
    assert_eq!(total_space, 210);
    assert!(results.is_empty());
    assert_eq!(evaluated, 0);
}
