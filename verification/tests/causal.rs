use computational_fundamentals::causal_reasoning::{
    analyze_data, analyze_data_by_group, OutcomeCounts, TreatmentData,
};
use rand::rngs::StdRng;
use rand::{Rng, SeedableRng};

fn rates(counts: OutcomeCounts) -> (f64, f64) {
    (
        counts.treated_success as f64 / counts.treated_total as f64,
        counts.untreated_success as f64 / counts.untreated_total as f64,
    )
}

#[test]
fn test_verify_causal_reasoning() {
    let mut rng = StdRng::seed_from_u64(42);
    let mut data = Vec::new();
    // Group "Easy": Legacy used more. Optimized is better (95% vs 90%).
    for _ in 0..20 { data.push(TreatmentData { treated: true, outcome: rng.gen_bool(0.95), confounding_variable: "Easy".to_string() }); }
    for _ in 0..80 { data.push(TreatmentData { treated: false, outcome: rng.gen_bool(0.90), confounding_variable: "Easy".to_string() }); }

    // Group "Hard": Optimized used more. Optimized is better (30% vs 20%).
    for _ in 0..80 { data.push(TreatmentData { treated: true, outcome: rng.gen_bool(0.30), confounding_variable: "Hard".to_string() }); }
    for _ in 0..20 { data.push(TreatmentData { treated: false, outcome: rng.gen_bool(0.20), confounding_variable: "Hard".to_string() }); }

    let (overall_optimized, overall_legacy) = rates(analyze_data(&data));
    let by_group: Vec<(f64, f64)> = analyze_data_by_group(&data)
        .iter()
        .map(|(_, counts)| rates(*counts))
        .collect();

    let paradox = overall_optimized < overall_legacy;
    let correct_conclusion = by_group.iter().all(|(t, u)| t > u);

    assert!(paradox, "Simpson's Paradox should be observed");
    assert!(correct_conclusion, "The correct conclusion should be drawn from the grouped data");
}

fn trial(treated: bool, outcome: bool, group: &str) -> TreatmentData {
    TreatmentData { treated, outcome, confounding_variable: group.to_string() }
}

#[test]
fn counts_are_exact() {
    let data = vec![
        trial(true, true, "b"),
        trial(true, false, "a"),
        trial(false, true, "b"),
        trial(false, true, "a"),
        trial(true, true, "b"),
        trial(false, false, "c"),
    ];
    assert_eq!(
        analyze_data(&data),
        OutcomeCounts { treated_success: 2, treated_total: 3, untreated_success: 2, untreated_total: 3 }
    );
    assert_eq!(
        analyze_data_by_group(&data),
        vec![
            (
                "b".to_string(),
                OutcomeCounts { treated_success: 2, treated_total: 2, untreated_success: 1, untreated_total: 1 }
            ),
            (
                "a".to_string(),
                OutcomeCounts { treated_success: 0, treated_total: 1, untreated_success: 1, untreated_total: 1 }
            ),
            (
                "c".to_string(),
                OutcomeCounts { treated_success: 0, treated_total: 0, untreated_success: 0, untreated_total: 1 }
            ),
        ]
    );
    assert_eq!(analyze_data_by_group(&[]), vec![]);
    assert_eq!(
        analyze_data(&[]),
        OutcomeCounts { treated_success: 0, treated_total: 0, untreated_success: 0, untreated_total: 0 }
    );
}
