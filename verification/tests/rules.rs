use advisor::double::Double;
use advisor::entries::SessionEntry;
use advisor::recommendation::{Level, Recommendation};
use advisor::rules::cache_miss::{is_cache_miss_defined, rule_cache_miss};
use advisor::rules::cost_per_task::rule_cost_per_task_regression;
use advisor::rules::diversity::{is_diversity_defined, rule_model_diversity_low};
use advisor::rules::efficiency::{is_efficiency_defined, rule_token_efficiency_decline};
use advisor::rules::idle_context::{is_idle_context_defined, rule_idle_context_bloat};
use advisor::rules::night_owl::{
    hour_or_noon, needed_hours, rule_night_owl_at, rule_night_owl_premium, start_hours,
};
use advisor::rules::output_waste::{is_output_waste_defined, rule_output_waste};
use advisor::rules::premium::{is_premium_defined, rule_premium_overuse};
use advisor::rules::runaway::{is_runaway_defined, rule_runaway_sessions};
use advisor::rules::short_sessions::rule_short_session_churn;
use advisor::rules::spend_spike::rule_spend_spike;
use advisor::rules::workspaces::{is_workspaces_defined, rule_workspace_concentration};
use advisor::summary::{PeriodSummary, compute_period_summary};

fn d(x: f64) -> Double {
    Double { bits: x.to_bits() }
}

fn f(x: Double) -> f64 {
    f64::from_bits(x.bits)
}

fn session(cost: f64, models: &[&str]) -> SessionEntry {
    SessionEntry {
        created_at: 1_700_000_000,
        duration_minutes: 30,
        message_count: 10,
        workspace: None,
        task_category: None,
        models_used: models.iter().map(|m| m.to_string()).collect(),
        total_cost: d(cost),
        total_input_tokens: 1000,
        total_output_tokens: 500,
        total_cache_read: 0,
    }
}

fn summary(entries: &[SessionEntry]) -> PeriodSummary {
    compute_period_summary(entries)
}

fn savings(r: &Recommendation) -> Option<f64> {
    r.estimated_savings.map(f)
}

#[test]
fn cache_miss_names_each_model() {
    let mut one = session(8.0, &["alpha", "beta"]);
    one.total_input_tokens = 400_001;
    one.total_cache_read = 10_000;
    let mut two = session(5.0, &["gamma"]);
    two.total_input_tokens = 150_000;
    two.total_cache_read = 20_000;
    let mut three = session(2.9, &["delta"]);
    three.total_input_tokens = 900_000;
    let list = vec![one, two, three];
    assert!(is_cache_miss_defined(&list));
    let mut recs: Vec<Recommendation> = Vec::new();
    rule_cache_miss(&list, &mut recs);
    // gamma reads more than a tenth from its cache, delta costs less than $3.
    assert_eq!(recs.len(), 2);
    for (r, model) in recs.iter().zip(["alpha", "beta"]) {
        assert_eq!(r.id, "cache_miss_expensive");
        assert_eq!(r.severity, Level::High);
        assert_eq!(r.confidence, Level::High);
        assert_eq!(r.title, format!("Cache reuse near zero for {}", model));
        assert_eq!(
            r.evidence,
            vec![
                "205k input tokens processed, cache reuse rate: 2%".to_string(),
                "Spend on this model: $4.00".to_string(),
                "With 50% cache reuse, input costs would drop ~40%".to_string(),
            ]
        );
        assert_eq!(
            r.action,
            "Enable prompt caching, use session continuation, or reduce repeated repository context. Check if your client supports cache_control headers."
        );
        assert_eq!(savings(r), Some(4.0 * 0.4));
    }
}

fn use_in(place: Option<&str>, model: &str, input: i64, cached: i64, cost: f64) -> SessionEntry {
    let mut e = session(cost, &[model]);
    e.workspace = place.map(|w| w.to_string());
    e.total_input_tokens = input;
    e.total_cache_read = cached;
    e
}

#[test]
fn cache_miss_in_one_of_two_workspaces() {
    let list = vec![
        use_in(Some("w"), "A", 200_000, 0, 5.0),
        use_in(Some("v"), "A", 0, 10_000_000, 5.0),
    ];
    assert!(is_cache_miss_defined(&list));
    let mut recs: Vec<Recommendation> = Vec::new();
    rule_cache_miss(&list, &mut recs);
    assert_eq!(recs.len(), 1);
    assert_eq!(recs[0].title, "Cache reuse near zero for A in \"w\"");
    assert_eq!(recs[0].evidence[0], "200k input tokens processed, cache reuse rate: 0%");
    assert_eq!(recs[0].evidence[1], "Spend on this model in \"w\": $5.00");
    assert_eq!(savings(&recs[0]), Some(5.0 * 0.4));
}

#[test]
fn cache_miss_by_model_and_workspace() {
    let list = vec![
        use_in(Some("w"), "A", 60_000, 0, 2.0),
        use_in(None, "A", 100_000, 0, 3.0),
        use_in(Some("w"), "B", 100_000, 0, 4.0),
        use_in(Some("w"), "A", 60_000, 0, 2.0),
        // Neither is enough alone.
        use_in(Some("v"), "A", 100_000, 0, 2.0),
        use_in(Some("u"), "A", 90_000, 0, 9.0),
    ];
    let mut recs: Vec<Recommendation> = Vec::new();
    rule_cache_miss(&list, &mut recs);
    let titles: Vec<&str> = recs.iter().map(|r| r.title.as_str()).collect();
    assert_eq!(
        titles,
        vec![
            "Cache reuse near zero for A in \"w\"",
            "Cache reuse near zero for B in \"w\"",
            "Cache reuse near zero for A",
        ]
    );
    assert_eq!(recs[0].evidence[0], "120k input tokens processed, cache reuse rate: 0%");
    assert_eq!(recs[2].evidence[1], "Spend on this model: $3.00");
}

#[test]
fn cache_miss_needs_enough_context() {
    let mut one = session(30.0, &["alpha"]);
    one.total_input_tokens = 99_999;
    let mut recs: Vec<Recommendation> = Vec::new();
    rule_cache_miss(&[one], &mut recs);
    assert!(recs.is_empty());
    let mut two = session(3.0, &["alpha"]);
    two.total_input_tokens = 100_000;
    rule_cache_miss(&[two], &mut recs);
    assert_eq!(recs.len(), 1);
    assert_eq!(recs[0].evidence[0], "100k input tokens processed, cache reuse rate: 0%");
}

#[test]
fn cache_miss_sums_must_fit() {
    let mut one = session(3.0, &["alpha"]);
    one.total_input_tokens = i64::MAX;
    one.total_cache_read = i64::MAX;
    assert!(!is_cache_miss_defined(&[one]));
    // Sums of different workspaces are not added up.
    let list = vec![use_in(Some("w"), "A", i64::MAX, 0, 1.0), use_in(Some("v"), "A", i64::MAX, 0, 1.0)];
    assert!(is_cache_miss_defined(&list));
    let list = vec![use_in(Some("w"), "A", i64::MAX, 0, 1.0), use_in(Some("w"), "A", i64::MAX, 0, 1.0)];
    assert!(!is_cache_miss_defined(&list));
}

fn low_risk_sessions() -> Vec<SessionEntry> {
    let mut list: Vec<SessionEntry> = Vec::new();
    for (cost, category) in [(4.0, Some("config")), (3.5, Some("review")), (2.5, None), (4.0, Some("feature"))] {
        let mut e = session(cost, &["opus"]);
        e.task_category = category.map(|c| c.to_string());
        e.total_input_tokens = 90_000;
        e.total_output_tokens = 10_000;
        list.push(e);
    }
    let mut cheap = session(1.0, &["haiku"]);
    cheap.total_input_tokens = 900_000;
    cheap.total_output_tokens = 100_000;
    list.push(cheap);
    list
}

#[test]
fn premium_overuse_compares_two_models() {
    let list = low_risk_sessions();
    let sum = summary(&list);
    assert!(is_premium_defined(&list, sum.total_cost));
    let mut recs: Vec<Recommendation> = Vec::new();
    rule_premium_overuse(&list, &sum, &mut recs);
    assert_eq!(recs.len(), 1);
    let r = &recs[0];
    assert_eq!(r.id, "premium_overuse_low_risk");
    assert_eq!(r.severity, Level::Medium);
    assert_eq!(r.confidence, Level::Medium);
    assert_eq!(r.title, "Route config/review/ tasks away from opus");
    assert_eq!(
        r.evidence,
        vec![
            "3 low-risk sessions used opus ($10.00 total)".to_string(),
            "opus costs $35.0/M tokens vs haiku at $1.0/M tokens".to_string(),
            "Categories: config, review".to_string(),
        ]
    );
    assert_eq!(
        r.action,
        "Use haiku as first-pass model for config/review tasks. Escalate to opus only when stuck or for complex architecture work."
    );
    let rate = 14.0 / (400_000f64 / 1_000_000.0) - 1.0 / (1_000_000f64 / 1_000_000.0);
    assert_eq!(savings(r), Some(rate * (300_000f64 / 1_000_000.0) * 0.5));
}

/// Two sessions on a costly model, one of them with a low-risk task, and one on a cheap model.
fn share_of_low_risk(category: &str, low_risk: f64, other: f64) -> Vec<SessionEntry> {
    let mut list: Vec<SessionEntry> = Vec::new();
    for (cost, category) in [(low_risk, category), (other, "feature")] {
        let mut e = session(cost, &["opus"]);
        e.task_category = Some(category.to_string());
        e.total_input_tokens = 50_000;
        list.push(e);
    }
    let mut cheap = session(1.0, &["haiku"]);
    cheap.task_category = Some("feature".to_string());
    cheap.total_input_tokens = 900_000;
    list.push(cheap);
    list
}

#[test]
fn premium_overuse_above_sixty_percent() {
    for (low_risk, other, found) in [(6.0, 3.0, 0usize), (6.1, 2.9, 1), (5.0, 4.0, 0), (8.0, 1.0, 1), (2.9, 0.1, 0)] {
        let list = share_of_low_risk("config", low_risk, other);
        let mut recs: Vec<Recommendation> = Vec::new();
        rule_premium_overuse(&list, &summary(&list), &mut recs);
        assert_eq!(recs.len(), found);
    }
}

#[test]
fn premium_overuse_at_half_of_the_spend() {
    let mut a = session(5.0, &["A"]);
    a.task_category = Some("config".to_string());
    a.total_input_tokens = 1_000_000;
    a.total_output_tokens = 0;
    let mut b = session(5.0, &["B"]);
    b.task_category = Some("feature".to_string());
    b.total_input_tokens = 5_000_000;
    b.total_output_tokens = 0;
    let list = vec![a, b];
    let mut recs: Vec<Recommendation> = Vec::new();
    rule_premium_overuse(&list, &summary(&list), &mut recs);
    assert!(recs.is_empty());
}

#[test]
fn premium_overuse_is_about_four_categories() {
    for (category, found) in [("config", 1usize), ("research", 1), ("review", 1), ("other", 1), ("docs", 0), ("feature", 0)] {
        let list = share_of_low_risk(category, 8.0, 1.0);
        let mut recs: Vec<Recommendation> = Vec::new();
        rule_premium_overuse(&list, &summary(&list), &mut recs);
        assert_eq!(recs.len(), found);
    }
}

#[test]
fn premium_overuse_is_not_a_matter_of_numbers() {
    // Many low-risk sessions at 14% of the spend.
    let mut list = share_of_low_risk("feature", 85.0, 0.0);
    for _ in 0..7 {
        let mut e = session(2.0, &["opus"]);
        e.task_category = Some("config".to_string());
        e.total_input_tokens = 20_000;
        list.push(e);
    }
    let mut recs: Vec<Recommendation> = Vec::new();
    rule_premium_overuse(&list, &summary(&list), &mut recs);
    assert!(recs.is_empty());
}

#[test]
fn premium_overuse_needs_two_models() {
    let mut list = low_risk_sessions();
    list.pop();
    let sum = summary(&list);
    let mut recs: Vec<Recommendation> = Vec::new();
    rule_premium_overuse(&list, &sum, &mut recs);
    assert!(recs.is_empty());
}

#[test]
fn premium_rates_must_be_numbers() {
    let mut list = low_risk_sessions();
    list[0].total_cost = d(f64::NAN);
    assert!(!is_premium_defined(&list, d(1.0)));
    let mut wide = session(1.0, &["opus"]);
    wide.total_input_tokens = i64::MAX;
    wide.total_output_tokens = 1;
    assert!(!is_premium_defined(&[wide], d(1.0)));
}

fn figures(cost: f64, sessions: usize) -> PeriodSummary {
    PeriodSummary {
        sessions,
        total_cost: d(cost),
        total_tokens: 0,
        avg_cost_per_session: d(0.0),
        cache_reuse_rate: d(0.0),
        input_tokens_per_message: d(0.0),
        top_model: None,
        top_model_share: d(0.0),
    }
}

#[test]
fn spend_spike_above_half_and_five_dollars() {
    let mut recs: Vec<Recommendation> = Vec::new();
    rule_spend_spike(&figures(20.0, 7), &Some(figures(10.0, 9)), &mut recs);
    assert_eq!(recs.len(), 1);
    let r = &recs[0];
    assert_eq!(r.id, "spend_spike");
    assert_eq!(r.severity, Level::High);
    assert_eq!(r.confidence, Level::High);
    assert_eq!(r.title, "Significant spend increase vs previous period");
    assert_eq!(
        r.evidence,
        vec![
            "Current: $20.00 vs Previous: $10.00 (+100%)".to_string(),
            "Absolute increase: $10.00".to_string(),
            "Sessions: 7 vs 9 (-2)".to_string(),
        ]
    );
    assert_eq!(
        r.action,
        "Review the 'What Changed' section below to identify the main cost driver. Consider whether the increase reflects productive work or inefficiency."
    );
    assert_eq!(savings(r), None);
}

#[test]
fn spend_spike_not_below_its_limits() {
    let mut recs: Vec<Recommendation> = Vec::new();
    rule_spend_spike(&figures(20.0, 7), &None, &mut recs);
    rule_spend_spike(&figures(20.0, 7), &Some(figures(0.0, 9)), &mut recs);
    rule_spend_spike(&figures(15.0, 7), &Some(figures(10.0, 9)), &mut recs);
    rule_spend_spike(&figures(150.0, 7), &Some(figures(100.0, 9)), &mut recs);
    rule_spend_spike(&figures(f64::NAN, 7), &Some(figures(100.0, 9)), &mut recs);
    assert!(recs.is_empty());
}

#[test]
fn runaway_sessions_above_three_medians() {
    let mut list: Vec<SessionEntry> = [1.0, 0.5, 2.0, 9.5, 1.5, 7.0].iter().map(|c| session(*c, &["m"])).collect();
    list[3].task_category = Some("feature".to_string());
    list[3].message_count = 42;
    list[5].models_used.clear();
    assert!(is_runaway_defined(&list));
    let sum = summary(&list);
    let mut recs: Vec<Recommendation> = Vec::new();
    rule_runaway_sessions(&list, &sum, &mut recs);
    assert_eq!(recs.len(), 1);
    let r = &recs[0];
    // The costs in order are 0.5, 1, 1.5, 2, 7 and 9.5.
    assert_eq!(r.id, "runaway_sessions");
    assert_eq!(r.severity, Level::Medium);
    assert_eq!(r.confidence, Level::High);
    assert_eq!(r.title, "2 session(s) cost >3x the median ($1.75)");
    assert_eq!(
        r.evidence,
        vec![
            "Median session cost: $1.75, threshold: $5.25".to_string(),
            "Runaway sessions total: $16.50 (77% of period spend)".to_string(),
            "Top sessions: $9.50 / 42msg / m (feature) | $7.00 / 10msg / ? (?)".to_string(),
        ]
    );
    assert_eq!(
        r.action,
        "For similar work, consider splitting into smaller sessions (plan → implement → review). Long sessions accumulate context that inflates input costs."
    );
    assert_eq!(savings(r), Some(16.5 * 0.2));
}

#[test]
fn the_median_of_an_even_number_lies_between_two() {
    let list: Vec<SessionEntry> =
        [1.0, 1.0, 1.0, 3.0, 3.0, 7.0].iter().map(|c| session(*c, &["m"])).collect();
    let mut recs: Vec<Recommendation> = Vec::new();
    rule_runaway_sessions(&list, &summary(&list), &mut recs);
    assert_eq!(recs.len(), 1);
    assert_eq!(recs[0].title, "1 session(s) cost >3x the median ($2.00)");
    // With an odd number it is the one in the middle.
    recs.clear();
    let list: Vec<SessionEntry> =
        [1.0, 1.0, 3.0, 3.0, 7.0].iter().map(|c| session(*c, &["m"])).collect();
    rule_runaway_sessions(&list, &summary(&list), &mut recs);
    assert!(recs.is_empty());
}

#[test]
fn runaway_sessions_cost_more_than_a_dollar() {
    let list: Vec<SessionEntry> =
        [0.1, 0.1, 0.1, 0.1, 0.9].iter().map(|c| session(*c, &["m"])).collect();
    let sum = summary(&list);
    let mut recs: Vec<Recommendation> = Vec::new();
    rule_runaway_sessions(&list, &sum, &mut recs);
    assert!(recs.is_empty());
}

#[test]
fn runaway_sessions_are_a_share_of_spend_or_three() {
    let mut list: Vec<SessionEntry> = Vec::new();
    for _ in 0..100 {
        list.push(session(1.0, &["m"]));
    }
    list.push(session(4.0, &["m"]));
    list.push(session(4.0, &["m"]));
    let mut recs: Vec<Recommendation> = Vec::new();
    rule_runaway_sessions(&list, &summary(&list), &mut recs);
    assert!(recs.is_empty());
    list.push(session(4.0, &["m"]));
    list.push(session(5.0, &["m"]));
    rule_runaway_sessions(&list, &summary(&list), &mut recs);
    assert_eq!(recs.len(), 1);
    // Three of the four are described.
    assert_eq!(recs[0].evidence[2].matches(" | ").count(), 2);
}

#[test]
fn runaway_costs_must_be_numbers() {
    let mut list: Vec<SessionEntry> = Vec::new();
    for _ in 0..4 {
        list.push(session(f64::NAN, &["m"]));
    }
    assert!(is_runaway_defined(&list));
    list.push(session(1.0, &["m"]));
    assert!(!is_runaway_defined(&list));
}

#[test]
fn idle_context_in_large_messages() {
    let mut list: Vec<SessionEntry> = Vec::new();
    for _ in 0..3 {
        let mut e = session(2.5, &["m"]);
        e.message_count = 10;
        e.total_input_tokens = 600_000;
        e.total_output_tokens = 30_000;
        list.push(e);
    }
    assert!(is_idle_context_defined(&list));
    let mut recs: Vec<Recommendation> = Vec::new();
    rule_idle_context_bloat(&list, &mut recs);
    assert_eq!(recs.len(), 1);
    let r = &recs[0];
    assert_eq!(r.id, "idle_context_bloat");
    assert_eq!(r.severity, Level::Medium);
    assert_eq!(r.confidence, Level::Medium);
    assert_eq!(r.title, "Large context sent per message with low output ratio");
    assert_eq!(
        r.evidence,
        vec![
            "Avg input/message: 60k tokens".to_string(),
            "Output/input ratio: 5.0% (healthy: >20%)".to_string(),
            "Total messages: 30, total input: 1.8M tokens".to_string(),
        ]
    );
    assert_eq!(
        r.action,
        "Reduce repeated context by using session continuation, smaller file includes, or summarized context instead of full file contents. Consider .kiroignore or context pruning strategies."
    );
    assert_eq!(savings(r), Some(7.5 * 0.3));
    // Two sessions are not enough, nor are 50000 tokens a message or a healthy ratio.
    recs.clear();
    rule_idle_context_bloat(&list[..2], &mut recs);
    for e in list.iter_mut() {
        e.total_input_tokens = 500_000;
    }
    rule_idle_context_bloat(&list, &mut recs);
    for e in list.iter_mut() {
        e.total_input_tokens = 600_000;
        e.total_output_tokens = 90_000;
    }
    rule_idle_context_bloat(&list, &mut recs);
    for e in list.iter_mut() {
        e.message_count = 0;
    }
    rule_idle_context_bloat(&list, &mut recs);
    assert!(recs.is_empty());
}

#[test]
fn idle_context_sums_must_fit() {
    let mut list = vec![session(1.0, &[]), session(1.0, &[]), session(1.0, &[])];
    list[0].message_count = i64::MAX;
    assert!(!is_idle_context_defined(&list));
    assert!(is_idle_context_defined(&list[..2]));
}

#[test]
fn diversity_low_with_one_model() {
    let list: Vec<SessionEntry> = (0..5).map(|_| session(1.0, &["solo"])).collect();
    let sum = summary(&list);
    assert!(is_diversity_defined(&list, sum.total_cost));
    let mut recs: Vec<Recommendation> = Vec::new();
    rule_model_diversity_low(&list, &sum, &mut recs);
    assert_eq!(recs.len(), 1);
    let r = &recs[0];
    assert_eq!(r.id, "model_diversity_low");
    assert_eq!(r.severity, Level::Low);
    assert_eq!(r.confidence, Level::Medium);
    assert_eq!(r.title, "100% reliance on solo");
    assert_eq!(
        r.evidence,
        vec![
            "All $5.00 spent on a single model".to_string(),
            "Single-model dependency creates risk if the provider has outages or price changes".to_string(),
        ]
    );
    assert_eq!(
        r.action,
        "Consider configuring a fallback model for resilience. Even occasional use of an alternative reduces vendor lock-in risk."
    );
    assert_eq!(savings(r), None);
}

#[test]
fn diversity_low_with_several_models() {
    let mut list: Vec<SessionEntry> = (0..5).map(|_| session(19.0, &["main"])).collect();
    list.push(session(2.0, &["side", "extra"]));
    let sum = summary(&list);
    let mut recs: Vec<Recommendation> = Vec::new();
    rule_model_diversity_low(&list, &sum, &mut recs);
    assert_eq!(recs.len(), 1);
    let r = &recs[0];
    assert_eq!(r.title, "main accounts for 98% of spend");
    assert_eq!(
        r.evidence,
        vec![
            "$95.00 of $97.00 total on main".to_string(),
            "Other available models: side, extra".to_string(),
            "High concentration creates outage/pricing risk".to_string(),
        ]
    );
    assert_eq!(
        r.action,
        "Route simpler tasks to side for cost savings and resilience. Reserve main for complex architecture and debugging."
    );
    // A share of 90% is not more than that.
    let mut even: Vec<SessionEntry> = (0..9).map(|_| session(1.0, &["main"])).collect();
    even.push(session(1.0, &["side"]));
    recs.clear();
    rule_model_diversity_low(&even, &summary(&even), &mut recs);
    assert!(recs.is_empty());
}

#[test]
fn diversity_costs_must_be_numbers() {
    let mut list: Vec<SessionEntry> = (0..5).map(|_| session(19.0, &["main"])).collect();
    list.push(session(f64::NAN, &["side"]));
    assert!(!is_diversity_defined(&list, d(95.0)));
    assert!(is_diversity_defined(&list, d(4.0)));
    assert!(is_diversity_defined(&list[..5], d(95.0)));
}

#[test]
fn short_sessions_above_a_third() {
    let mut list: Vec<SessionEntry> = (0..10).map(|_| session(1.0, &["m"])).collect();
    for (i, messages) in [(0usize, 2i64), (3, 3), (5, 3), (7, 3)] {
        list[i].duration_minutes = 4;
        list[i].message_count = messages;
    }
    let mut recs: Vec<Recommendation> = Vec::new();
    rule_short_session_churn(&list, &mut recs);
    assert_eq!(recs.len(), 1);
    let r = &recs[0];
    assert_eq!(r.id, "short_session_churn");
    assert_eq!(r.severity, Level::Medium);
    assert_eq!(r.confidence, Level::Medium);
    assert_eq!(r.title, "40% of sessions are under 5 minutes");
    assert_eq!(
        r.evidence,
        vec![
            "4 of 10 sessions lasted <5min".to_string(),
            "Short session spend: $4.00 (40% of total)".to_string(),
            "Avg messages in short sessions: 2.8".to_string(),
        ]
    );
    assert_eq!(
        r.action,
        "Frequent short sessions invalidate prompt caches and repeat system prompts. Try continuing existing sessions instead of starting new ones. Check if your client auto-creates sessions on each command."
    );
    assert_eq!(savings(r), Some(4.0 * 0.3));
    // Three of ten are 30%, not more; nine sessions are too few.
    recs.clear();
    rule_short_session_churn(&list[..9], &mut recs);
    list[7].duration_minutes = 5;
    rule_short_session_churn(&list, &mut recs);
    assert!(recs.is_empty());
}

#[test]
fn short_sessions_of_one_message_count() {
    let mut list: Vec<SessionEntry> = (0..10).map(|_| session(1.0, &["m"])).collect();
    for e in list.iter_mut() {
        e.duration_minutes = 60;
    }
    for e in list.iter_mut().take(4) {
        e.duration_minutes = 1;
        e.message_count = 1;
    }
    let mut recs: Vec<Recommendation> = Vec::new();
    rule_short_session_churn(&list, &mut recs);
    assert_eq!(recs.len(), 1);
    assert_eq!(recs[0].id, "short_session_churn");
    assert_eq!(recs[0].title, "40% of sessions are under 5 minutes");
    assert_eq!(recs[0].evidence[2], "Avg messages in short sessions: 1.0");
}

#[test]
fn night_owl_for_given_hours() {
    let mut list: Vec<SessionEntry> = (0..7).map(|_| session(1.0, &["m"])).collect();
    for _ in 0..3 {
        list.push(session(2.0, &["opus"]));
    }
    let hours: Vec<u32> = vec![6, 12, 23, 6, 7, 8, 9, 0, 3, 5];
    let mut recs: Vec<Recommendation> = Vec::new();
    rule_night_owl_at(&list, &hours, &mut recs);
    assert_eq!(recs.len(), 1);
    let r = &recs[0];
    assert_eq!(r.id, "night_owl_premium");
    assert_eq!(r.severity, Level::Low);
    assert_eq!(r.confidence, Level::Low);
    assert_eq!(r.title, "Late-night sessions use more expensive models");
    assert_eq!(
        r.evidence,
        vec![
            "3 sessions between 00:00–06:00 (avg $2.00/session)".to_string(),
            "Daytime avg: $1.00/session (50% cheaper)".to_string(),
            "Night spend total: $6.00".to_string(),
        ]
    );
    assert_eq!(
        r.action,
        "If late-night work is automated (CI, batch jobs, scheduled tasks), configure a cheaper model for those runs. If it's manual work, consider whether fatigue-driven sessions are cost-efficient."
    );
    assert_eq!(savings(r), Some(6.0 * 0.3));
    // Two nights are too few, and nothing is said where all sessions are at night.
    recs.clear();
    rule_night_owl_at(&list, &vec![6, 12, 23, 6, 7, 8, 9, 6, 3, 5], &mut recs);
    rule_night_owl_at(&list, &vec![0; 10], &mut recs);
    // Half as much again is the limit.
    for e in list.iter_mut().skip(7) {
        e.total_cost = d(1.5);
    }
    rule_night_owl_at(&list, &hours, &mut recs);
    assert!(recs.is_empty());
}

/// Three sessions at night for $4 and seven by day for $1.
fn nights_and_days(night: [&[&str]; 3], day: [&[&str]; 7]) -> Vec<Recommendation> {
    let mut list: Vec<SessionEntry> = night.iter().map(|m| session(4.0, m)).collect();
    for m in day {
        list.push(session(1.0, m));
    }
    let mut hours: Vec<u32> = vec![0; 3];
    hours.resize(10, 12);
    let mut recs: Vec<Recommendation> = Vec::new();
    rule_night_owl_at(&list, &hours, &mut recs);
    recs
}

#[test]
fn night_owl_is_about_expensive_models() {
    let (a, b, both, none): (&[&str], &[&str], &[&str], &[&str]) = (&["A"], &["B"], &["A", "B"], &[]);
    // The same models by day and by night.
    assert!(nights_and_days([a; 3], [a; 7]).is_empty());
    assert!(nights_and_days([both; 3], [both; 7]).is_empty());
    assert!(nights_and_days([none; 3], [none; 7]).is_empty());
    // The expensive model at night only, or more often than by day.
    assert_eq!(nights_and_days([a; 3], [b; 7]).len(), 1);
    assert_eq!(nights_and_days([a, a, b], [b, b, b, b, b, a, a]).len(), 1);
    // Less often than by day, though the nights cost more.
    assert!(nights_and_days([none; 3], [a; 7]).is_empty());
    assert!(nights_and_days([a, none, none], [a; 7]).is_empty());
}

#[test]
fn night_owl_asks_the_clock() {
    let mut list: Vec<SessionEntry> = (0..12).map(|_| session(1.0, &["m"])).collect();
    for (i, e) in list.iter_mut().enumerate() {
        e.created_at = 1_700_000_000 + 7200 * i as i64;
        e.total_cost = d(1.0 + i as f64);
    }
    let hours = start_hours(&list);
    let mut asked: Vec<Recommendation> = Vec::new();
    rule_night_owl_premium(&list, &mut asked);
    let mut given: Vec<Recommendation> = Vec::new();
    rule_night_owl_at(&list, &hours, &mut given);
    assert_eq!(asked.len(), given.len());
    for (a, b) in asked.iter().zip(given.iter()) {
        assert_eq!(a.evidence, b.evidence);
    }
    assert_eq!(needed_hours(&list), hours);
    // With fewer sessions nothing is asked.
    assert_eq!(needed_hours(&list[..9]), vec![12; 9]);
    asked.clear();
    rule_night_owl_premium(&list[..9], &mut asked);
    assert!(asked.is_empty());
    assert_eq!(hour_or_noon(Some(3)), 3);
    assert_eq!(hour_or_noon(None), 12);
}

#[test]
fn workspace_above_seventy_percent() {
    let mut list: Vec<SessionEntry> = Vec::new();
    for (cost, ws) in [(4.0, Some("web")), (4.0, Some("web")), (1.0, None), (0.5, Some("api")), (0.5, Some("web"))] {
        let mut e = session(cost, &["m"]);
        e.workspace = ws.map(|w| w.to_string());
        list.push(e);
    }
    let sum = summary(&list);
    assert!(is_workspaces_defined(&list, sum.total_cost));
    let mut recs: Vec<Recommendation> = Vec::new();
    rule_workspace_concentration(&list, &sum, &mut recs);
    assert_eq!(recs.len(), 1);
    let r = &recs[0];
    assert_eq!(r.id, "workspace_concentration");
    assert_eq!(r.severity, Level::Low);
    assert_eq!(r.confidence, Level::High);
    assert_eq!(r.title, "\"web\" accounts for 85% of spend");
    assert_eq!(
        r.evidence,
        vec![
            "$8.50 across 3 sessions in this workspace".to_string(),
            "Total spend: $10.00 across 3 workspaces".to_string(),
            "High concentration means a single project drives most of your bill".to_string(),
        ]
    );
    assert_eq!(
        r.action,
        "Review whether \"web\" has specific inefficiencies (large context, expensive model choice, or runaway sessions). Consider workspace-specific model routing rules."
    );
    assert_eq!(savings(r), None);
    // A single workspace is nothing to compare with.
    for e in list.iter_mut() {
        e.workspace = None;
    }
    recs.clear();
    rule_workspace_concentration(&list, &sum, &mut recs);
    assert!(recs.is_empty());
    // Sessions without a workspace have a name, too.
    list[3].workspace = Some("api".to_string());
    rule_workspace_concentration(&list, &sum, &mut recs);
    assert_eq!(recs[0].title, "\"(none)\" accounts for 95% of spend");
}

#[test]
fn workspace_costs_must_be_numbers() {
    let mut list: Vec<SessionEntry> = (0..5).map(|_| session(f64::NAN, &["m"])).collect();
    assert!(is_workspaces_defined(&list, d(10.0)));
    list[0].workspace = Some("web".to_string());
    assert!(!is_workspaces_defined(&list, d(10.0)));
}

#[test]
fn output_waste_in_single_shots() {
    let mut list: Vec<SessionEntry> = (0..5).map(|_| session(2.0, &["m"])).collect();
    for e in list.iter_mut() {
        e.message_count = 4;
        e.total_output_tokens = 36_000;
    }
    list[1].message_count = 3;
    list[4].message_count = 1;
    assert!(is_output_waste_defined(&list));
    let mut recs: Vec<Recommendation> = Vec::new();
    rule_output_waste(&list, &mut recs);
    assert_eq!(recs.len(), 1);
    let r = &recs[0];
    assert_eq!(r.id, "output_waste");
    assert_eq!(r.severity, Level::Low);
    assert_eq!(r.confidence, Level::Low);
    // 180000 tokens in 16 messages.
    assert_eq!(r.title, "High output generation (11k tokens/msg avg)");
    assert_eq!(
        r.evidence,
        vec![
            "Avg output per message: 11k tokens".to_string(),
            "2 sessions (40%) have ≤3 messages but >10k output tokens".to_string(),
            "Cost of low-interaction high-output sessions: $4.00".to_string(),
        ]
    );
    assert_eq!(
        r.action,
        "Large single-shot generations often produce code that needs heavy editing. Consider iterative prompting (plan → implement → refine) to reduce wasted output. Use max_tokens limits if your client supports them."
    );
    assert_eq!(savings(r), Some(4.0 * 0.25));
    // A fifth of the sessions is not more than a fifth.
    recs.clear();
    list[1].message_count = 4;
    rule_output_waste(&list, &mut recs);
    list[1].message_count = 3;
    for e in list.iter_mut() {
        e.total_cost = d(0.5);
    }
    rule_output_waste(&list, &mut recs);
    assert!(recs.is_empty());
}

#[test]
fn output_waste_is_relative_to_input() {
    let mut list: Vec<SessionEntry> = (0..5).map(|_| session(1.0, &["m"])).collect();
    for (input, found) in [(10_000_000i64, 0usize), (100_000, 0), (99_999, 1), (0, 1)] {
        for e in list.iter_mut() {
            e.message_count = 2;
            e.total_output_tokens = 20_000;
            e.total_input_tokens = input;
        }
        let mut recs: Vec<Recommendation> = Vec::new();
        rule_output_waste(&list, &mut recs);
        assert_eq!(recs.len(), found);
    }
}

#[test]
fn output_waste_sums_must_fit() {
    let mut list: Vec<SessionEntry> = (0..5).map(|_| session(2.0, &["m"])).collect();
    list[0].total_output_tokens = i64::MAX;
    assert!(!is_output_waste_defined(&list));
    assert!(is_output_waste_defined(&list[..4]));
    list[0].total_output_tokens = 1;
    assert!(is_output_waste_defined(&list));
    list[0].total_input_tokens = i64::MAX;
    assert!(!is_output_waste_defined(&list));
}

fn sessions_with_input(tokens: i64) -> Vec<SessionEntry> {
    (0..5)
        .map(|_| {
            let mut e = session(2.0, &["m"]);
            e.total_input_tokens = tokens;
            e
        })
        .collect()
}

#[test]
fn efficiency_declines_by_a_third() {
    let now = sessions_with_input(300_000);
    let then = sessions_with_input(200_000);
    assert!(is_efficiency_defined(&now, Some(&then)));
    let mut recs: Vec<Recommendation> = Vec::new();
    rule_token_efficiency_decline(&now, Some(&then), &mut recs);
    assert_eq!(recs.len(), 1);
    let r = &recs[0];
    assert_eq!(r.id, "token_efficiency_decline");
    assert_eq!(r.severity, Level::Medium);
    assert_eq!(r.confidence, Level::Medium);
    assert_eq!(r.title, "Input tokens/message up 50% vs previous period");
    assert_eq!(
        r.evidence,
        vec![
            "Current: 30k tokens/msg, Previous: 20k tokens/msg".to_string(),
            "Increase: +50% (+10k tokens/msg)".to_string(),
            "This often indicates growing system prompts, larger file includes, or context accumulation".to_string(),
        ]
    );
    assert_eq!(
        r.action,
        "Review what changed in your prompts or workflow. Common causes: new tools/plugins adding context, larger codebases being included, or session history growing without pruning. Consider .kiroignore rules or explicit context selection."
    );
    let ratio = 20_000.0f64 / 30_000.0;
    assert_eq!(savings(r), Some(10.0 * (1.0 - ratio) * 0.5));
}

#[test]
fn efficiency_needs_two_busy_periods() {
    let now = sessions_with_input(300_000);
    let then = sessions_with_input(200_000);
    let mut recs: Vec<Recommendation> = Vec::new();
    rule_token_efficiency_decline(&now, None, &mut recs);
    rule_token_efficiency_decline(&now, Some(&then[..4]), &mut recs);
    rule_token_efficiency_decline(&now[..4], Some(&then), &mut recs);
    rule_token_efficiency_decline(&sessions_with_input(200_000), Some(&sessions_with_input(100_000)), &mut recs);
    rule_token_efficiency_decline(&now, Some(&sessions_with_input(0)), &mut recs);
    rule_token_efficiency_decline(&now, Some(&sessions_with_input(-100)), &mut recs);
    assert!(recs.is_empty());
    let mut wide = sessions_with_input(1);
    wide[2].total_input_tokens = i64::MAX;
    assert!(!is_efficiency_defined(&now, Some(&wide)));
    assert!(is_efficiency_defined(&now, Some(&wide[..4])));
}

fn category_sessions(plan: &[(&str, f64, usize)]) -> Vec<SessionEntry> {
    let mut list: Vec<SessionEntry> = Vec::new();
    for (category, cost, count) in plan {
        for _ in 0..*count {
            let mut e = session(*cost, &["m"]);
            e.task_category = Some(category.to_string());
            list.push(e);
        }
    }
    list
}

#[test]
fn cost_per_task_names_the_worst_category() {
    let now = category_sessions(&[("docs", 2.0, 3), ("bugfix", 6.0, 4), ("review", 4.0, 3), ("infra", 9.0, 2)]);
    let then = category_sessions(&[("docs", 1.0, 2), ("bugfix", 3.0, 2), ("review", 2.0, 2), ("infra", 1.0, 3)]);
    let mut recs: Vec<Recommendation> = Vec::new();
    rule_cost_per_task_regression(&now, Some(&then), &mut recs);
    assert_eq!(recs.len(), 1);
    let r = &recs[0];
    assert_eq!(r.id, "cost_per_task_regression");
    assert_eq!(r.severity, Level::Medium);
    assert_eq!(r.confidence, Level::High);
    assert_eq!(r.title, "\"bugfix\" tasks cost 100% more per session than last period");
    assert_eq!(
        r.evidence,
        vec![
            "\"bugfix\" tasks: $3.00/session → $6.00/session (+100%)".to_string(),
            "4 sessions this period, excess cost: $12.00".to_string(),
            "Also regressed: review (+100%), docs (+100%)".to_string(),
        ]
    );
    assert_eq!(
        r.action,
        "Investigate why \"bugfix\" tasks became more expensive. Common causes: model upgrade, larger codebase context, more complex requirements, or switching from a cheaper model. Compare session lengths and models used."
    );
    assert_eq!(savings(r), Some(12.0 * 0.4));
}

#[test]
fn cost_per_task_needs_a_clear_increase() {
    let mut recs: Vec<Recommendation> = Vec::new();
    // Half as much again, and half a dollar more, are the limits.
    let now = category_sessions(&[("docs", 3.0, 3), ("review", 0.9, 3)]);
    let then = category_sessions(&[("docs", 2.0, 3), ("review", 0.5, 3)]);
    rule_cost_per_task_regression(&now, Some(&then), &mut recs);
    // A category that cost nothing has no relative increase.
    let free = category_sessions(&[("docs", 0.0, 3), ("review", 0.0, 3)]);
    rule_cost_per_task_regression(&now, Some(&free), &mut recs);
    rule_cost_per_task_regression(&now, None, &mut recs);
    rule_cost_per_task_regression(&now[..4], Some(&then), &mut recs);
    rule_cost_per_task_regression(&now, Some(&then[..4]), &mut recs);
    assert!(recs.is_empty());
    let dearer = category_sessions(&[("docs", 3.5, 5)]);
    rule_cost_per_task_regression(&dearer, Some(&then), &mut recs);
    assert_eq!(recs.len(), 1);
    assert_eq!(recs[0].evidence.len(), 2);
}

#[test]
fn rules_add_behind_what_is_there() {
    let mut recs: Vec<Recommendation> = Vec::new();
    rule_spend_spike(&figures(20.0, 7), &Some(figures(10.0, 9)), &mut recs);
    let list = low_risk_sessions();
    rule_premium_overuse(&list, &summary(&list), &mut recs);
    let ids: Vec<&str> = recs.iter().map(|r| r.id.as_str()).collect();
    assert_eq!(ids, vec!["spend_spike", "premium_overuse_low_risk"]);
}
