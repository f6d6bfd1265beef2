use advisor::double::Double;
use advisor::entries::SessionEntry;
use advisor::paint::{advisor_text, paint, paint_all};
use advisor::ranking::{Key, before, rank};
use advisor::recommendation::{Level, Recommendation, sort_recommendations};
use advisor::render::{Span, Style, render_advisor_report};
use advisor::report::{AdvisorReport, diagnose, diagnose_at, is_diagnose_defined, is_optimize_defined, optimize};
use advisor::rules::night_owl::start_hours;
use advisor::summary::{PeriodDelta, PeriodSummary};

fn d(x: f64) -> Double {
    Double { bits: x.to_bits() }
}

fn f(x: Double) -> f64 {
    f64::from_bits(x.bits)
}

fn session(cost: f64, models: &[&str]) -> SessionEntry {
    SessionEntry {
        created_at: 1_700_000_000,
        duration_minutes: 30,
        message_count: 10,
        workspace: None,
        task_category: None,
        models_used: models.iter().map(|m| m.to_string()).collect(),
        total_cost: d(cost),
        total_input_tokens: 1000,
        total_output_tokens: 500,
        total_cache_read: 250,
    }
}

fn finding(id: &str, severity: Level, savings: Option<f64>) -> Recommendation {
    Recommendation {
        id: id.to_string(),
        severity,
        confidence: Level::Medium,
        title: format!("title of {}", id),
        evidence: vec![format!("first of {}", id), format!("second of {}", id)],
        action: format!("action of {}", id),
        estimated_savings: savings.map(d),
    }
}

fn figures(cost: f64, sessions: usize) -> PeriodSummary {
    PeriodSummary {
        sessions,
        total_cost: d(cost),
        total_tokens: 0,
        avg_cost_per_session: d(cost / sessions as f64),
        cache_reuse_rate: d(0.256),
        input_tokens_per_message: d(0.0),
        top_model: None,
        top_model_share: d(0.0),
    }
}

fn plain(doc: &[Span]) -> String {
    doc.iter().map(|s| s.text.as_str()).collect::<Vec<&str>>().concat()
}

#[test]
fn levels_have_labels() {
    assert_eq!(Level::High.label(), "high");
    assert_eq!(Level::Medium.label(), "medium");
    assert_eq!(Level::Low.label(), "low");
}

#[test]
fn keys_rank_by_class_and_amount() {
    let key = |class: u8, amount: f64| Key { class, amount: d(amount) };
    assert!(before(key(0, 1.0), key(1, 9.0)));
    assert!(before(key(1, 9.0), key(1, 1.0)));
    assert!(!before(key(1, 1.0), key(1, 1.0)));
    assert!(!before(key(1, f64::NAN), key(1, 1.0)));
    let keys = vec![key(1, 5.0), key(0, 1.0), key(1, 7.0), key(0, 1.0), key(1, 5.0), key(2, 99.0)];
    assert_eq!(rank(&keys), vec![1, 3, 2, 0, 4, 5]);
}

#[test]
fn recommendations_go_from_severe_to_mild() {
    let list = vec![
        finding("a", Level::Low, Some(100.0)),
        finding("b", Level::Medium, Some(2.0)),
        finding("c", Level::High, None),
        finding("d", Level::Medium, Some(3.0)),
        finding("e", Level::High, Some(0.5)),
        finding("f", Level::Medium, Some(2.0)),
        finding("g", Level::High, Some(-1.0)),
    ];
    let sorted = sort_recommendations(list);
    let ids: Vec<&str> = sorted.iter().map(|r| r.id.as_str()).collect();
    assert_eq!(ids, vec!["e", "c", "g", "d", "b", "f", "a"]);
}

fn busy_period() -> (Vec<SessionEntry>, Vec<SessionEntry>) {
    let mut now: Vec<SessionEntry> = (0..12).map(|_| session(1.0, &["opus"])).collect();
    for (i, e) in now.iter_mut().enumerate() {
        e.duration_minutes = 3;
        e.total_input_tokens = 700_000;
        e.total_output_tokens = 20_000;
        e.total_cache_read = 0;
        e.workspace = Some(if i == 0 { "side" } else { "web" }.to_string());
    }
    now[5].total_cost = d(9.0);
    let then: Vec<SessionEntry> = (0..6).map(|_| session(0.25, &["opus"])).collect();
    (now, then)
}

fn ids(report: &AdvisorReport) -> Vec<&str> {
    report.recommendations.iter().map(|r| r.id.as_str()).collect()
}

#[test]
fn diagnose_applies_every_rule_and_optimize_four() {
    let (now, then) = busy_period();
    assert!(is_optimize_defined(&now, Some(&then)));
    assert!(is_diagnose_defined(&now, Some(&then)));
    let small = optimize(&now, Some(&then));
    assert_eq!(ids(&small), vec!["cache_miss_expensive", "spend_spike", "runaway_sessions"]);
    let mut hours: Vec<u32> = vec![12; 12];
    for i in [4usize, 5, 6] {
        hours[i] = 2;
    }
    let full = diagnose_at(&now, Some(&then), &hours);
    assert_eq!(
        ids(&full),
        vec![
            "cache_miss_expensive",
            "spend_spike",
            "token_efficiency_decline",
            "cost_per_task_regression",
            "idle_context_bloat",
            "short_session_churn",
            "runaway_sessions",
            "model_diversity_low",
            "workspace_concentration",
        ]
    );
    let common = ["cache_miss_expensive", "premium_overuse_low_risk", "spend_spike", "runaway_sessions"];
    let kept: Vec<&str> = ids(&full).into_iter().filter(|id| common.contains(id)).collect();
    assert_eq!(kept, ids(&small));
    assert_eq!(small.current_period.total_cost.bits, full.current_period.total_cost.bits);
    assert_eq!(small.deltas.unwrap().main_driver, full.deltas.unwrap().main_driver);
}

#[test]
fn diagnose_asks_for_the_hours() {
    let (now, then) = busy_period();
    let asked = diagnose(&now, Some(&then));
    let given = diagnose_at(&now, Some(&then), &start_hours(&now));
    assert_eq!(ids(&asked), ids(&given));
}

#[test]
fn changes_are_reported_with_a_previous_period() {
    let (now, then) = busy_period();
    for previous in [None, Some(&[] as &[SessionEntry])] {
        let report = optimize(&now, previous);
        assert!(report.previous_period.is_none());
        assert!(report.deltas.is_none());
    }
    let report = optimize(&now, Some(&then));
    assert_eq!(report.previous_period.unwrap().sessions, 6);
    let deltas = report.deltas.unwrap();
    assert_eq!(f(deltas.cost_change), 20.0 - 1.5);
    assert_eq!(deltas.sessions_change, 6);
    assert_eq!(deltas.main_driver, "opus (+18.50)");
}

#[test]
fn reports_that_cannot_be_made() {
    let mut now = vec![session(f64::NAN, &["a"]), session(1.0, &["b"])];
    assert!(!is_optimize_defined(&now, None));
    now[0].total_cost = d(1.0);
    assert!(is_optimize_defined(&now, None));
    let then = vec![session(f64::NAN, &["a"]), session(1.0, &["b"])];
    assert!(!is_optimize_defined(&now, Some(&then)));
    assert!(!is_diagnose_defined(&now, Some(&then)));
    // Sums of single counts that only the further rules take.
    let mut wide: Vec<SessionEntry> = (0..3).map(|_| session(1.0, &["a"])).collect();
    for e in wide.iter_mut() {
        e.total_input_tokens = i64::MIN / 2;
        e.total_output_tokens = i64::MAX / 2;
        e.total_cache_read = 0;
    }
    wide.truncate(2);
    assert!(is_optimize_defined(&wide, None));
    assert!(is_diagnose_defined(&wide, None));
}

#[test]
fn nothing_to_recommend() {
    let report = optimize(&[session(0.5, &["a"])], None);
    assert!(report.recommendations.is_empty());
    let doc = render_advisor_report(&report);
    assert_eq!(
        plain(&doc),
        "\n  ═══ Advisor ═══\n\n  Spend: $0.50  |  Sessions: 1  |  Cache reuse: 20%\n\n  ✓ No issues detected. Usage looks efficient.\n\n"
    );
    let styles: Vec<Style> = doc.iter().filter(|s| s.style != Style::Plain).map(|s| s.style).collect();
    assert_eq!(styles, vec![Style::Bold, Style::Yellow, Style::Cyan, Style::Green]);
}

fn full_report() -> AdvisorReport {
    let mut current = figures(20.0, 8);
    current.top_model = Some("a-model-name".to_string());
    current.top_model_share = d(0.875);
    AdvisorReport {
        current_period: current,
        previous_period: Some(figures(12.5, 10)),
        deltas: Some(PeriodDelta {
            cost_change: d(7.5),
            cost_change_pct: d(60.0),
            sessions_change: -2,
            cache_rate_change_pp: d(-12.4),
            main_driver: "a-model-name (+7.50)".to_string(),
        }),
        recommendations: vec![finding("one", Level::High, Some(4.0)), finding("two", Level::Low, None)],
    }
}

#[test]
fn a_full_report_as_text() {
    let text = plain(&render_advisor_report(&full_report()));
    let expected = [
        "",
        "  ═══ Advisor ═══",
        "",
        "  Spend: $20.00  |  Sessions: 8  |  Cache reuse: 26%",
        "  vs previous: ↑ $7.50 (+60%)  |  Driver: a-model-name (+7.50)  |  Cache: ↓12pp",
        "  Estimated avoidable spend: ~$4.00/period",
        "",
        "  Recommendations",
        "",
        "  1. [HIGH] title of one  ●●○",
        "",
        "     • first of one",
        "     • second of one",
        "",
        "     → action of one",
        "       Estimated savings: ~$4.00",
        "",
        "  2. [LOW] title of two  ●●○",
        "",
        "     • first of two",
        "     • second of two",
        "",
        "     → action of two",
        "",
        "  What Changed",
        "                          Current   Previous          Δ",
        "  ────────────────────────────────────────────────────",
        "                  Cost     $20.00     $12.50      +7.50",
        "              Sessions          8         10         -2",
        "           Cache reuse        26%        26%      -12pp",
        "      Avg cost/session      $2.50      $1.25      +1.25",
        "             Top model a-model-name (88%)",
        "",
        "",
    ];
    assert_eq!(text, expected.join("\n"));
}

fn style_of(doc: &[Span], text: &str) -> Style {
    doc.iter().find(|s| s.text == text).unwrap().style
}

#[test]
fn changes_are_coloured_by_size() {
    for (change, text, style) in [
        (5.5, "↑ $5.50 (+60%)", Style::Red),
        (5.0, "↑ $5.00 (+60%)", Style::Dimmed),
        (0.0, "↑ $0.00 (+60%)", Style::Dimmed),
        (-1.0, "↓ $1.00 (+60%)", Style::Dimmed),
        (-1.25, "↓ $1.25 (+60%)", Style::Green),
    ] {
        let mut report = full_report();
        report.deltas.as_mut().unwrap().cost_change = d(change);
        assert_eq!(style_of(&render_advisor_report(&report), text), style);
    }
}

#[test]
fn cache_changes_are_shown_above_five_points() {
    for (change, text) in [(5.0, None), (-5.0, None), (5.6, Some("  |  Cache: ↑6pp")), (-5.6, Some("  |  Cache: ↓6pp"))] {
        let mut report = full_report();
        report.deltas.as_mut().unwrap().cache_rate_change_pp = d(change);
        let doc = render_advisor_report(&report);
        let shown: Option<&str> = doc.iter().map(|s| s.text.as_str()).find(|t| t.starts_with("  |  Cache: "));
        assert_eq!(shown, text);
    }
}

#[test]
fn badges_and_confidence() {
    let mut report = full_report();
    report.recommendations = vec![
        finding("a", Level::High, None),
        finding("b", Level::Medium, None),
        finding("c", Level::Low, None),
    ];
    report.recommendations[0].confidence = Level::High;
    report.recommendations[2].confidence = Level::Low;
    let doc = render_advisor_report(&report);
    assert_eq!(style_of(&doc, "HIGH"), Style::RedBold);
    assert_eq!(style_of(&doc, "MED"), Style::YellowBold);
    assert_eq!(style_of(&doc, "LOW"), Style::DimmedBold);
    for dots in ["●●●", "●●○", "●○○"] {
        assert_eq!(style_of(&doc, dots), Style::Dimmed);
    }
    assert_eq!(style_of(&doc, "title of b"), Style::Bold);
    assert_eq!(style_of(&doc, "Recommendations"), Style::BoldUnderline);
    assert_eq!(style_of(&doc, "→"), Style::Green);
}

#[test]
fn avoidable_spend_above_half_a_dollar() {
    for (savings, shown) in [(0.5, false), (0.51, true), (f64::NAN, false)] {
        let mut report = full_report();
        report.recommendations = vec![finding("a", Level::High, Some(savings)), finding("b", Level::High, None)];
        let text = plain(&render_advisor_report(&report));
        assert_eq!(text.contains("Estimated avoidable spend"), shown);
    }
}

#[test]
fn five_recommendations_are_shown() {
    let mut report = full_report();
    report.recommendations = (0..7).map(|i| finding(&format!("r{}", i), Level::Low, Some(1.0))).collect();
    let text = plain(&render_advisor_report(&report));
    assert!(text.contains("  5. [LOW] title of r4"));
    assert!(!text.contains("title of r5"));
    // The savings of all seven count.
    assert!(text.contains("~$7.00/period"));
    assert!(text.contains("What Changed"));
}

#[test]
fn no_table_without_a_previous_period() {
    let mut report = full_report();
    report.previous_period = None;
    report.deltas = None;
    let text = plain(&render_advisor_report(&report));
    assert!(!text.contains("vs previous"));
    assert!(!text.contains("What Changed"));
}

/// Colours are switched on and off for the whole process, so all of this is one test.
#[test]
fn styles_have_codes_where_colours_are_on() {
    let codes = [
        (Style::Bold, "\x1b[1m"),
        (Style::BoldUnderline, "\x1b[1;4m"),
        (Style::Yellow, "\x1b[33m"),
        (Style::Cyan, "\x1b[36m"),
        (Style::Red, "\x1b[31m"),
        (Style::Green, "\x1b[32m"),
        (Style::Dimmed, "\x1b[2m"),
        (Style::RedBold, "\x1b[1;31m"),
        (Style::YellowBold, "\x1b[1;33m"),
        (Style::DimmedBold, "\x1b[1;2m"),
    ];
    for (style, code) in codes {
        for text in ["a piece of text", ""] {
            let piece = Span { text: text.to_string(), style };
            colored::control::set_override(true);
            assert_eq!(paint(&piece), format!("{}{}\x1b[0m", code, text));
            colored::control::set_override(false);
            assert_eq!(paint(&piece), text);
        }
    }
    colored::control::set_override(true);
    let piece = Span { text: "a piece of text".to_string(), style: Style::Plain };
    assert_eq!(paint(&piece), "a piece of text");
    let marked = Span { text: "\x1b[4mmarked".to_string(), style: Style::Red };
    assert_eq!(paint(&marked), "\x1b[31m\x1b[4mmarked\x1b[0m");
    let nested = Span { text: "a\x1b[0mb\x1b[0m\x1b[0mc".to_string(), style: Style::RedBold };
    assert_eq!(
        paint(&nested),
        "\x1b[1;31ma\x1b[0m\x1b[1;31mb\x1b[0m\x1b[1;31m\x1b[0m\x1b[1;31mc\x1b[0m"
    );
    let doc = vec![piece, Span { text: "more".to_string(), style: Style::Red }];
    assert_eq!(paint_all(&doc), "a piece of text\x1b[31mmore\x1b[0m");

    colored::control::set_override(false);
    let report = full_report();
    assert_eq!(advisor_text(&report), plain(&render_advisor_report(&report)));
    colored::control::set_override(true);
    let painted = advisor_text(&report);
    assert!(painted.starts_with("\n  \x1b[1m═══ Advisor ═══\x1b[0m\n\n  Spend: \x1b[33m$20.00\x1b[0m  |  Sessions: \x1b[36m8\x1b[0m"));
    assert!(painted.contains("  1. [\x1b[1;31mHIGH\x1b[0m] \x1b[1mtitle of one\x1b[0m  \x1b[2m●●○\x1b[0m"));
    colored::control::unset_override();
}
