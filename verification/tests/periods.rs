use advisor::clock::{FIRST_SECOND, LAST_SECOND};
use advisor::double::Double;
use advisor::entries::{Measure, SessionEntry, all, checked_total, measure, pick, retain_valid, total_spend};
use advisor::ledger::{Basis, Posting, find, keep, tally, tally_some};
use advisor::rules::night_owl::start_hours;
use advisor::summary::{
    are_comparable, compute_deltas, compute_period_summary, find_main_cost_driver, find_top, fraction,
    is_summary_defined,
};
use advisor::window::{
    Step, is_previous_window_defined, next_step, previous_window, resolve_trailing_7d_window, trailing_window,
};

fn d(x: f64) -> Double {
    Double { bits: x.to_bits() }
}

fn f(x: Double) -> f64 {
    f64::from_bits(x.bits)
}

fn session(cost: f64, models: &[&str]) -> SessionEntry {
    SessionEntry {
        created_at: 1_700_000_000,
        duration_minutes: 30,
        message_count: 10,
        workspace: None,
        task_category: None,
        models_used: models.iter().map(|m| m.to_string()).collect(),
        total_cost: d(cost),
        total_input_tokens: 1000,
        total_output_tokens: 500,
        total_cache_read: 250,
    }
}

#[test]
fn sessions_over_a_day_are_dropped() {
    let mut list: Vec<SessionEntry> = (0..5).map(|i| session(i as f64, &["m"])).collect();
    list[1].duration_minutes = 1441;
    list[2].duration_minutes = 1440;
    list[4].duration_minutes = 100_000;
    let kept = retain_valid(list);
    let costs: Vec<f64> = kept.iter().map(|e| f(e.total_cost)).collect();
    assert_eq!(costs, vec![0.0, 2.0, 3.0]);
    let again = retain_valid(kept);
    assert_eq!(again.len(), 3);
    assert!(retain_valid(Vec::new()).is_empty());
}

#[test]
fn sums_over_sessions() {
    let list = vec![session(0.1, &[]), session(0.2, &[]), session(0.3, &[])];
    let refs = all(&list);
    assert_eq!(f(total_spend(&refs)), 0.1 + 0.2 + 0.3);
    assert_eq!(checked_total(&refs, Measure::Input), Some(3000));
    assert_eq!(checked_total(&refs, Measure::Output), Some(1500));
    assert_eq!(checked_total(&refs, Measure::InputAndOutput), Some(4500));
    assert_eq!(checked_total(&refs, Measure::CacheRead), Some(750));
    assert_eq!(checked_total(&refs, Measure::Messages), Some(30));
    let some = pick(&list, &vec![true, false, true]);
    assert_eq!(f(total_spend(&some)), 0.1 + 0.3);
    // The sum of nothing is the neutral element.
    assert_eq!(total_spend(&pick(&list, &vec![false; 3])).bits, (-0.0f64).to_bits());
}

#[test]
fn sums_that_do_not_fit() {
    let mut list = vec![session(0.1, &[]), session(0.2, &[])];
    list[0].total_input_tokens = i64::MAX;
    assert_eq!(checked_total(&all(&list), Measure::Input), None);
    assert_eq!(measure(&list[0], Measure::InputAndOutput), None);
    assert_eq!(measure(&list[1], Measure::InputAndOutput), Some(1500));
    list[0].total_input_tokens = i64::MIN;
    assert_eq!(checked_total(&all(&list), Measure::Input), Some(i64::MIN + 1000));
}

#[test]
fn ledger_by_name() {
    let posting = |name: &str, cost: f64, first: i64, second: i64| Posting {
        name: name.to_string(),
        cost: d(cost),
        first,
        second,
    };
    let list = vec![posting("b", 1.0, 2, 3), posting("a", 0.5, 1, 1), posting("b", 2.0, 20, 30)];
    let accounts = keep(&list).unwrap();
    assert_eq!(accounts.len(), 2);
    assert_eq!(accounts[0].name, "b");
    assert_eq!(f(accounts[0].cost), 3.0);
    assert_eq!((accounts[0].first, accounts[0].second, accounts[0].count), (22, 33, 2));
    assert_eq!(find(&accounts, &"a".to_string()), Some(1));
    assert_eq!(find(&accounts, &"c".to_string()), None);
    let some = [session(1.0, &["a"]), session(2.0, &["b"]), session(4.0, &["a"])];
    let picked = pick(&some, &vec![true, false, true]);
    let accounts = tally_some(Basis::ModelSpend, &picked).unwrap();
    assert_eq!(accounts.len(), 1);
    assert_eq!(f(accounts[0].cost), 5.0);
    let wide = vec![posting("b", 1.0, i64::MAX, 0), posting("b", 1.0, 1, 0)];
    assert!(keep(&wide).is_none());
}

#[test]
fn sessions_are_divided_among_models() {
    let mut one = session(3.0, &["a", "b", "a"]);
    one.total_input_tokens = 1000;
    one.total_cache_read = 100;
    let list = vec![one, session(5.0, &[]), session(0.7, &["b"])];
    let spend = tally(Basis::ModelSpend, &list).unwrap();
    assert_eq!(spend.iter().map(|a| a.name.as_str()).collect::<Vec<&str>>(), vec!["a", "b"]);
    assert_eq!(f(spend[0].cost), 0.0 + 3.0 / 3.0 + 3.0 / 3.0);
    assert_eq!(f(spend[1].cost), 3.0 / 3.0 + 0.7);
    let context = tally(Basis::ModelContext, &list).unwrap();
    let third = 1.0f64 / 3.0;
    assert_eq!(context[0].first, 2 * (1000.0 * third) as i64);
    assert_eq!(context[0].second, 2 * (100.0 * third) as i64);
    assert_eq!(context[1].first, (1000.0 * third) as i64 + 1000);
    let tokens = tally(Basis::ModelTokens, &list).unwrap();
    assert_eq!(tokens[0].first, 2 * (1500.0 * third) as i64);
    assert_eq!(f(tokens[0].cost), 3.0 * third + 3.0 * third);
}

#[test]
fn each_session_counts_in_one_place() {
    let mut list: Vec<SessionEntry> = (0..6).map(|_| session(1.0, &["a", "b"])).collect();
    list[1].workspace = Some("web".to_string());
    list[4].workspace = Some("web".to_string());
    list[2].task_category = Some("docs".to_string());
    list[3].task_category = Some("other".to_string());
    let places = tally(Basis::Workspace, &list).unwrap();
    let counts: Vec<(&str, usize)> = places.iter().map(|a| (a.name.as_str(), a.count)).collect();
    assert_eq!(counts, vec![("(none)", 4), ("web", 2)]);
    let tasks = tally(Basis::Category, &list).unwrap();
    let counts: Vec<(&str, usize)> = tasks.iter().map(|a| (a.name.as_str(), a.count)).collect();
    assert_eq!(counts, vec![("other", 5), ("docs", 1)]);
}

#[test]
fn tokens_that_cannot_be_added_cannot_be_tallied() {
    let mut e = session(1.0, &["a"]);
    e.total_input_tokens = i64::MAX;
    e.total_output_tokens = 1;
    assert!(tally(Basis::ModelSpend, &[e]).is_some());
    let mut e = session(1.0, &["a"]);
    e.total_input_tokens = i64::MAX;
    e.total_output_tokens = 1;
    assert!(tally(Basis::ModelTokens, &[e]).is_none());
    let mut e = session(1.0, &[]);
    e.total_input_tokens = i64::MAX;
    e.total_output_tokens = 1;
    assert!(tally(Basis::ModelTokens, &[e]).is_some());
}

#[test]
fn figures_of_a_period() {
    let list = vec![session(0.1, &["a"]), session(0.7, &["b"]), session(0.4, &["a", "b"])];
    assert!(is_summary_defined(&list));
    let sum = compute_period_summary(&list);
    let total = 0.1 + 0.7 + 0.4;
    assert_eq!(sum.sessions, 3);
    assert_eq!(f(sum.total_cost), total);
    assert_eq!(sum.total_tokens, 4500);
    assert_eq!(f(sum.avg_cost_per_session), total / 3.0);
    assert_eq!(f(sum.cache_reuse_rate), 750.0 / 3750.0);
    assert_eq!(f(sum.input_tokens_per_message), 3000.0 / 30.0);
    assert_eq!(sum.top_model, Some("b".to_string()));
    assert_eq!(f(sum.top_model_share), (0.7 + 0.4 / 2.0) / total);
}

#[test]
fn figures_of_an_empty_period() {
    let sum = compute_period_summary(&[]);
    assert_eq!(sum.sessions, 0);
    assert_eq!(sum.total_cost.bits, (-0.0f64).to_bits());
    assert_eq!(f(sum.avg_cost_per_session), 0.0);
    assert_eq!(f(sum.cache_reuse_rate), 0.0);
    assert_eq!(f(sum.input_tokens_per_message), 0.0);
    assert_eq!(sum.top_model, None);
    assert_eq!(f(sum.top_model_share), 0.0);
}

#[test]
fn figures_without_positive_counts() {
    let mut e = session(0.0, &["a"]);
    e.message_count = -1;
    e.total_input_tokens = -300;
    let sum = compute_period_summary(&[e]);
    assert_eq!(f(sum.cache_reuse_rate), 0.0);
    assert_eq!(f(sum.input_tokens_per_message), 0.0);
    assert_eq!(f(sum.top_model_share), 0.0);
}

#[test]
fn figures_that_cannot_be_computed() {
    let mut e = session(1.0, &["a"]);
    e.total_input_tokens = i64::MAX;
    assert!(!is_summary_defined(&[e]));
    let mut e = session(1.0, &["a"]);
    e.total_input_tokens = i64::MAX - 600;
    e.total_cache_read = 601;
    assert!(!is_summary_defined(&[e]));
    assert!(is_summary_defined(&[session(f64::NAN, &["a"])]));
    assert!(!is_summary_defined(&[session(f64::NAN, &["a"]), session(1.0, &["b"])]));
}

#[test]
fn cache_reuse_is_a_fraction() {
    for (input, cached) in [(0i64, 1i64), (1, 0), (1, i64::MAX - 1), (i64::MAX - 1, 1), (7, 9), (i64::MAX / 2, i64::MAX / 2)] {
        let mut e = session(1.0, &["a"]);
        e.total_input_tokens = input;
        e.total_output_tokens = 0;
        e.total_cache_read = cached;
        let list = [e];
        assert!(is_summary_defined(&list));
        let rate = f(compute_period_summary(&list).cache_reuse_rate);
        assert!((0.0..=1.0).contains(&rate));
        assert_eq!(rate, cached as f64 / (input + cached) as f64);
    }
}

#[test]
fn the_last_of_the_highest_accounts_is_on_top() {
    let list = vec![session(2.0, &["a"]), session(3.0, &["b"]), session(3.0, &["c"]), session(1.0, &["d"])];
    let accounts = tally(Basis::ModelSpend, &list).unwrap();
    assert!(are_comparable(&accounts));
    assert_eq!(find_top(&accounts), 2);
    assert_eq!(compute_period_summary(&list).top_model, Some("c".to_string()));
}

#[test]
fn fractions_of_small_totals() {
    assert_eq!(f(fraction(d(3.0), d(4.0))), 0.75);
    assert_eq!(f(fraction(d(3.0), d(0.0))), 3.0 / 0.001);
    assert_eq!(f(fraction(d(3.0), d(-8.0))), 3.0 / 0.001);
    assert_eq!(f(fraction(d(3.0), d(f64::NAN))), 3.0 / 0.001);
}

#[test]
fn the_main_driver_changed_most() {
    let now = vec![session(5.0, &["a"]), session(1.0, &["b"]), session(4.0, &["c"])];
    let then = vec![session(3.0, &["a"]), session(9.25, &["b"]), session(100.0, &["gone"])];
    assert_eq!(find_main_cost_driver(&now, &then), "b (-8.25)");
    assert_eq!(find_main_cost_driver(&now, &[]), "a (+5.00)");
    assert_eq!(find_main_cost_driver(&now, &now), "mixed");
    assert_eq!(find_main_cost_driver(&[], &then), "mixed");
}

#[test]
fn changes_between_periods() {
    let now = vec![session(5.0, &["a"]), session(1.0, &["b"])];
    let mut then = vec![session(4.0, &["a"]), session(1.0, &["b"]), session(3.0, &["c"])];
    then[0].total_cache_read = 0;
    let (a, b) = (compute_period_summary(&now), compute_period_summary(&then));
    let delta = compute_deltas(&a, &b, &now, &then);
    assert_eq!(f(delta.cost_change), -2.0);
    assert_eq!(f(delta.cost_change_pct), -2.0 / 8.0 * 100.0);
    assert_eq!(delta.sessions_change, -1);
    assert_eq!(f(delta.cache_rate_change_pp), (500.0f64 / 2500.0 - 500.0 / 3500.0) * 100.0);
    assert_eq!(delta.main_driver, "a (+1.00)");
    let free = vec![session(0.0, &["a"])];
    let delta = compute_deltas(&a, &compute_period_summary(&free), &now, &free);
    assert_eq!(f(delta.cost_change_pct), 0.0);
}

#[test]
fn explicit_windows_are_kept() {
    assert_eq!(resolve_trailing_7d_window(Some(5), Some(9)), (Some(5), Some(9)));
    assert_eq!(resolve_trailing_7d_window(Some(5), None), (Some(5), None));
    assert_eq!(resolve_trailing_7d_window(None, Some(9)), (None, Some(9)));
    assert_eq!(trailing_window(None, Some(9), 1), (None, Some(9)));
}

#[test]
fn the_default_window_is_seven_days_up_to_now() {
    assert_eq!(trailing_window(None, None, 1_700_000_000), (Some(1_700_000_000 - 7 * 86_400), Some(1_700_000_000)));
    let before = chrono::Utc::now().timestamp();
    let (since, until) = resolve_trailing_7d_window(None, None);
    let after = chrono::Utc::now().timestamp();
    let now = until.unwrap();
    assert!(before <= now && now <= after);
    assert_eq!(since, Some(now - 604_800));
}

fn sessions_at(starts: &[i64]) -> Vec<SessionEntry> {
    starts
        .iter()
        .map(|s| {
            let mut e = session(1.0, &["m"]);
            e.created_at = *s;
            e
        })
        .collect()
}

#[test]
fn the_previous_window_ends_before_the_first_session() {
    assert_eq!(previous_window(&sessions_at(&[500, 100, 300])), Some((-300, 99)));
    assert_eq!(previous_window(&sessions_at(&[7, 8])), Some((6, 6)));
    assert_eq!(previous_window(&sessions_at(&[7, 7])), None);
    assert_eq!(previous_window(&[]), None);
}

#[test]
fn previous_windows_that_do_not_fit() {
    assert!(!is_previous_window_defined(&sessions_at(&[i64::MIN, i64::MAX])));
    assert!(!is_previous_window_defined(&sessions_at(&[i64::MIN + 5, i64::MIN + 11])));
    assert!(is_previous_window_defined(&sessions_at(&[i64::MIN + 6, i64::MIN + 11])));
    assert!(is_previous_window_defined(&sessions_at(&[i64::MIN])));
    assert!(is_previous_window_defined(&[]));
}

#[test]
fn steps_after_the_sessions_are_known() {
    assert_eq!(next_step(&[]), Step::Stop);
    assert_eq!(next_step(&sessions_at(&[7, 7])), Step::Report);
    assert_eq!(next_step(&sessions_at(&[100, 500])), Step::Compare { since: -300, until: 99 });
}

#[test]
fn the_calendar_has_ends() {
    assert_eq!(FIRST_SECOND, chrono::DateTime::<chrono::Utc>::MIN_UTC.timestamp());
    assert_eq!(LAST_SECOND, chrono::DateTime::<chrono::Utc>::MAX_UTC.timestamp());
    assert!(chrono::DateTime::from_timestamp(FIRST_SECOND, 0).is_some());
    assert!(chrono::DateTime::from_timestamp(LAST_SECOND, 0).is_some());
    let hours = start_hours(&sessions_at(&[FIRST_SECOND - 1, FIRST_SECOND, LAST_SECOND, LAST_SECOND + 1, i64::MIN]));
    assert_eq!((hours[0], hours[3], hours[4]), (12, 12, 12));
    assert!(hours[1] < 24 && hours[2] < 24);
}

#[test]
fn hours_are_those_of_the_local_zone() {
    let starts: Vec<i64> = (0..24).map(|h| 1_700_000_000 + 3600 * h).collect();
    let hours = start_hours(&sessions_at(&starts));
    for (start, hour) in starts.iter().zip(hours.iter()) {
        let utc = chrono::DateTime::from_timestamp(*start, 0).unwrap();
        let local = utc.with_timezone(&chrono::Local);
        assert_eq!(format!("{:02}", hour), local.format("%H").to_string());
    }
}
