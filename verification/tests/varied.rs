//! Figures of varied sessions, against the arithmetic of the machine.

use advisor::double::Double;
use advisor::entries::SessionEntry;
use advisor::report::{diagnose_at, is_diagnose_defined, AdvisorReport};

struct Numbers {
    state: u64,
}

impl Numbers {
    fn below(&mut self, n: u64) -> u64 {
        self.state = self.state.wrapping_mul(6364136223846793005).wrapping_add(1442695040888963407);
        (self.state >> 33) % n
    }
}

fn f(x: Double) -> f64 {
    f64::from_bits(x.bits)
}

fn varied_sessions(numbers: &mut Numbers, count: usize) -> Vec<SessionEntry> {
    let models = ["opus", "sonnet", "haiku", "mini"];
    let categories = ["docs", "review", "feature", "bugfix"];
    (0..count)
        .map(|_| {
            let used = numbers.below(4) as usize;
            SessionEntry {
                created_at: numbers.below(1_700_000_000) as i64,
                duration_minutes: numbers.below(12) as i64,
                message_count: numbers.below(9) as i64,
                workspace: if numbers.below(3) == 0 { None } else { Some(format!("w{}", numbers.below(2))) },
                task_category: if numbers.below(5) == 0 {
                    None
                } else {
                    Some(categories[numbers.below(4) as usize].to_string())
                },
                models_used: (0..used).map(|_| models[numbers.below(4) as usize].to_string()).collect(),
                total_cost: Double { bits: (numbers.below(100_000) as f64 / 7_919.0).to_bits() },
                total_input_tokens: numbers.below(900_000) as i64,
                total_output_tokens: numbers.below(60_000) as i64,
                total_cache_read: numbers.below(50_000) as i64,
            }
        })
        .collect()
}

fn spend(list: &[&SessionEntry]) -> f64 {
    list.iter().map(|e| f(e.total_cost)).sum()
}

fn saved(report: &AdvisorReport, id: &str) -> Option<f64> {
    report.recommendations.iter().find(|r| r.id == id).map(|r| f(r.estimated_savings.unwrap()))
}

#[test]
fn varied_figures_agree_with_the_machine() {
    let mut numbers = Numbers { state: 7 };
    let mut found: usize = 0;
    for round in 0..60 {
        let list = varied_sessions(&mut numbers, 1 + round % 25);
        let before = varied_sessions(&mut numbers, round % 9);
        let hours: Vec<u32> = (0..list.len()).map(|_| numbers.below(24) as u32).collect();
        assert!(is_diagnose_defined(&list, Some(&before)));
        let report = diagnose_at(&list, Some(&before), &hours);

        let all: Vec<&SessionEntry> = list.iter().collect();
        let total = spend(&all);
        let input: i64 = list.iter().map(|e| e.total_input_tokens).sum();
        let output: i64 = list.iter().map(|e| e.total_output_tokens).sum();
        let cached: i64 = list.iter().map(|e| e.total_cache_read).sum();
        let messages: i64 = list.iter().map(|e| e.message_count).sum();
        let now = &report.current_period;
        assert_eq!(f(now.total_cost), total);
        assert_eq!(now.total_tokens, input + output);
        assert_eq!(f(now.avg_cost_per_session), total / list.len() as f64);
        assert_eq!(f(now.cache_reuse_rate), cached as f64 / (input + cached) as f64);
        if messages > 0 {
            assert_eq!(f(now.input_tokens_per_message), input as f64 / messages as f64);
        }
        let mut by_model: Vec<(String, f64)> = Vec::new();
        for e in &list {
            let share = f(e.total_cost) / e.models_used.len().max(1) as f64;
            for m in &e.models_used {
                match by_model.iter_mut().find(|a| a.0 == *m) {
                    Some(a) => a.1 += share,
                    None => by_model.push((m.clone(), 0.0 + share)),
                }
            }
        }
        let top = by_model.iter().max_by(|a, b| a.1.partial_cmp(&b.1).unwrap());
        assert_eq!(now.top_model, top.map(|a| a.0.clone()));
        assert_eq!(f(now.top_model_share), top.map(|a| a.1).unwrap_or(0.0) / total.max(0.001));
        if let Some(deltas) = &report.deltas {
            let then: f64 = before.iter().map(|e| f(e.total_cost)).sum();
            assert_eq!(f(deltas.cost_change), total - then);
            assert_eq!(f(deltas.cost_change_pct), (total - then) / then * 100.0);
            assert_eq!(deltas.sessions_change, list.len() as i64 - before.len() as i64);
        }

        let mut costs: Vec<f64> = list.iter().map(|e| f(e.total_cost)).collect();
        costs.sort_by(|a, b| a.partial_cmp(b).unwrap());
        let half = costs.len() / 2;
        let median = if costs.len() % 2 == 1 { costs[half] } else { (costs[half - 1] + costs[half]) / 2.0 };
        let limit = (median * 3.0).max(1.0);
        let runaways: Vec<&SessionEntry> = list.iter().filter(|e| f(e.total_cost) > limit).collect();
        let runs_away = list.len() >= 5
            && !runaways.is_empty()
            && (spend(&runaways) / total.max(0.001) >= 0.1 || runaways.len() >= 3);
        assert_eq!(
            saved(&report, "runaway_sessions"),
            if runs_away { Some(spend(&runaways) * 0.2) } else { None }
        );

        let short: Vec<&SessionEntry> =
            list.iter().filter(|e| e.duration_minutes < 5).collect();
        let churns = list.len() >= 10 && short.len() as f64 / list.len() as f64 > 0.30;
        assert_eq!(
            saved(&report, "short_session_churn"),
            if churns { Some(spend(&short) * 0.3) } else { None }
        );

        let night: Vec<&SessionEntry> =
            list.iter().zip(&hours).filter(|(_, h)| **h < 6).map(|(e, _)| e).collect();
        let day: Vec<&SessionEntry> =
            list.iter().zip(&hours).filter(|(_, h)| **h >= 6).map(|(e, _)| e).collect();
        let mut dearest: Option<(&str, f64)> = None;
        for (model, cost) in &by_model {
            let uses = list.iter().flat_map(|e| &e.models_used).filter(|m| *m == model).count();
            let average = cost / uses as f64;
            if dearest.map(|d| d.1 < average).unwrap_or(true) {
                dearest = Some((model.as_str(), average));
            }
        }
        let users = |some: &[&SessionEntry]| {
            some.iter().filter(|e| e.models_used.iter().any(|m| Some(m.as_str()) == dearest.map(|d| d.0))).count()
        };
        let owl = list.len() >= 10
            && users(&night) * day.len() > users(&day) * night.len()
            && night.len() >= 3
            && !day.is_empty()
            && spend(&night) / night.len() as f64 > spend(&day) / day.len() as f64 * 1.5
            && spend(&night) > 3.0;
        assert_eq!(saved(&report, "night_owl_premium"), if owl { Some(spend(&night) * 0.3) } else { None });

        let idle = list.len() >= 3
            && messages != 0
            && input as f64 / messages as f64 > 50_000.0
            && (output as f64 / input as f64) < 0.15;
        assert_eq!(saved(&report, "idle_context_bloat"), if idle { Some(total * 0.3) } else { None });
        found += report.recommendations.len();
    }
    assert!(found > 100);
}
