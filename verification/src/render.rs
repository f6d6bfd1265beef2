//! The report as styled text.

use crate::double::{Double, SIGN_BIT, lemma_integer_exact, lemma_no_units, of_int};
use crate::exact::lemma_whole_limits;
use crate::numbers::{FIVE, HALF, HUNDRED, ONE, ZERO, num};
use crate::recommendation::{Level, Recommendation, RecommendationView, views};
use crate::report::{AdvisorReport, AdvisorReportView};
use crate::rounding::{ONE_EXPONENT, SIGNIFICAND_LIMIT};
use crate::summary::{PeriodDelta, PeriodDeltaView, PeriodSummary, PeriodSummaryView};
use crate::text::{
    align_right, count, decimal, integer, integer_text, lemma_aligned, number, number_text, repeat,
    repeated, right_aligned, texts,
};
use vstd::arithmetic::power2::{lemma_pow2_pos, pow2};
use vstd::prelude::*;

verus! {

/// How a piece of text is set off.
#[derive(Clone, Copy, Debug, PartialEq, Eq, Structural)]
pub enum Style {
    Plain,
    Bold,
    BoldUnderline,
    Yellow,
    Cyan,
    Red,
    Green,
    Dimmed,
    RedBold,
    YellowBold,
    DimmedBold,
}

/// A piece of text in one style. Line breaks are part of the text.
#[derive(Debug)]
pub struct Span {
    pub text: String,
    pub style: Style,
}

#[verifier::ext_equal]
pub struct SpanView {
    pub text: Seq<char>,
    pub style: Style,
}

impl View for Span {
    type V = SpanView;

    open spec fn view(&self) -> SpanView {
        SpanView { text: self.text@, style: self.style }
    }
}

pub open spec fn span_views(list: Seq<Span>) -> Seq<SpanView> {
    list.map_values(|s: Span| s@)
}

pub open spec fn span(style: Style, text: Seq<char>) -> SpanView {
    SpanView { text, style }
}

/// Appends a piece of text.
fn put(doc: &mut Vec<Span>, style: Style, text: String)
    ensures
        span_views(final(doc)@) == span_views(old(doc)@).push(span(style, text@)),
{
    let ghost before = doc@;
    doc.push(Span { text, style });
    assert(span_views(doc@) =~= span_views(before).push(span(style, text@)));
}

/// Appends a literal piece of text.
fn put_str(doc: &mut Vec<Span>, style: Style, text: &str)
    ensures
        span_views(final(doc)@) == span_views(old(doc)@).push(span(style, text@)),
{
    put(doc, style, text.to_owned());
}

/// A percentage without decimals.
pub open spec fn percent_text(rate: Double) -> Seq<char> {
    number_text(rate.times(num(HUNDRED)), 0, false) + "%"@
}

fn percent(rate: Double) -> (s: String)
    ensures
        s@ == percent_text(rate),
{
    number(rate.times(num(HUNDRED)), 0, false).concat("%")
}

/// An amount in dollars and cents.
pub open spec fn dollars_text(amount: Double) -> Seq<char> {
    "$"@ + number_text(amount, 2, false)
}

fn dollars(amount: Double) -> (s: String)
    ensures
        s@ == dollars_text(amount),
{
    "$".to_owned().concat(number(amount, 2, false).as_str())
}

/// The heading and the figures of the period.
pub open spec fn heading(current: PeriodSummaryView) -> Seq<SpanView> {
    seq![
        span(Style::Plain, "\n  "@),
        span(Style::Bold, "═══ Advisor ═══"@),
        span(Style::Plain, "\n\n  Spend: "@),
        span(Style::Yellow, dollars_text(current.total_cost)),
        span(Style::Plain, "  |  Sessions: "@),
        span(Style::Cyan, decimal(current.sessions)),
        span(Style::Plain, "  |  Cache reuse: "@ + percent_text(current.cache_reuse_rate)),
    ]
}

fn put_heading(doc: &mut Vec<Span>, current: &PeriodSummary)
    ensures
        span_views(final(doc)@) == span_views(old(doc)@) + heading(current@),
{
    put_str(doc, Style::Plain, "\n  ");
    put_str(doc, Style::Bold, "═══ Advisor ═══");
    put_str(doc, Style::Plain, "\n\n  Spend: ");
    put(doc, Style::Yellow, dollars(current.total_cost));
    put_str(doc, Style::Plain, "  |  Sessions: ");
    put(doc, Style::Cyan, count(current.sessions));
    put(
        doc,
        Style::Plain,
        "  |  Cache reuse: ".to_owned().concat(percent(current.cache_reuse_rate).as_str()),
    );
    assert(span_views(doc@) =~= span_views(old(doc)@) + heading(current@));
}

/// A rise of more than $5 is red, a fall of more than $1 green.
pub open spec fn change_style(change: Double) -> Style {
    if num(FIVE).less(change) {
        Style::Red
    } else if change.less(num(ONE).negated()) {
        Style::Green
    } else {
        Style::Dimmed
    }
}

pub open spec fn change_text(delta: PeriodDeltaView) -> Seq<char> {
    (if num(ZERO).at_most(delta.cost_change) {
        "↑"@
    } else {
        "↓"@
    }) + " $"@ + number_text(delta.cost_change.abs(), 2, false) + " ("@ + number_text(
        delta.cost_change_pct,
        0,
        true,
    ) + "%)"@
}

/// The change of the cache rate, if it is more than five percentage points.
pub open spec fn cache_change(delta: PeriodDeltaView) -> Seq<SpanView> {
    if num(FIVE).less(delta.cache_rate_change_pp.abs()) {
        seq![
            span(
                Style::Plain,
                "  |  Cache: "@ + (if num(ZERO).less(delta.cache_rate_change_pp) {
                    "↑"@
                } else {
                    "↓"@
                }) + number_text(delta.cache_rate_change_pp.abs(), 0, false) + "pp"@,
            ),
        ]
    } else {
        Seq::empty()
    }
}

/// The line that compares with the previous period.
pub open spec fn comparison(delta: Option<PeriodDeltaView>) -> Seq<SpanView> {
    match delta {
        Some(d) => seq![
            span(Style::Plain, "\n  vs previous: "@),
            span(change_style(d.cost_change), change_text(d)),
            span(Style::Plain, "  |  Driver: "@ + d.main_driver),
        ] + cache_change(d),
        None => Seq::empty(),
    }
}

pub open spec fn optional_delta(delta: Option<PeriodDelta>) -> Option<PeriodDeltaView> {
    match delta {
        Some(d) => Some(d@),
        None => None,
    }
}

fn put_comparison(doc: &mut Vec<Span>, delta: &Option<PeriodDelta>)
    ensures
        span_views(final(doc)@) == span_views(old(doc)@) + comparison(optional_delta(*delta)),
{
    assert(span_views(old(doc)@) + Seq::<SpanView>::empty() =~= span_views(old(doc)@));
    match delta {
        Some(d) => {
            let arrow = if num(ZERO).at_most(d.cost_change) {
                "↑".to_owned()
            } else {
                "↓".to_owned()
            };
            let text = arrow.concat(" $").concat(
                number(d.cost_change.abs(), 2, false).as_str(),
            ).concat(" (").concat(number(d.cost_change_pct, 0, true).as_str()).concat("%)");
            let style = if num(FIVE).less(d.cost_change) {
                Style::Red
            } else if d.cost_change.less(num(ONE).negated()) {
                Style::Green
            } else {
                Style::Dimmed
            };
            put_str(doc, Style::Plain, "\n  vs previous: ");
            put(doc, style, text);
            put(doc, Style::Plain, "  |  Driver: ".to_owned().concat(d.main_driver.as_str()));
            if num(FIVE).less(d.cache_rate_change_pp.abs()) {
                let direction = if num(ZERO).less(d.cache_rate_change_pp) {
                    "↑"
                } else {
                    "↓"
                };
                put(
                    doc,
                    Style::Plain,
                    "  |  Cache: ".to_owned().concat(direction).concat(
                        number(d.cache_rate_change_pp.abs(), 0, false).as_str(),
                    ).concat("pp"),
                );
            }
            assert(span_views(doc@) =~= span_views(old(doc)@) + comparison(Some(d@)));
        },
        None => {},
    }
}

/// The estimated savings of recommendations, added in order.
pub open spec fn savings(recs: Seq<RecommendationView>) -> Double
    decreases recs.len(),
{
    if recs.len() == 0 {
        Double { bits: SIGN_BIT }
    } else {
        let earlier = savings(recs.drop_last());
        match recs.last().estimated_savings {
            Some(s) => earlier.plus(s),
            None => earlier,
        }
    }
}

/// What could be saved in all, if it is more than half a dollar, and an empty line.
pub open spec fn avoidable(recs: Seq<RecommendationView>) -> Seq<SpanView> {
    if num(HALF).less(savings(recs)) {
        seq![
            span(Style::Plain, "  Estimated avoidable spend: "@),
            span(Style::Green, "~"@ + dollars_text(savings(recs)) + "/period"@),
            span(Style::Plain, "\n"@),
            span(Style::Plain, "\n"@),
        ]
    } else {
        seq![span(Style::Plain, "\n"@)]
    }
}

fn total_savings(recs: &Vec<Recommendation>) -> (sum: Double)
    ensures
        sum == savings(views(recs@)),
{
    let mut sum = Double { bits: SIGN_BIT };
    let mut i: usize = 0;
    let ghost all = views(recs@);
    while i < recs.len()
        invariant
            i <= recs@.len(),
            all == views(recs@),
            sum == savings(all.take(i as int)),
        decreases recs@.len() - i,
    {
        assert(all.take(i + 1).drop_last() =~= all.take(i as int));
        assert(all.take(i + 1).last() == recs@[i as int]@);
        match recs[i].estimated_savings {
            Some(s) => {
                sum = sum.plus(s);
            },
            None => {},
        }
        i = i + 1;
    }
    assert(all.take(i as int) =~= all);
    sum
}

fn put_avoidable(doc: &mut Vec<Span>, recs: &Vec<Recommendation>)
    ensures
        span_views(final(doc)@) == span_views(old(doc)@) + avoidable(views(recs@)),
{
    let total = total_savings(recs);
    if num(HALF).less(total) {
        put_str(doc, Style::Plain, "  Estimated avoidable spend: ");
        put(
            doc,
            Style::Green,
            "~".to_owned().concat(dollars(total).as_str()).concat("/period"),
        );
        put_str(doc, Style::Plain, "\n");
    }
    put_str(doc, Style::Plain, "\n");
    assert(span_views(doc@) =~= span_views(old(doc)@) + avoidable(views(recs@)));
}

pub open spec fn badge_style(severity: Level) -> Style {
    match severity {
        Level::High => Style::RedBold,
        Level::Medium => Style::YellowBold,
        Level::Low => Style::DimmedBold,
    }
}

pub open spec fn badge_text(severity: Level) -> Seq<char> {
    match severity {
        Level::High => "HIGH"@,
        Level::Medium => "MED"@,
        Level::Low => "LOW"@,
    }
}

pub open spec fn confidence_text(confidence: Level) -> Seq<char> {
    match confidence {
        Level::High => "●●●"@,
        Level::Medium => "●●○"@,
        Level::Low => "●○○"@,
    }
}

pub open spec fn evidence_spans(evidence: Seq<Seq<char>>) -> Seq<SpanView> {
    evidence.map_values(|line: Seq<char>| span(Style::Plain, "     • "@ + line + "\n"@))
}

/// What a recommendation would save, if it says so.
pub open spec fn savings_spans(savings: Option<Double>) -> Seq<SpanView> {
    match savings {
        Some(s) => seq![
            span(Style::Plain, "       Estimated savings: "@),
            span(Style::Green, "~"@ + dollars_text(s)),
            span(Style::Plain, "\n"@),
        ],
        None => Seq::empty(),
    }
}

/// A recommendation, as the `i`-th from zero.
pub open spec fn recommendation_spans(i: nat, r: RecommendationView) -> Seq<SpanView> {
    seq![
        span(Style::Plain, "  "@ + decimal(i + 1) + ". ["@),
        span(badge_style(r.severity), badge_text(r.severity)),
        span(Style::Plain, "] "@),
        span(Style::Bold, r.title),
        span(Style::Plain, "  "@),
        span(Style::Dimmed, confidence_text(r.confidence)),
        span(Style::Plain, "\n\n"@),
    ] + evidence_spans(r.evidence) + seq![
        span(Style::Plain, "\n     "@),
        span(Style::Green, "→"@),
        span(Style::Plain, " "@ + r.action + "\n"@),
    ] + savings_spans(r.estimated_savings) + seq![span(Style::Plain, "\n"@)]
}

fn put_recommendation(doc: &mut Vec<Span>, i: usize, r: &Recommendation)
    requires
        i < usize::MAX,
    ensures
        span_views(final(doc)@) == span_views(old(doc)@) + recommendation_spans(i as nat, r@),
{
    let ghost start = span_views(doc@);
    let badge = match r.severity {
        Level::High => "HIGH",
        Level::Medium => "MED",
        Level::Low => "LOW",
    };
    let style = match r.severity {
        Level::High => Style::RedBold,
        Level::Medium => Style::YellowBold,
        Level::Low => Style::DimmedBold,
    };
    let certainty = match r.confidence {
        Level::High => "●●●",
        Level::Medium => "●●○",
        Level::Low => "●○○",
    };
    put(doc, Style::Plain, "  ".to_owned().concat(count(i + 1).as_str()).concat(". ["));
    put_str(doc, style, badge);
    put_str(doc, Style::Plain, "] ");
    put(doc, Style::Bold, r.title.clone());
    put_str(doc, Style::Plain, "  ");
    put_str(doc, Style::Dimmed, certainty);
    put_str(doc, Style::Plain, "\n\n");
    let ghost title = seq![
        span(Style::Plain, "  "@ + decimal((i + 1) as nat) + ". ["@),
        span(badge_style(r.severity), badge_text(r.severity)),
        span(Style::Plain, "] "@),
        span(Style::Bold, r.title@),
        span(Style::Plain, "  "@),
        span(Style::Dimmed, confidence_text(r.confidence)),
        span(Style::Plain, "\n\n"@),
    ];
    assert(span_views(doc@) =~= start + title);
    let ghost lines = evidence_spans(texts(r.evidence@));
    let mut k: usize = 0;
    assert(span_views(doc@) =~= start + title + lines.take(0));
    while k < r.evidence.len()
        invariant
            k <= r.evidence@.len(),
            lines == evidence_spans(texts(r.evidence@)),
            span_views(doc@) == start + title + lines.take(k as int),
        decreases r.evidence@.len() - k,
    {
        let ghost so_far = span_views(doc@);
        put(
            doc,
            Style::Plain,
            "     • ".to_owned().concat(r.evidence[k].as_str()).concat("\n"),
        );
        proof {
            assert(lines[k as int] == span(
                Style::Plain,
                "     • "@ + r.evidence@[k as int]@ + "\n"@,
            ));
            assert(so_far.push(lines[k as int]) =~= start + title + lines.take(k + 1));
        }
        k = k + 1;
    }
    assert(lines.take(k as int) =~= lines);
    put_str(doc, Style::Plain, "\n     ");
    put_str(doc, Style::Green, "→");
    put(doc, Style::Plain, " ".to_owned().concat(r.action.as_str()).concat("\n"));
    match r.estimated_savings {
        Some(s) => {
            put_str(doc, Style::Plain, "       Estimated savings: ");
            put(doc, Style::Green, "~".to_owned().concat(dollars(s).as_str()));
            put_str(doc, Style::Plain, "\n");
        },
        None => {},
    }
    put_str(doc, Style::Plain, "\n");
    assert(span_views(doc@) =~= start + recommendation_spans(i as nat, r@));
}

/// Recommendations, one after the other.
pub open spec fn recommendations_spans(recs: Seq<RecommendationView>) -> Seq<SpanView>
    decreases recs.len(),
{
    if recs.len() == 0 {
        Seq::empty()
    } else {
        recommendations_spans(recs.drop_last()) + recommendation_spans(
            (recs.len() - 1) as nat,
            recs.last(),
        )
    }
}

/// The first five recommendations under their title.
pub open spec fn top_recommendations(recs: Seq<RecommendationView>) -> Seq<SpanView> {
    seq![
        span(Style::Plain, "  "@),
        span(Style::BoldUnderline, "Recommendations"@),
        span(Style::Plain, "\n\n"@),
    ] + recommendations_spans(recs.take(if recs.len() < 5 { recs.len() as int } else { 5 }))
}

/// No more than the first five recommendations are shown.
pub proof fn lemma_five_shown(recs: Seq<RecommendationView>)
    requires
        recs.len() > 5,
    ensures
        top_recommendations(recs) == top_recommendations(recs.take(5)),
{
    assert(recs.take(5).take(5) =~= recs.take(5));
}

fn put_recommendations(doc: &mut Vec<Span>, recs: &Vec<Recommendation>)
    ensures
        span_views(final(doc)@) == span_views(old(doc)@) + top_recommendations(views(recs@)),
{
    let ghost start = span_views(doc@);
    let ghost title = seq![
        span(Style::Plain, "  "@),
        span(Style::BoldUnderline, "Recommendations"@),
        span(Style::Plain, "\n\n"@),
    ];
    put_str(doc, Style::Plain, "  ");
    put_str(doc, Style::BoldUnderline, "Recommendations");
    put_str(doc, Style::Plain, "\n\n");
    let ghost all = views(recs@);
    let mut i: usize = 0;
    assert(span_views(doc@) =~= start + title + recommendations_spans(all.take(0)));
    while i < recs.len() && i < 5
        invariant
            i <= recs@.len(),
            i <= 5,
            all == views(recs@),
            span_views(doc@) == start + title + recommendations_spans(all.take(i as int)),
        decreases recs@.len() - i,
    {
        let ghost so_far = recommendations_spans(all.take(i as int));
        let ghost own = recommendation_spans(i as nat, recs@[i as int]@);
        put_recommendation(doc, i, &recs[i]);
        proof {
            assert(all.take(i + 1).drop_last() =~= all.take(i as int));
            assert(all.take(i + 1).last() == recs@[i as int]@);
            assert(start + title + so_far + own =~= start + title + (so_far + own));
        }
        i = i + 1;
    }
    assert(span_views(doc@) =~= start + top_recommendations(all));
}

/// One row of the table of changes.
pub open spec fn row_text(
    name: Seq<char>,
    current: Seq<char>,
    previous: Seq<char>,
    change: Seq<char>,
) -> Seq<char> {
    "  "@ + right_aligned(name, 20) + " "@ + right_aligned(current, 10) + " "@ + right_aligned(
        previous,
        10,
    ) + " "@ + right_aligned(change, 10) + "\n"@
}

fn row(name: &str, current: &str, previous: &str, change: &str) -> (s: String)
    ensures
        s@ == row_text(name@, current@, previous@, change@),
{
    "  ".to_owned().concat(align_right(name, 20).as_str()).concat(" ").concat(
        align_right(current, 10).as_str(),
    ).concat(" ").concat(align_right(previous, 10).as_str()).concat(" ").concat(
        align_right(change, 10).as_str(),
    ).concat("\n")
}

/// The row of the model with the highest cost, if there is one.
pub open spec fn top_model_row(current: PeriodSummaryView) -> Seq<SpanView> {
    match current.top_model {
        Some(m) => seq![
            span(
                Style::Plain,
                "  "@ + right_aligned("Top model"@, 20) + " "@ + right_aligned(
                    m + " ("@ + percent_text(current.top_model_share) + ")"@,
                    10,
                ) + "\n"@,
            ),
        ],
        None => Seq::empty(),
    }
}

/// The title and the head of the table of changes.
pub open spec fn table_head() -> Seq<SpanView> {
    seq![
        span(Style::Plain, "  "@),
        span(Style::BoldUnderline, "What Changed"@),
        span(Style::Plain, "\n"@),
        span(Style::Plain, row_text(""@, "Current"@, "Previous"@, "Δ"@)),
        span(Style::Plain, "  "@ + repeated("─"@, 52) + "\n"@),
    ]
}

fn put_table_head(doc: &mut Vec<Span>)
    ensures
        span_views(final(doc)@) == span_views(old(doc)@) + table_head(),
{
    put_str(doc, Style::Plain, "  ");
    put_str(doc, Style::BoldUnderline, "What Changed");
    put_str(doc, Style::Plain, "\n");
    put(doc, Style::Plain, row("", "Current", "Previous", "Δ"));
    put(doc, Style::Plain, "  ".to_owned().concat(repeat("─", 52).as_str()).concat("\n"));
    assert(span_views(doc@) =~= span_views(old(doc)@) + table_head());
}

pub open spec fn cost_row(
    current: PeriodSummaryView,
    previous: PeriodSummaryView,
    delta: PeriodDeltaView,
) -> Seq<char> {
    row_text(
        "Cost"@,
        dollars_text(current.total_cost),
        dollars_text(previous.total_cost),
        number_text(delta.cost_change, 2, true),
    )
}

pub open spec fn sessions_row(
    current: PeriodSummaryView,
    previous: PeriodSummaryView,
    delta: PeriodDeltaView,
) -> Seq<char> {
    row_text(
        "Sessions"@,
        decimal(current.sessions),
        decimal(previous.sessions),
        integer_text(delta.sessions_change, true),
    )
}

pub open spec fn cache_row(
    current: PeriodSummaryView,
    previous: PeriodSummaryView,
    delta: PeriodDeltaView,
) -> Seq<char> {
    row_text(
        "Cache reuse"@,
        percent_text(current.cache_reuse_rate),
        percent_text(previous.cache_reuse_rate),
        number_text(delta.cache_rate_change_pp, 0, true) + "pp"@,
    )
}

pub open spec fn average_row(
    current: PeriodSummaryView,
    previous: PeriodSummaryView,
) -> Seq<char> {
    row_text(
        "Avg cost/session"@,
        dollars_text(current.avg_cost_per_session),
        dollars_text(previous.avg_cost_per_session),
        number_text(
            current.avg_cost_per_session.minus(previous.avg_cost_per_session),
            2,
            true,
        ),
    )
}

/// The rows that compare figures.
pub open spec fn table_rows(
    current: PeriodSummaryView,
    previous: PeriodSummaryView,
    delta: PeriodDeltaView,
) -> Seq<SpanView> {
    seq![
        span(Style::Plain, cost_row(current, previous, delta)),
        span(Style::Plain, sessions_row(current, previous, delta)),
        span(Style::Plain, cache_row(current, previous, delta)),
        span(Style::Plain, average_row(current, previous)),
    ]
}

fn put_table_rows(
    doc: &mut Vec<Span>,
    current: &PeriodSummary,
    previous: &PeriodSummary,
    delta: &PeriodDelta,
)
    ensures
        span_views(final(doc)@) == span_views(old(doc)@) + table_rows(current@, previous@, delta@),
{
    let cost = row(
        "Cost",
        dollars(current.total_cost).as_str(),
        dollars(previous.total_cost).as_str(),
        number(delta.cost_change, 2, true).as_str(),
    );
    let sessions = row(
        "Sessions",
        count(current.sessions).as_str(),
        count(previous.sessions).as_str(),
        integer(delta.sessions_change, true).as_str(),
    );
    let cache = row(
        "Cache reuse",
        percent(current.cache_reuse_rate).as_str(),
        percent(previous.cache_reuse_rate).as_str(),
        number(delta.cache_rate_change_pp, 0, true).concat("pp").as_str(),
    );
    let average = row(
        "Avg cost/session",
        dollars(current.avg_cost_per_session).as_str(),
        dollars(previous.avg_cost_per_session).as_str(),
        number(
            current.avg_cost_per_session.minus(previous.avg_cost_per_session),
            2,
            true,
        ).as_str(),
    );
    put(doc, Style::Plain, cost);
    put(doc, Style::Plain, sessions);
    put(doc, Style::Plain, cache);
    put(doc, Style::Plain, average);
    assert(span_views(doc@) =~= span_views(old(doc)@) + table_rows(current@, previous@, delta@));
}

fn put_top_model_row(doc: &mut Vec<Span>, current: &PeriodSummary)
    ensures
        span_views(final(doc)@) == span_views(old(doc)@) + top_model_row(current@),
{
    match &current.top_model {
        Some(m) => {
            let share = m.clone().concat(" (").concat(
                percent(current.top_model_share).as_str(),
            ).concat(")");
            put(
                doc,
                Style::Plain,
                "  ".to_owned().concat(align_right("Top model", 20).as_str()).concat(" ").concat(
                    align_right(share.as_str(), 10).as_str(),
                ).concat("\n"),
            );
        },
        None => {},
    }
    assert(span_views(doc@) =~= span_views(old(doc)@) + top_model_row(current@));
}

/// The table of changes.
pub open spec fn change_table(
    current: PeriodSummaryView,
    previous: PeriodSummaryView,
    delta: PeriodDeltaView,
) -> Seq<SpanView> {
    table_head() + table_rows(current, previous, delta) + top_model_row(current) + seq![
        span(Style::Plain, "\n"@),
    ]
}

fn put_change_table(
    doc: &mut Vec<Span>,
    current: &PeriodSummary,
    previous: &PeriodSummary,
    delta: &PeriodDelta,
)
    ensures
        span_views(final(doc)@) == span_views(old(doc)@) + change_table(
            current@,
            previous@,
            delta@,
        ),
{
    let ghost start = span_views(doc@);
    put_table_head(doc);
    put_table_rows(doc, current, previous, delta);
    put_top_model_row(doc, current);
    put_str(doc, Style::Plain, "\n");
    assert(span_views(doc@) =~= start + change_table(current@, previous@, delta@));
}

/// The note that there is nothing to recommend.
pub open spec fn all_clear() -> Seq<SpanView> {
    seq![
        span(Style::Plain, "  "@),
        span(Style::Green, "✓"@),
        span(Style::Plain, " No issues detected. Usage looks efficient.\n\n"@),
    ]
}

/// The table of changes, if there is a period to compare with.
pub open spec fn optional_table(report: AdvisorReportView) -> Seq<SpanView> {
    match (report.deltas, report.previous_period) {
        (Some(d), Some(p)) => change_table(report.current_period, p, d),
        _ => Seq::empty(),
    }
}

/// A report as styled text. Where there is nothing to recommend, it ends with a note of that.
pub open spec fn rendered(report: AdvisorReportView) -> Seq<SpanView> {
    let top = heading(report.current_period) + comparison(report.deltas) + seq![
        span(Style::Plain, "\n"@),
    ] + avoidable(report.recommendations);
    if report.recommendations.len() == 0 {
        top + all_clear()
    } else {
        top + top_recommendations(report.recommendations) + optional_table(report)
    }
}

/// Renders a report.
pub fn render_advisor_report(report: &AdvisorReport) -> (doc: Vec<Span>)
    ensures
        span_views(doc@) == rendered(report@),
{
    let mut doc: Vec<Span> = Vec::new();
    let ghost view = report@;
    put_heading(&mut doc, &report.current_period);
    assert(span_views(doc@) =~= heading(view.current_period));
    put_comparison(&mut doc, &report.deltas);
    put_str(&mut doc, Style::Plain, "\n");
    assert(span_views(doc@) =~= heading(view.current_period) + comparison(view.deltas) + seq![
        span(Style::Plain, "\n"@),
    ]);
    put_avoidable(&mut doc, &report.recommendations);
    assert(view.recommendations.len() == report.recommendations@.len());
    let ghost top = span_views(doc@);
    if report.recommendations.len() == 0 {
        put_str(&mut doc, Style::Plain, "  ");
        put_str(&mut doc, Style::Green, "✓");
        put_str(&mut doc, Style::Plain, " No issues detected. Usage looks efficient.\n\n");
        assert(span_views(doc@) =~= top + all_clear());
        return doc;
    }
    put_recommendations(&mut doc, &report.recommendations);
    match (&report.deltas, &report.previous_period) {
        (Some(d), Some(p)) => {
            put_change_table(&mut doc, &report.current_period, p, d);
        },
        _ => {
            assert(span_views(doc@) + Seq::<SpanView>::empty() =~= span_views(doc@));
        },
    }
    doc
}

/// A change of whole dollars is red exactly if it is a rise of more than $5, green exactly if it is a
/// fall of more than $1, and dimmed else.
pub proof fn lemma_whole_change_style(change: int)
    requires
        -SIGNIFICAND_LIMIT < change < SIGNIFICAND_LIMIT,
    ensures
        change > 5 ==> change_style(of_int(change)) == Style::Red,
        change < -1 ==> change_style(of_int(change)) == Style::Green,
        -1 <= change <= 5 ==> change_style(of_int(change)) == Style::Dimmed,
{
    let one = pow2(ONE_EXPONENT as nat);
    lemma_pow2_pos(ONE_EXPONENT as nat);
    lemma_whole_limits();
    lemma_integer_exact(1);
    lemma_integer_exact(5);
    lemma_integer_exact(change);
    lemma_integer_exact(-1);
    assert(num(ONE).negated().value() == -num(ONE).value());
    assert((-1) * one == -(1 * one)) by (nonlinear_arith);
    assert((change < -1 <==> change * one < (-1) * one) && (change > 5 <==> change * one > 5 * one))
        by (nonlinear_arith)
        requires
            one > 0,
    ;
}

/// The comparison is red exactly if the cost rose by more than $5, green exactly if it fell by more
/// than $1. It has an arrow up exactly if the cost did not fall, and the size of the change. The
/// change of the cache rate follows exactly if it is more than five points, with an arrow up exactly
/// if the rate rose.
pub proof fn lemma_comparison_shown(d: PeriodDeltaView)
    ensures
        ({
            let shown = comparison(Some(d));
            let (change, rate) = (d.cost_change, d.cache_rate_change_pp);
            &&& shown[1].style == Style::Red <==> num(FIVE).less(change)
            &&& shown[1].style == Style::Green <==> !num(FIVE).less(change) && change.less(
                num(ONE).negated(),
            )
            &&& num(ZERO).at_most(change) ==> shown[1].text == "↑ $"@ + number_text(
                change.abs(),
                2,
                false,
            ) + " ("@ + number_text(d.cost_change_pct, 0, true) + "%)"@
            &&& !num(ZERO).at_most(change) ==> shown[1].text == "↓ $"@ + number_text(
                change.abs(),
                2,
                false,
            ) + " ("@ + number_text(d.cost_change_pct, 0, true) + "%)"@
            &&& shown[2].text == "  |  Driver: "@ + d.main_driver
            &&& shown.len() == (if num(FIVE).less(rate.abs()) {
                4nat
            } else {
                3nat
            })
            &&& num(FIVE).less(rate.abs()) && num(ZERO).less(rate) ==> shown[3].text
                == "  |  Cache: ↑"@ + number_text(rate.abs(), 0, false) + "pp"@
            &&& num(FIVE).less(rate.abs()) && !num(ZERO).less(rate) ==> shown[3].text
                == "  |  Cache: ↓"@ + number_text(rate.abs(), 0, false) + "pp"@
            &&& comparison(None).len() == 0
        }),
{
    reveal_strlit("↑ $");
    reveal_strlit("↓ $");
    reveal_strlit("↑");
    reveal_strlit("↓");
    reveal_strlit(" $");
    reveal_strlit("  |  Cache: ");
    reveal_strlit("  |  Cache: ↑");
    reveal_strlit("  |  Cache: ↓");
    assert("↑"@ + " $"@ =~= "↑ $"@);
    assert("↓"@ + " $"@ =~= "↓ $"@);
    assert("  |  Cache: "@ + "↑"@ =~= "  |  Cache: ↑"@);
    assert("  |  Cache: "@ + "↓"@ =~= "  |  Cache: ↓"@);
}

/// What recommendations would save in all: each estimate adds to the sum of the earlier ones, and
/// one without an estimate adds nothing.
pub proof fn lemma_savings_add(recs: Seq<RecommendationView>, r: RecommendationView)
    ensures
        r.estimated_savings matches Some(s) ==> savings(recs.push(r)) == savings(recs).plus(s),
        r.estimated_savings is None ==> savings(recs.push(r)) == savings(recs),
        savings(Seq::empty()).value() == 0,
        !savings(Seq::empty()).is_nan(),
{
    lemma_no_units(0);
    assert(recs.push(r).drop_last() =~= recs);
}

/// The avoidable spend is shown exactly if it is more than half a dollar.
pub proof fn lemma_avoidable_shown(recs: Seq<RecommendationView>)
    ensures
        num(HALF).less(savings(recs)) ==> avoidable(recs).len() == 4 && avoidable(recs)[1].text
            == "~$"@ + number_text(savings(recs), 2, false) + "/period"@,
        !num(HALF).less(savings(recs)) ==> avoidable(recs).len() == 1,
{
    reveal_strlit("~");
    reveal_strlit("$");
    reveal_strlit("~$");
    let figure = number_text(savings(recs), 2, false);
    assert("~"@ + ("$"@ + figure) + "/period"@ =~= "~$"@ + figure + "/period"@);
}

/// A recommendation is shown with its number, counted from one; severity, title and confidence; each
/// piece of evidence in order; what to do; and what it would save, if it says so.
pub proof fn lemma_recommendation_shown(i: nat, r: RecommendationView)
    ensures
        ({
            let shown = recommendation_spans(i, r);
            let n = r.evidence.len() as int;
            &&& shown.len() == (if r.estimated_savings is Some {
                14 + n
            } else {
                11 + n
            })
            &&& shown[0].text == "  "@ + decimal(i + 1) + ". ["@
            &&& r.severity == Level::High ==> shown[1] == span(Style::RedBold, "HIGH"@)
            &&& r.severity == Level::Medium ==> shown[1] == span(Style::YellowBold, "MED"@)
            &&& r.severity == Level::Low ==> shown[1] == span(Style::DimmedBold, "LOW"@)
            &&& shown[3] == span(Style::Bold, r.title)
            &&& r.confidence == Level::High ==> shown[5].text == "●●●"@
            &&& r.confidence == Level::Medium ==> shown[5].text == "●●○"@
            &&& r.confidence == Level::Low ==> shown[5].text == "●○○"@
            &&& forall|k: int|
                0 <= k < n ==> (#[trigger] shown[7 + k]).text == "     • "@ + r.evidence[k] + "\n"@
            &&& shown[9 + n].text == " "@ + r.action + "\n"@
            &&& (r.estimated_savings matches Some(s) ==> shown[11 + n].text == "~$"@ + number_text(
                s,
                2,
                false,
            ))
        }),
{
    reveal_strlit("~");
    reveal_strlit("$");
    reveal_strlit("~$");
    match r.estimated_savings {
        Some(s) => {
            let figure = number_text(s, 2, false);
            assert("~"@ + ("$"@ + figure) =~= "~$"@ + figure);
        },
        None => {},
    }
}

/// The rows of the table of changes: what is compared, the current figure, the previous one and the
/// change from the previous to the current one.
pub proof fn lemma_table_shown(
    current: PeriodSummaryView,
    previous: PeriodSummaryView,
    delta: PeriodDeltaView,
)
    ensures
        ({
            let rows = table_rows(current, previous, delta);
            let cents = |x: Double| "$"@ + number_text(x, 2, false);
            let points = |x: Double| number_text(x.times(num(HUNDRED)), 0, false) + "%"@;
            &&& rows.len() == 4
            &&& rows[0].text == row_text(
                "Cost"@,
                cents(current.total_cost),
                cents(previous.total_cost),
                number_text(delta.cost_change, 2, true),
            )
            &&& rows[1].text == row_text(
                "Sessions"@,
                decimal(current.sessions),
                decimal(previous.sessions),
                integer_text(delta.sessions_change, true),
            )
            &&& rows[2].text == row_text(
                "Cache reuse"@,
                points(current.cache_reuse_rate),
                points(previous.cache_reuse_rate),
                number_text(delta.cache_rate_change_pp, 0, true) + "pp"@,
            )
            &&& rows[3].text == row_text(
                "Avg cost/session"@,
                cents(current.avg_cost_per_session),
                cents(previous.avg_cost_per_session),
                number_text(
                    current.avg_cost_per_session.minus(previous.avg_cost_per_session),
                    2,
                    true,
                ),
            )
            &&& (current.top_model matches Some(m) ==> top_model_row(current).len() == 1
                && top_model_row(current)[0].text == "  "@ + right_aligned("Top model"@, 20) + " "@
                + right_aligned(m + " ("@ + points(current.top_model_share) + ")"@, 10) + "\n"@)
            &&& current.top_model is None ==> top_model_row(current).len() == 0
        }),
{
}

/// Rows have columns of 20, 10, 10 and 10 characters where the cells are no longer.
pub proof fn lemma_columns(
    name: Seq<char>,
    current: Seq<char>,
    previous: Seq<char>,
    change: Seq<char>,
)
    requires
        name.len() <= 20,
        current.len() <= 10,
        previous.len() <= 10,
        change.len() <= 10,
    ensures
        ({
            let row = row_text(name, current, previous, change);
            &&& row.len() == 56
            &&& row.subrange(22 - name.len(), 22) == name
            &&& row.subrange(33 - current.len(), 33) == current
            &&& row.subrange(44 - previous.len(), 44) == previous
            &&& row.subrange(55 - change.len(), 55) == change
        }),
{
    reveal_strlit("  ");
    reveal_strlit(" ");
    reveal_strlit("\n");
    lemma_aligned(name, 20);
    lemma_aligned(current, 10);
    lemma_aligned(previous, 10);
    lemma_aligned(change, 10);
    let row = row_text(name, current, previous, change);
    let (a, b) = (right_aligned(name, 20), right_aligned(current, 10));
    let (c, d) = (right_aligned(previous, 10), right_aligned(change, 10));
    assert(row.subrange(2, 22) =~= a);
    assert(row.subrange(23, 33) =~= b);
    assert(row.subrange(34, 44) =~= c);
    assert(row.subrange(45, 55) =~= d);
    assert(row.subrange(22 - name.len(), 22) =~= a.subrange(20 - name.len(), 20));
    assert(row.subrange(33 - current.len(), 33) =~= b.subrange(10 - current.len(), 10));
    assert(row.subrange(44 - previous.len(), 44) =~= c.subrange(10 - previous.len(), 10));
    assert(row.subrange(55 - change.len(), 55) =~= d.subrange(10 - change.len(), 10));
}

/// The heading gives the spend, the number of sessions and the cache reuse in percent.
pub proof fn lemma_heading_shown(current: PeriodSummaryView)
    ensures
        ({
            let shown = heading(current);
            &&& shown[3] == span(Style::Yellow, "$"@ + number_text(current.total_cost, 2, false))
            &&& shown[5] == span(Style::Cyan, decimal(current.sessions))
            &&& shown[6].text == "  |  Cache reuse: "@ + (number_text(
                current.cache_reuse_rate.times(num(HUNDRED)),
                0,
                false,
            ) + "%"@)
        }),
{
}

/// The first recommendations are shown in their order, each behind those before it; and there are
/// no more than five.
pub proof fn lemma_recommendations_shown(recs: Seq<RecommendationView>, r: RecommendationView)
    ensures
        recs.len() < 5 ==> top_recommendations(recs.push(r)) == top_recommendations(recs)
            + recommendation_spans(recs.len(), r),
        recs.len() >= 5 ==> top_recommendations(recs.push(r)) == top_recommendations(recs),
        top_recommendations(Seq::empty()).len() == 3,
{
    let more = recs.push(r);
    if recs.len() < 5 {
        assert(more.take(more.len() as int) =~= more);
        assert(recs.take(recs.len() as int) =~= recs);
        assert(more.drop_last() =~= recs);
        assert(top_recommendations(more) =~= top_recommendations(recs) + recommendation_spans(
            recs.len(),
            r,
        ));
    } else {
        assert(more.take(5) =~= recs.take(5));
    }
    assert(Seq::<RecommendationView>::empty().take(0) =~= Seq::empty());
}

/// A report without recommendations ends with the note that there are none. One with recommendations
/// shows them, and then the table of changes exactly if there is a period to compare with.
pub proof fn lemma_report_shown(report: AdvisorReportView)
    ensures
        ({
            let top = heading(report.current_period) + comparison(report.deltas) + seq![
                span(Style::Plain, "\n"@),
            ] + avoidable(report.recommendations);
            let recs = report.recommendations;
            &&& recs.len() == 0 ==> rendered(report) == top + seq![
                span(Style::Plain, "  "@),
                span(Style::Green, "✓"@),
                span(Style::Plain, " No issues detected. Usage looks efficient.\n\n"@),
            ]
            &&& recs.len() > 0 && report.deltas is Some && report.previous_period is Some
                ==> rendered(report) == top + top_recommendations(recs) + change_table(
                report.current_period,
                report.previous_period->0,
                report.deltas->0,
            )
            &&& recs.len() > 0 && (report.deltas is None || report.previous_period is None)
                ==> rendered(report) == top + top_recommendations(recs)
        }),
{
    let top = heading(report.current_period) + comparison(report.deltas) + seq![
        span(Style::Plain, "\n"@),
    ] + avoidable(report.recommendations);
    assert(top + top_recommendations(report.recommendations) + Seq::<SpanView>::empty() =~= top
        + top_recommendations(report.recommendations));
}

} // verus!
