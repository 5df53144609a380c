//! The summary report: one row per run of each case, then the aggregates.
use vstd::prelude::*;
use vstd::std_specs::iter::IteratorSpec;
use crate::evaluation::{
    CaseResult, Evaluation, RunResult, Status, FORMAT_VERSION, Strategy, World, percentile_of,
    never_routed_expired_keys, counts_consistent,
};
use crate::evaluation::aggregate::{Aggregate, aggregate_ready, aggregated, all_fit, total_overflow, all_complete};
use crate::evaluation::report::same_cohorts;
use crate::evaluation::csv::{csv_line, csv_text, lemma_csv_text_append, push_row, status_name, status_text, bool_name, bool_text, optional_cell, optional_text};
use crate::evaluation::report::{CaseKey, Ratio};
use crate::network::texts;
use crate::scalable::SearchDiagnostics;
use crate::simulation::{Metrics, SimulationError};
use crate::simulation::disruption::AdaptationMetrics;
use crate::text::{decimal, decimal_text, copy_string, text, same_text};
use crate::evaluation::configs::{describe_scenario, describe_strategy, scenario_text, strategy_text};

verus! {

/// The summary report's column names.
pub open spec fn summary_header() -> Seq<Seq<char>> {
    seq![
        "record"@,
        "version"@,
        "world"@,
        "seed"@,
        "strategy"@,
        "status"@,
        "arrival_minutes"@,
        "drain_minutes"@,
        "replay_verified"@,
        "processed_minutes"@,
        "offered"@,
        "offered_volume_cents"@,
        "matched_cases"@,
        "total_cases"@,
        "error_cases"@,
        "censored_cases"@,
        "wins"@,
        "tied_best"@,
        "on_time"@,
        "on_time_volume_cents"@,
        "pending"@,
        "pending_volume_cents"@,
        "never_routed_expired"@,
        "elapsed_p95"@,
        "elapsed_max"@,
        "peak_active"@,
        "peak_queue"@,
        "queue_payment_minutes"@,
        "cutoff_completed"@,
        "worst_world"@,
        "worst_seed"@,
        "worst_loss_numerator"@,
        "worst_loss_denominator"@,
        "p95_loss_numerator"@,
        "p95_loss_denominator"@,
        "generated"@,
        "generated_volume_cents"@,
        "accepted_routes"@,
        "rejected"@,
        "rejected_volume_cents"@,
        "expired"@,
        "expired_volume_cents"@,
        "completed"@,
        "completed_volume_cents"@,
        "completed_late"@,
        "completed_late_volume_cents"@,
        "sla_failures"@,
        "sla_failed_volume_cents"@,
        "routing_cost_cents"@,
        "completed_elapsed_minutes"@,
        "departed_hops"@,
        "settled_hops"@,
        "departed_principal_cents"@,
        "settled_principal_cents"@,
        "rail_changes"@,
        "reoptimizations"@,
        "assignment_comparisons"@,
        "changed_assignments"@,
        "changed_routes"@,
        "retimed_only"@,
        "withdrawn"@,
        "searches"@,
        "expansions"@,
        "candidates"@,
        "truncated_searches"@,
        "unresolved_search_attempts"@,
        "repair_trials"@,
        "error"@,
        "strategy_config"@,
        "world_config"@,
        "shortfall_world"@,
        "shortfall_seed"@,
        "shortfall_numerator"@,
        "shortfall_denominator"@
    ]
}

/// The summed figures as decimal cells.
pub open spec fn figure_texts(m: Metrics, a: AdaptationMetrics, d: SearchDiagnostics) -> Seq<Seq<char>> {
    seq![
        decimal(m.generated as nat),
        decimal(m.generated_volume_cents as nat),
        decimal(m.accepted_routes as nat),
        decimal(m.rejected as nat),
        decimal(m.rejected_volume_cents as nat),
        decimal(m.expired as nat),
        decimal(m.expired_volume_cents as nat),
        decimal(m.completed as nat),
        decimal(m.completed_volume_cents as nat),
        decimal(m.completed_late as nat),
        decimal(m.completed_late_volume_cents as nat),
        decimal(m.sla_failures as nat),
        decimal(m.sla_failed_volume_cents as nat),
        decimal(m.routing_cost_cents as nat),
        decimal(m.completed_elapsed_minutes as nat),
        decimal(m.departed_hops as nat),
        decimal(m.settled_hops as nat),
        decimal(m.departed_principal_cents as nat),
        decimal(m.settled_principal_cents as nat),
        decimal(a.rail_changes as nat),
        decimal(a.reoptimizations as nat),
        decimal(a.assignment_comparisons as nat),
        decimal(a.changed_assignments as nat),
        decimal(a.changed_routes as nat),
        decimal(a.retimed_only as nat),
        decimal(a.withdrawn as nat),
        decimal(d.searches as nat),
        decimal(d.expansions as nat),
        decimal(d.candidates as nat),
        decimal(d.truncated_searches as nat),
        decimal(d.unresolved as nat),
        decimal(d.repair_trials as nat)
    ]
}

/// The error of a failed run, with the minute it failed at.
pub open spec fn error_text(s: Status) -> Seq<char> {
    match s {
        Status::Error { minute, message } => "minute="@ + decimal(minute as nat) + ": "@ + message@,
        _ => Seq::empty(),
    }
}

pub open spec fn blanks(n: nat) -> Seq<Seq<char>> {
    Seq::new(n, |k: int| Seq::<char>::empty())
}

/// The row of one run of a case; the two configuration cells are given.
pub open spec fn case_summary_row(
    ev: Evaluation,
    c: CaseResult,
    r: RunResult,
    strategy_config: Seq<char>,
    world_config: Seq<char>,
) -> Seq<Seq<char>> {
    let m = r.metrics;
    seq![
        "case"@,
        decimal(FORMAT_VERSION as nat),
        c.world@,
        decimal(c.seed as nat),
        r.strategy@,
        status_text(r.status),
        decimal(ev.config.arrival_minutes as nat),
        decimal(ev.config.drain_minutes as nat),
        bool_text(r.replay_verified),
        decimal(r.processed_minutes as nat),
        decimal(c.offered as nat),
        decimal(c.offered_volume_cents as nat),
    ] + blanks(6) + seq![
        decimal((m.completed - m.completed_late) as nat),
        decimal((m.completed_volume_cents - m.completed_late_volume_cents) as nat),
        decimal((m.generated - m.completed - m.expired - m.rejected) as nat),
        decimal((m.generated_volume_cents - m.completed_volume_cents - m.expired_volume_cents
            - m.rejected_volume_cents) as nat),
        decimal(never_routed_expired_keys(r.payments@).len()),
        optional_text(percentile_of(r.payments@, 95)),
        optional_text(percentile_of(r.payments@, 100)),
        decimal(r.peak_active as nat),
        decimal(r.peak_queue as nat),
        decimal(r.queue_payment_minutes as nat),
        decimal(r.at_arrival_cutoff.completed as nat),
    ] + blanks(6) + figure_texts(m, r.adaptation, r.diagnostics) + seq![
        error_text(r.status),
        strategy_config,
        world_config,
    ] + blanks(4)
}

pub open spec fn key_world(k: Option<CaseKey>) -> Seq<char> {
    match k {
        Some(key) => key.world@,
        None => Seq::empty(),
    }
}

pub open spec fn key_seed(k: Option<CaseKey>) -> Seq<char> {
    match k {
        Some(key) => decimal(key.seed as nat),
        None => Seq::empty(),
    }
}

pub open spec fn numerator_text(r: Option<Ratio>) -> Seq<char> {
    match r {
        Some(x) => decimal(x.numerator as nat),
        None => Seq::empty(),
    }
}

pub open spec fn denominator_text(r: Option<Ratio>) -> Seq<char> {
    match r {
        Some(x) => decimal(x.denominator as nat),
        None => Seq::empty(),
    }
}

/// The row of one aggregate; the empty world names the overall aggregates.
pub open spec fn aggregate_summary_row(
    ev: Evaluation,
    world: Seq<char>,
    g: Aggregate,
    strategy_config: Seq<char>,
) -> Seq<Seq<char>> {
    let m = g.metrics;
    seq![
        if world.len() == 0 { "aggregate"@ } else { "world-aggregate"@ },
        decimal(FORMAT_VERSION as nat),
        world,
        Seq::empty(),
        g.strategy@,
        if g.matched_cases == g.total_cases { "complete"@ } else { "partial"@ },
        decimal(ev.config.arrival_minutes as nat),
        decimal(ev.config.drain_minutes as nat),
        bool_text(g.replay_verified),
        Seq::empty(),
        decimal(m.generated as nat),
        decimal(m.generated_volume_cents as nat),
        decimal(g.matched_cases as nat),
        decimal(g.total_cases as nat),
        decimal(g.error_cases as nat),
        decimal(g.censored_cases as nat),
        decimal(g.wins as nat),
        decimal(g.tied_best as nat),
        decimal((m.completed - m.completed_late) as nat),
        decimal((m.completed_volume_cents - m.completed_late_volume_cents) as nat),
        "0"@,
        "0"@,
        decimal(g.never_routed_expired as nat),
        Seq::empty(),
        Seq::empty(),
        decimal(g.peak_active as nat),
        decimal(g.peak_queue as nat),
        decimal(g.queue_payment_minutes as nat),
        Seq::empty(),
        key_world(g.worst_case),
        key_seed(g.worst_case),
        numerator_text(g.worst_not_on_time),
        denominator_text(g.worst_not_on_time),
        numerator_text(g.p95_not_on_time),
        denominator_text(g.p95_not_on_time),
    ] + figure_texts(m, g.adaptation, g.diagnostics) + seq![
        Seq::empty(),
        strategy_config,
        Seq::empty(),
        key_world(g.worst_shortfall_case),
        key_seed(g.worst_shortfall_case),
        numerator_text(g.worst_service_shortfall),
        denominator_text(g.worst_service_shortfall),
    ]
}

fn header_cells() -> (row: Vec<String>)
    ensures
        texts(row@) == summary_header(),
{
    let mut row: Vec<String> = Vec::new();
    row.push(text("record"));
    row.push(text("version"));
    row.push(text("world"));
    row.push(text("seed"));
    row.push(text("strategy"));
    row.push(text("status"));
    row.push(text("arrival_minutes"));
    row.push(text("drain_minutes"));
    row.push(text("replay_verified"));
    row.push(text("processed_minutes"));
    row.push(text("offered"));
    row.push(text("offered_volume_cents"));
    row.push(text("matched_cases"));
    row.push(text("total_cases"));
    row.push(text("error_cases"));
    row.push(text("censored_cases"));
    row.push(text("wins"));
    row.push(text("tied_best"));
    row.push(text("on_time"));
    row.push(text("on_time_volume_cents"));
    row.push(text("pending"));
    row.push(text("pending_volume_cents"));
    row.push(text("never_routed_expired"));
    row.push(text("elapsed_p95"));
    row.push(text("elapsed_max"));
    row.push(text("peak_active"));
    row.push(text("peak_queue"));
    row.push(text("queue_payment_minutes"));
    row.push(text("cutoff_completed"));
    row.push(text("worst_world"));
    row.push(text("worst_seed"));
    row.push(text("worst_loss_numerator"));
    row.push(text("worst_loss_denominator"));
    row.push(text("p95_loss_numerator"));
    row.push(text("p95_loss_denominator"));
    row.push(text("generated"));
    row.push(text("generated_volume_cents"));
    row.push(text("accepted_routes"));
    row.push(text("rejected"));
    row.push(text("rejected_volume_cents"));
    row.push(text("expired"));
    row.push(text("expired_volume_cents"));
    row.push(text("completed"));
    row.push(text("completed_volume_cents"));
    row.push(text("completed_late"));
    row.push(text("completed_late_volume_cents"));
    row.push(text("sla_failures"));
    row.push(text("sla_failed_volume_cents"));
    row.push(text("routing_cost_cents"));
    row.push(text("completed_elapsed_minutes"));
    row.push(text("departed_hops"));
    row.push(text("settled_hops"));
    row.push(text("departed_principal_cents"));
    row.push(text("settled_principal_cents"));
    row.push(text("rail_changes"));
    row.push(text("reoptimizations"));
    row.push(text("assignment_comparisons"));
    row.push(text("changed_assignments"));
    row.push(text("changed_routes"));
    row.push(text("retimed_only"));
    row.push(text("withdrawn"));
    row.push(text("searches"));
    row.push(text("expansions"));
    row.push(text("candidates"));
    row.push(text("truncated_searches"));
    row.push(text("unresolved_search_attempts"));
    row.push(text("repair_trials"));
    row.push(text("error"));
    row.push(text("strategy_config"));
    row.push(text("world_config"));
    row.push(text("shortfall_world"));
    row.push(text("shortfall_seed"));
    row.push(text("shortfall_numerator"));
    row.push(text("shortfall_denominator"));
    assert(texts(row@) =~= summary_header());
    row
}

fn push_figures(row: &mut Vec<String>, m: &Metrics, a: &AdaptationMetrics, d: &SearchDiagnostics)
    ensures
        texts(final(row)@) == texts(old(row)@) + figure_texts(*m, *a, *d),
{
    let ghost start = row@;
    row.push(decimal_text(m.generated));
    row.push(decimal_text(m.generated_volume_cents));
    row.push(decimal_text(m.accepted_routes));
    row.push(decimal_text(m.rejected));
    row.push(decimal_text(m.rejected_volume_cents));
    row.push(decimal_text(m.expired));
    row.push(decimal_text(m.expired_volume_cents));
    row.push(decimal_text(m.completed));
    row.push(decimal_text(m.completed_volume_cents));
    row.push(decimal_text(m.completed_late));
    row.push(decimal_text(m.completed_late_volume_cents));
    row.push(decimal_text(m.sla_failures));
    row.push(decimal_text(m.sla_failed_volume_cents));
    row.push(decimal_text(m.routing_cost_cents));
    row.push(decimal_text(m.completed_elapsed_minutes));
    row.push(decimal_text(m.departed_hops));
    row.push(decimal_text(m.settled_hops));
    row.push(decimal_text(m.departed_principal_cents));
    row.push(decimal_text(m.settled_principal_cents));
    row.push(decimal_text(a.rail_changes));
    row.push(decimal_text(a.reoptimizations));
    row.push(decimal_text(a.assignment_comparisons));
    row.push(decimal_text(a.changed_assignments));
    row.push(decimal_text(a.changed_routes));
    row.push(decimal_text(a.retimed_only));
    row.push(decimal_text(a.withdrawn));
    row.push(decimal_text(d.searches));
    row.push(decimal_text(d.expansions));
    row.push(decimal_text(d.candidates));
    row.push(decimal_text(d.truncated_searches));
    row.push(decimal_text(d.unresolved));
    row.push(decimal_text(d.repair_trials));
    assert(texts(row@) =~= texts(start) + figure_texts(*m, *a, *d));
}


fn push_blanks(row: &mut Vec<String>, n: usize)
    ensures
        texts(final(row)@) == texts(old(row)@) + blanks(n as nat),
{
    let ghost start = row@;
    let mut k: usize = 0;
    while k < n
        invariant
            k <= n,
            texts(row@) == texts(start) + blanks(k as nat),
        decreases n - k,
    {
        let ghost before = row@;
        row.push(String::new());
        proof {
            assert(texts(row@) =~= texts(before).push(Seq::<char>::empty()));
            assert(blanks((k + 1) as nat) =~= blanks(k as nat).push(Seq::<char>::empty()));
            assert(texts(row@) =~= texts(start) + blanks((k + 1) as nat));
        }
        k += 1;
    }
}

fn error_cell(s: &Status) -> (r: String)
    ensures
        r@ == error_text(*s),
{
    match s {
        Status::Error { minute, message } => {
            let mut t = text("minute=");
            crate::text::push_decimal(&mut t, *minute);
            t.append(": ");
            t.append(message.as_str());
            t
        },
        _ => String::new(),
    }
}

fn case_cells(
    ev: &Evaluation,
    c: &CaseResult,
    r: &RunResult,
    strategy_config: &String,
    world_config: &String,
) -> (row: Vec<String>)
    requires
        counts_consistent(r.metrics),
    ensures
        texts(row@) == case_summary_row(*ev, *c, *r, strategy_config@, world_config@),
{
    let mut row: Vec<String> = Vec::new();
    row.push(text("case"));
    row.push(decimal_text(FORMAT_VERSION as u128));
    row.push(copy_string(&c.world));
    row.push(decimal_text(c.seed as u128));
    row.push(copy_string(&r.strategy));
    row.push(status_name(&r.status));
    row.push(decimal_text(ev.config.arrival_minutes as u128));
    row.push(decimal_text(ev.config.drain_minutes as u128));
    row.push(bool_name(r.replay_verified));
    row.push(decimal_text(r.processed_minutes));
    row.push(decimal_text(c.offered));
    row.push(decimal_text(c.offered_volume_cents));
    let ghost first = texts(row@);
    push_blanks(&mut row, 6);
    let ghost second = texts(row@);
    row.push(decimal_text(r.on_time()));
    row.push(decimal_text(r.on_time_volume()));
    row.push(decimal_text(r.pending()));
    row.push(decimal_text(r.pending_volume()));
    row.push(decimal_text(r.never_routed_expired()));
    row.push(optional_cell(r.elapsed_percentile(95)));
    row.push(optional_cell(r.elapsed_percentile(100)));
    row.push(decimal_text(r.peak_active as u128));
    row.push(decimal_text(r.peak_queue as u128));
    row.push(decimal_text(r.queue_payment_minutes));
    row.push(decimal_text(r.at_arrival_cutoff.completed));
    let ghost third = texts(row@);
    push_blanks(&mut row, 6);
    let ghost fourth = texts(row@);
    push_figures(&mut row, &r.metrics, &r.adaptation, &r.diagnostics);
    let ghost fifth = texts(row@);
    row.push(error_cell(&r.status));
    row.push(copy_string(strategy_config));
    row.push(copy_string(world_config));
    let ghost sixth = texts(row@);
    push_blanks(&mut row, 4);
    proof {
        let m = r.metrics;
        assert(first =~= seq![
            "case"@,
            decimal(FORMAT_VERSION as nat),
            c.world@,
            decimal(c.seed as nat),
            r.strategy@,
            status_text(r.status),
            decimal(ev.config.arrival_minutes as nat),
            decimal(ev.config.drain_minutes as nat),
            bool_text(r.replay_verified),
            decimal(r.processed_minutes as nat),
            decimal(c.offered as nat),
            decimal(c.offered_volume_cents as nat),
        ]);
        assert(third =~= second + seq![
            decimal((m.completed - m.completed_late) as nat),
            decimal((m.completed_volume_cents - m.completed_late_volume_cents) as nat),
            decimal((m.generated - m.completed - m.expired - m.rejected) as nat),
            decimal((m.generated_volume_cents - m.completed_volume_cents - m.expired_volume_cents
                - m.rejected_volume_cents) as nat),
            decimal(never_routed_expired_keys(r.payments@).len()),
            optional_text(percentile_of(r.payments@, 95)),
            optional_text(percentile_of(r.payments@, 100)),
            decimal(r.peak_active as nat),
            decimal(r.peak_queue as nat),
            decimal(r.queue_payment_minutes as nat),
            decimal(r.at_arrival_cutoff.completed as nat),
        ]);
        assert(sixth =~= fifth + seq![error_text(r.status), strategy_config@, world_config@]);
        assert(texts(row@) =~= case_summary_row(*ev, *c, *r, strategy_config@, world_config@));
    }
    row
}

fn key_world_cell(k: &Option<CaseKey>) -> (r: String)
    ensures
        r@ == key_world(*k),
{
    match k {
        Some(key) => copy_string(&key.world),
        None => String::new(),
    }
}

fn key_seed_cell(k: &Option<CaseKey>) -> (r: String)
    ensures
        r@ == key_seed(*k),
{
    match k {
        Some(key) => decimal_text(key.seed as u128),
        None => String::new(),
    }
}

fn numerator_cell(r: Option<Ratio>) -> (t: String)
    ensures
        t@ == numerator_text(r),
{
    match r {
        Some(x) => decimal_text(x.numerator),
        None => String::new(),
    }
}

fn denominator_cell(r: Option<Ratio>) -> (t: String)
    ensures
        t@ == denominator_text(r),
{
    match r {
        Some(x) => decimal_text(x.denominator),
        None => String::new(),
    }
}

fn aggregate_cells(ev: &Evaluation, world: &String, g: &Aggregate, strategy_config: &String) -> (row: Vec<String>)
    requires
        g.metrics.completed_late <= g.metrics.completed,
        g.metrics.completed_late_volume_cents <= g.metrics.completed_volume_cents,
    ensures
        texts(row@) == aggregate_summary_row(*ev, world@, *g, strategy_config@),
{
    let m = &g.metrics;
    let mut row: Vec<String> = Vec::new();
    if world.as_str().is_empty() {
        row.push(text("aggregate"));
    } else {
        row.push(text("world-aggregate"));
    }
    row.push(decimal_text(FORMAT_VERSION as u128));
    row.push(copy_string(world));
    row.push(String::new());
    row.push(copy_string(&g.strategy));
    if g.matched_cases == g.total_cases {
        row.push(text("complete"));
    } else {
        row.push(text("partial"));
    }
    row.push(decimal_text(ev.config.arrival_minutes as u128));
    row.push(decimal_text(ev.config.drain_minutes as u128));
    row.push(bool_name(g.replay_verified));
    row.push(String::new());
    row.push(decimal_text(m.generated));
    row.push(decimal_text(m.generated_volume_cents));
    row.push(decimal_text(g.matched_cases as u128));
    row.push(decimal_text(g.total_cases as u128));
    row.push(decimal_text(g.error_cases as u128));
    row.push(decimal_text(g.censored_cases as u128));
    row.push(decimal_text(g.wins as u128));
    row.push(decimal_text(g.tied_best as u128));
    row.push(decimal_text(m.completed - m.completed_late));
    row.push(decimal_text(m.completed_volume_cents - m.completed_late_volume_cents));
    row.push(text("0"));
    row.push(text("0"));
    row.push(decimal_text(g.never_routed_expired));
    row.push(String::new());
    row.push(String::new());
    row.push(decimal_text(g.peak_active as u128));
    row.push(decimal_text(g.peak_queue as u128));
    row.push(decimal_text(g.queue_payment_minutes));
    row.push(String::new());
    row.push(key_world_cell(&g.worst_case));
    row.push(key_seed_cell(&g.worst_case));
    row.push(numerator_cell(g.worst_not_on_time));
    row.push(denominator_cell(g.worst_not_on_time));
    row.push(numerator_cell(g.p95_not_on_time));
    row.push(denominator_cell(g.p95_not_on_time));
    let ghost first = texts(row@);
    push_figures(&mut row, &g.metrics, &g.adaptation, &g.diagnostics);
    let ghost second = texts(row@);
    row.push(String::new());
    row.push(copy_string(strategy_config));
    row.push(String::new());
    row.push(key_world_cell(&g.worst_shortfall_case));
    row.push(key_seed_cell(&g.worst_shortfall_case));
    row.push(numerator_cell(g.worst_service_shortfall));
    row.push(denominator_cell(g.worst_service_shortfall));
    proof {
        let mm = g.metrics;
        assert(first =~= seq![
            if world@.len() == 0 { "aggregate"@ } else { "world-aggregate"@ },
            decimal(FORMAT_VERSION as nat),
            world@,
            Seq::empty(),
            g.strategy@,
            if g.matched_cases == g.total_cases { "complete"@ } else { "partial"@ },
            decimal(ev.config.arrival_minutes as nat),
            decimal(ev.config.drain_minutes as nat),
            bool_text(g.replay_verified),
            Seq::empty(),
            decimal(mm.generated as nat),
            decimal(mm.generated_volume_cents as nat),
            decimal(g.matched_cases as nat),
            decimal(g.total_cases as nat),
            decimal(g.error_cases as nat),
            decimal(g.censored_cases as nat),
            decimal(g.wins as nat),
            decimal(g.tied_best as nat),
            decimal((mm.completed - mm.completed_late) as nat),
            decimal((mm.completed_volume_cents - mm.completed_late_volume_cents) as nat),
            "0"@,
            "0"@,
            decimal(g.never_routed_expired as nat),
            Seq::empty(),
            Seq::empty(),
            decimal(g.peak_active as nat),
            decimal(g.peak_queue as nat),
            decimal(g.queue_payment_minutes as nat),
            Seq::empty(),
            key_world(g.worst_case),
            key_seed(g.worst_case),
            numerator_text(g.worst_not_on_time),
            denominator_text(g.worst_not_on_time),
            numerator_text(g.p95_not_on_time),
            denominator_text(g.p95_not_on_time),
        ]);
        assert(texts(row@) =~= second + seq![
            Seq::empty(),
            strategy_config@,
            Seq::empty(),
            key_world(g.worst_shortfall_case),
            key_seed(g.worst_shortfall_case),
            numerator_text(g.worst_service_shortfall),
            denominator_text(g.worst_service_shortfall),
        ]);
        assert(texts(row@) =~= aggregate_summary_row(*ev, world@, *g, strategy_config@));
    }
    row
}


/// Position `w` holds the first world named `name`.
pub open spec fn first_world(worlds: Seq<World>, name: Seq<char>, w: int) -> bool {
    &&& 0 <= w < worlds.len()
    &&& worlds[w].name@ == name
    &&& forall|v: int| 0 <= v < w ==> (#[trigger] worlds[v]).name@ != name
}

pub open spec fn world_position(worlds: Seq<World>, name: Seq<char>) -> int {
    choose|w: int| first_world(worlds, name, w)
}

/// The rows of the first `j` runs of case `c`, each with its strategy's and its
/// world's configuration cell.
pub open spec fn run_summary_rows(
    ev: Evaluation,
    strategy_configs: Seq<Seq<char>>,
    world_configs: Seq<Seq<char>>,
    c: int,
    j: int,
) -> Seq<Seq<Seq<char>>> {
    let case = ev.cases@[c];
    Seq::new(
        j as nat,
        |k: int|
            case_summary_row(
                ev,
                case,
                case.runs@[k],
                strategy_configs[k],
                world_configs[world_position(ev.worlds@, case.world@)],
            ),
    )
}

/// The rows of the runs of the first `c` cases.
pub open spec fn case_summary_rows(
    ev: Evaluation,
    strategy_configs: Seq<Seq<char>>,
    world_configs: Seq<Seq<char>>,
    c: int,
) -> Seq<Seq<Seq<char>>>
    decreases c,
{
    if c <= 0 {
        Seq::empty()
    } else {
        case_summary_rows(ev, strategy_configs, world_configs, c - 1) + run_summary_rows(
            ev,
            strategy_configs,
            world_configs,
            c - 1,
            ev.cases@[c - 1].runs@.len() as int,
        )
    }
}

/// The rows of the first `g` aggregate groups.
pub open spec fn group_summary_rows(
    ev: Evaluation,
    strategy_configs: Seq<Seq<char>>,
    groups: Seq<(String, Vec<Aggregate>)>,
    g: int,
) -> Seq<Seq<Seq<char>>>
    decreases g,
{
    if g <= 0 {
        Seq::empty()
    } else {
        let group = groups[g - 1];
        group_summary_rows(ev, strategy_configs, groups, g - 1) + Seq::new(
            group.1@.len(),
            |k: int| aggregate_summary_row(ev, group.0@, group.1@[k], strategy_configs[k]),
        )
    }
}

/// The aggregate groups: the overall aggregates under the empty name, then each
/// world's own under its name.
pub open spec fn grouped(ev: Evaluation, groups: Seq<(String, Vec<Aggregate>)>) -> bool {
    &&& groups.len() == ev.worlds@.len() + 1
    &&& groups[0].0@ == Seq::<char>::empty()
    &&& aggregated(groups[0].1@, ev, None)
    &&& forall|w: int| 0 <= w < ev.worlds@.len() ==> {
        &&& (#[trigger] groups[w + 1]).0@ == ev.worlds@[w].name@
        &&& aggregated(groups[w + 1].1@, ev, Some(ev.worlds@[w].name@))
    }
}

/// Every aggregate sum, overall and per world, fits in its integer.
pub open spec fn groups_fit(ev: Evaluation) -> bool {
    &&& all_fit(ev, None)
    &&& forall|w: int| 0 <= w < ev.worlds@.len() ==> all_fit(ev, Some((#[trigger] ev.worlds@[w]).name@))
}

/// The report exists: every case has one run per strategy and a world of the
/// evaluation, and every run counts consistently.
pub open spec fn summary_ready(ev: Evaluation) -> bool {
    &&& aggregate_ready(ev)
    &&& forall|c: int| 0 <= c < ev.cases@.len() ==> {
        let case = #[trigger] ev.cases@[c];
        &&& case.runs@.len() == ev.strategies@.len()
        &&& forall|j: int| 0 <= j < case.runs@.len() ==> counts_consistent((#[trigger] case.runs@[j]).metrics)
        &&& exists|w: int| 0 <= w < ev.worlds@.len() && (#[trigger] ev.worlds@[w]).name@ == case.world@
    }
}

/// The whole summary report.
pub open spec fn summary_text(
    ev: Evaluation,
    strategy_configs: Seq<Seq<char>>,
    world_configs: Seq<Seq<char>>,
    groups: Seq<(String, Vec<Aggregate>)>,
) -> Seq<char> {
    csv_line(summary_header()) + csv_text(
        case_summary_rows(ev, strategy_configs, world_configs, ev.cases@.len() as int),
    ) + csv_text(group_summary_rows(ev, strategy_configs, groups, groups.len() as int))
}

/// The position of the first world named `name`, which exists.
fn find_world(worlds: &Vec<World>, name: &String) -> (w: usize)
    requires
        exists|v: int| 0 <= v < worlds@.len() && (#[trigger] worlds@[v]).name@ == name@,
    ensures
        w == world_position(worlds@, name@),
        first_world(worlds@, name@, w as int),
{
    let mut w: usize = 0;
    while w < worlds.len()
        invariant
            w <= worlds@.len(),
            exists|v: int| 0 <= v < worlds@.len() && (#[trigger] worlds@[v]).name@ == name@,
            forall|v: int| 0 <= v < w ==> (#[trigger] worlds@[v]).name@ != name@,
        decreases worlds@.len() - w,
    {
        if same_text(&worlds[w].name, name) {
            proof {
                let chosen = world_position(worlds@, name@);
                assert(first_world(worlds@, name@, w as int));
                assert(first_world(worlds@, name@, chosen));
                if chosen < w {
                    assert(worlds@[chosen].name@ != name@);
                } else if chosen > w {
                    assert(worlds@[w as int].name@ != name@);
                }
            }
            return w;
        }
        w += 1;
    }
    w
}

impl Evaluation {
    /// The summary report with the given configuration cells: one per strategy,
    /// then one per world.
    #[verifier::rlimit(40)]
    pub fn summary_csv(&self, strategy_configs: &Vec<String>, world_configs: &Vec<String>) -> (r: Result<
        String,
        SimulationError,
    >)
        requires
            summary_ready(*self),
            strategy_configs@.len() == self.strategies@.len(),
            world_configs@.len() == self.worlds@.len(),
        ensures
            r is Ok <==> groups_fit(*self),
            r matches Err(e) ==> e == total_overflow(),
            r matches Ok(report) ==> exists|groups: Seq<(String, Vec<Aggregate>)>|
                grouped(*self, groups) && report@ == summary_text(
                    *self,
                    texts(strategy_configs@),
                    texts(world_configs@),
                    groups,
                ),
    {
        let ghost sc = texts(strategy_configs@);
        let ghost wc = texts(world_configs@);
        let groups = match self.aggregate_groups() {
            Ok(g) => g,
            Err(e) => {
                return Err(e);
            },
        };
        let mut out = String::new();
        push_row(&mut out, &header_cells());
        let ghost head = out@;
        let mut c: usize = 0;
        while c < self.cases.len()
            invariant
                summary_ready(*self),
                strategy_configs@.len() == self.strategies@.len(),
                world_configs@.len() == self.worlds@.len(),
                sc == texts(strategy_configs@),
                wc == texts(world_configs@),
                c <= self.cases@.len(),
                head == csv_line(summary_header()),
                out@ == head + csv_text(case_summary_rows(*self, sc, wc, c as int)),
            decreases self.cases@.len() - c,
        {
            let case = &self.cases[c];
            assert(case.runs@.len() == self.strategies@.len());
            let w = find_world(&self.worlds, &case.world);
            let ghost start = out@;
            let mut j: usize = 0;
            while j < case.runs.len()
                invariant
                    summary_ready(*self),
                    c < self.cases@.len(),
                    case == &self.cases@[c as int],
                    case.runs@.len() == self.strategies@.len(),
                    strategy_configs@.len() == self.strategies@.len(),
                    world_configs@.len() == self.worlds@.len(),
                    sc == texts(strategy_configs@),
                    wc == texts(world_configs@),
                    w == world_position(self.worlds@, case.world@),
                    w < self.worlds@.len(),
                    j <= case.runs@.len(),
                    out@ == start + csv_text(run_summary_rows(*self, sc, wc, c as int, j as int)),
                decreases case.runs@.len() - j,
            {
                let run = &case.runs[j];
                assert(counts_consistent(case.runs@[j as int].metrics));
                let row = case_cells(self, case, run, &strategy_configs[j], &world_configs[w]);
                let ghost before = out@;
                push_row(&mut out, &row);
                proof {
                    let prior = run_summary_rows(*self, sc, wc, c as int, j as int);
                    let next = run_summary_rows(*self, sc, wc, c as int, j + 1);
                    let one = seq![texts(row@)];
                    assert(one.drop_last() =~= Seq::<Seq<Seq<char>>>::empty());
                    assert(csv_text(Seq::<Seq<Seq<char>>>::empty()) =~= Seq::<char>::empty());
                    assert(one.last() == texts(row@));
                    assert(csv_text(one) =~= csv_text(one.drop_last()) + csv_line(one.last()));
                    assert(csv_text(one) =~= csv_line(texts(row@)));
                    lemma_csv_text_append(prior, one);
                    assert(prior + one =~= next);
                    assert(out@ =~= start + csv_text(next));
                }
                j += 1;
            }
            proof {
                lemma_csv_text_append(
                    case_summary_rows(*self, sc, wc, c as int),
                    run_summary_rows(*self, sc, wc, c as int, case.runs@.len() as int),
                );
            }
            c += 1;
        }
        let ghost middle = out@;
        let mut g: usize = 0;
        while g < groups.len()
            invariant
                aggregate_ready(*self),
                grouped(*self, groups@),
                strategy_configs@.len() == self.strategies@.len(),
                sc == texts(strategy_configs@),
                g <= groups@.len(),
                out@ == middle + csv_text(group_summary_rows(*self, sc, groups@, g as int)),
            decreases groups@.len() - g,
        {
            let name = &groups[g].0;
            let aggregates = &groups[g].1;
            let ghost world = if g == 0 { None } else { Some(self.worlds@[g - 1].name@) };
            proof {
                if g > 0 {
                    assert(groups@[(g - 1) + 1] == groups@[g as int]);
                }
                assert(aggregated(aggregates@, *self, world));
            }
            let ghost start = out@;
            let mut k: usize = 0;
            while k < aggregates.len()
                invariant
                    aggregate_ready(*self),
                    aggregated(aggregates@, *self, world),
                    strategy_configs@.len() == self.strategies@.len(),
                    sc == texts(strategy_configs@),
                    k <= aggregates@.len(),
                    out@ == start + csv_text(
                        Seq::new(k as nat, |q: int| aggregate_summary_row(*self, name@, aggregates@[q], sc[q])),
                    ),
                decreases aggregates@.len() - k,
            {
                proof {
                    crate::evaluation::aggregate::lemma_aggregate_late_within(aggregates@[k as int], *self, world, k as int);
                }
                let row = aggregate_cells(self, name, &aggregates[k], &strategy_configs[k]);
                let ghost before = out@;
                push_row(&mut out, &row);
                proof {
                    let prior = Seq::new(k as nat, |q: int| aggregate_summary_row(*self, name@, aggregates@[q], sc[q]));
                    let next = Seq::new((k + 1) as nat, |q: int| aggregate_summary_row(*self, name@, aggregates@[q], sc[q]));
                    let one = seq![texts(row@)];
                    assert(one.drop_last() =~= Seq::<Seq<Seq<char>>>::empty());
                    assert(csv_text(Seq::<Seq<Seq<char>>>::empty()) =~= Seq::<char>::empty());
                    assert(one.last() == texts(row@));
                    assert(csv_text(one) =~= csv_text(one.drop_last()) + csv_line(one.last()));
                    assert(csv_text(one) =~= csv_line(texts(row@)));
                    lemma_csv_text_append(prior, one);
                    assert(prior + one =~= next);
                    assert(out@ =~= start + csv_text(next));
                }
                k += 1;
            }
            proof {
                let done = Seq::new(aggregates@.len(), |q: int| aggregate_summary_row(*self, name@, aggregates@[q], sc[q]));
                lemma_csv_text_append(group_summary_rows(*self, sc, groups@, g as int), done);
                assert(group_summary_rows(*self, sc, groups@, g + 1) =~= group_summary_rows(*self, sc, groups@, g as int) + done);
            }
            g += 1;
        }
        Ok(out)
    }
}


/// A run's counters are consistent: late within completed, and the terminal
/// outcomes within what was generated.
fn run_counts_ok(m: &Metrics) -> (r: bool)
    ensures
        r == counts_consistent(*m),
{
    m.completed_late <= m.completed && m.completed_late_volume_cents <= m.completed_volume_cents
        && m.completed <= m.generated && m.expired <= m.generated - m.completed && m.rejected <= m.generated
        - m.completed - m.expired && m.completed_volume_cents <= m.generated_volume_cents
        && m.expired_volume_cents <= m.generated_volume_cents - m.completed_volume_cents
        && m.rejected_volume_cents <= m.generated_volume_cents - m.completed_volume_cents
        - m.expired_volume_cents
}

/// Every key of `a` is a key of `b`.
fn keys_within(a: &RunResult, b: &RunResult) -> (r: bool)
    ensures
        r ==> a.payments@.dom().subset_of(b.payments@.dom()),
{
    broadcast use vstd::std_specs::btree::group_btree_axioms;

    proof {
        crate::order::lemma_u128_keys_ordered();
    }
    let keys = a.payments.keys();
    let ghost whole = keys.remaining();
    let ghost ks = whole.unref();
    proof {
        assert(ks.to_set() == a.payments@.dom());
    }
    for k in it: keys
        invariant
            it.seq() == whole,
            ks == whole.unref(),
            ks.to_set() == a.payments@.dom(),
            forall|q: int| 0 <= q < it.index() ==> b.payments@.dom().contains(#[trigger] ks[q]),
    {
        proof {
            assert(ks[it.index() as int] == *k);
        }
        if !b.payments.contains_key(k) {
            return false;
        }
    }
    proof {
        assert forall|x: u128| a.payments@.dom().contains(x) implies b.payments@.dom().contains(x) by {
            assert(ks.to_set().contains(x));
            let q = choose|q: int| 0 <= q < ks.len() && ks[q] == x;
        }
    }
    true
}

/// Whether a finished evaluation is ready for its reports: the checks that the
/// aggregates, the summary and the paired comparisons ask for.
pub(crate) fn report_ready(ev: &Evaluation) -> (r: bool)
    ensures
        r ==> summary_ready(*ev),
        r ==> forall|c: int| 0 <= c < ev.cases@.len() ==> same_cohorts((#[trigger] ev.cases@[c]).runs@),
{
    let mut c: usize = 0;
    while c < ev.cases.len()
        invariant
            c <= ev.cases@.len(),
            forall|x: int| 0 <= x < c ==> case_ready(*ev, #[trigger] ev.cases@[x]),
        decreases ev.cases@.len() - c,
    {
        let case = &ev.cases[c];
        if case.runs.len() != ev.strategies.len() {
            return false;
        }
        let mut known = false;
        let mut w: usize = 0;
        while w < ev.worlds.len()
            invariant
                w <= ev.worlds@.len(),
                known ==> exists|v: int| 0 <= v < ev.worlds@.len() && (#[trigger] ev.worlds@[v]).name@ == case.world@,
            decreases ev.worlds@.len() - w,
        {
            if same_text(&ev.worlds[w].name, &case.world) {
                known = true;
            }
            w += 1;
        }
        if !known {
            return false;
        }
        let mut complete = true;
        let mut j: usize = 0;
        while j < case.runs.len()
            invariant
                j <= case.runs@.len(),
                complete == forall|q: int| 0 <= q < j ==> (#[trigger] case.runs@[q]).status == Status::Complete,
                forall|q: int| 0 <= q < j ==> counts_consistent((#[trigger] case.runs@[q]).metrics),
            decreases case.runs@.len() - j,
        {
            if !run_counts_ok(&case.runs[j].metrics) {
                return false;
            }
            match case.runs[j].status {
                Status::Complete => {},
                _ => {
                    complete = false;
                },
            }
            j += 1;
        }
        if complete {
            let mut q: usize = 0;
            while q < case.runs.len()
                invariant
                    q <= case.runs@.len(),
                    forall|x: int| 0 <= x < case.runs@.len() ==> counts_consistent((#[trigger] case.runs@[x]).metrics),
                    forall|x: int| 0 <= x < q ==> offered_within(#[trigger] case.runs@[x], case.offered),
                decreases case.runs@.len() - q,
            {
                let m = &case.runs[q].metrics;
                if m.completed - m.completed_late > case.offered {
                    return false;
                }
                q += 1;
            }
        }
        let mut a: usize = 0;
        while a < case.runs.len()
            invariant
                a <= case.runs@.len(),
                forall|x: int, y: int|
                    0 <= x < a && 0 <= y < case.runs@.len() && case.runs@[x].status == Status::Complete
                        && case.runs@[y].status == Status::Complete ==> (#[trigger] case.runs@[x].payments@).dom().subset_of(
                        (#[trigger] case.runs@[y].payments@).dom(),
                    ),
            decreases case.runs@.len() - a,
        {
            let mut b: usize = 0;
            while b < case.runs.len()
                invariant
                    a < case.runs@.len(),
                    b <= case.runs@.len(),
                    forall|x: int, y: int|
                        0 <= x < a && 0 <= y < case.runs@.len() && case.runs@[x].status == Status::Complete
                            && case.runs@[y].status == Status::Complete ==> (#[trigger] case.runs@[x].payments@).dom().subset_of(
                            (#[trigger] case.runs@[y].payments@).dom(),
                        ),
                    forall|y: int|
                        0 <= y < b && case.runs@[a as int].status == Status::Complete && case.runs@[y].status
                            == Status::Complete ==> case.runs@[a as int].payments@.dom().subset_of(
                            (#[trigger] case.runs@[y].payments@).dom(),
                        ),
                decreases case.runs@.len() - b,
            {
                let both = match (&case.runs[a].status, &case.runs[b].status) {
                    (Status::Complete, Status::Complete) => true,
                    _ => false,
                };
                if both && !keys_within(&case.runs[a], &case.runs[b]) {
                    return false;
                }
                b += 1;
            }
            a += 1;
        }
        proof {
            assert(all_complete(case.runs@) == complete);
            assert forall|x: int, y: int|
                0 <= x < case.runs@.len() && 0 <= y < case.runs@.len() && case.runs@[x].status == Status::Complete
                    && case.runs@[y].status == Status::Complete implies (#[trigger] case.runs@[x].payments@).dom()
                    == (#[trigger] case.runs@[y].payments@).dom() by {
                assert(case.runs@[x].payments@.dom().subset_of(case.runs@[y].payments@.dom()));
                assert(case.runs@[y].payments@.dom().subset_of(case.runs@[x].payments@.dom()));
                assert(case.runs@[x].payments@.dom() =~= case.runs@[y].payments@.dom());
            }
            assert(case_ready(*ev, *case));
        }
        c += 1;
    }
    true
}

/// The completed on-time payments of a run are within what the case offered.
pub open spec fn offered_within(run: RunResult, offered: u128) -> bool {
    run.metrics.completed - run.metrics.completed_late <= offered
}

/// One case is ready for the reports.
pub open spec fn case_ready(ev: Evaluation, case: CaseResult) -> bool {
    &&& case.runs@.len() == ev.strategies@.len()
    &&& exists|w: int| 0 <= w < ev.worlds@.len() && (#[trigger] ev.worlds@[w]).name@ == case.world@
    &&& forall|j: int| 0 <= j < case.runs@.len() ==> counts_consistent((#[trigger] case.runs@[j]).metrics)
    &&& all_complete(case.runs@) ==> forall|j: int| 0 <= j < case.runs@.len() ==> offered_within(#[trigger] case.runs@[j], case.offered)
    &&& same_cohorts(case.runs@)
}

impl Evaluation {
    /// The summary report, each configuration cell holding the strategy or the
    /// world scenario written out field by field.
    pub fn to_csv(&self) -> (r: Result<String, SimulationError>)
        requires
            summary_ready(*self),
        ensures
            r is Ok <==> groups_fit(*self),
            r matches Err(e) ==> e == total_overflow(),
            r matches Ok(report) ==> exists|
                strategy_configs: Seq<Seq<char>>,
                world_configs: Seq<Seq<char>>,
                groups: Seq<(String, Vec<Aggregate>)>,
            |
                #![trigger summary_text(*self, strategy_configs, world_configs, groups)]
                strategy_configs == Seq::new(self.strategies@.len(), |k: int| strategy_text(self.strategies@[k]))
                    && world_configs == Seq::new(self.worlds@.len(), |w: int| scenario_text(self.worlds@[w].scenario))
                    && grouped(*self, groups) && report@ == summary_text(
                    *self,
                    strategy_configs,
                    world_configs,
                    groups,
                ),
    {
        let mut strategy_configs: Vec<String> = Vec::new();
        let mut k: usize = 0;
        while k < self.strategies.len()
            invariant
                k <= self.strategies@.len(),
                strategy_configs@.len() == k,
                forall|q: int| 0 <= q < k ==> (#[trigger] strategy_configs@[q])@ == strategy_text(self.strategies@[q]),
            decreases self.strategies@.len() - k,
        {
            strategy_configs.push(describe_strategy(&self.strategies[k]));
            k += 1;
        }
        let mut world_configs: Vec<String> = Vec::new();
        let mut w: usize = 0;
        while w < self.worlds.len()
            invariant
                w <= self.worlds@.len(),
                world_configs@.len() == w,
                forall|q: int| 0 <= q < w ==> (#[trigger] world_configs@[q])@ == scenario_text(self.worlds@[q].scenario),
            decreases self.worlds@.len() - w,
        {
            world_configs.push(describe_scenario(&self.worlds[w].scenario));
            w += 1;
        }
        proof {
            assert(crate::network::texts(strategy_configs@) =~= Seq::new(
                self.strategies@.len(),
                |k: int| strategy_text(self.strategies@[k]),
            ));
            assert(crate::network::texts(world_configs@) =~= Seq::new(
                self.worlds@.len(),
                |w: int| scenario_text(self.worlds@[w].scenario),
            ));
        }
        self.summary_csv(&strategy_configs, &world_configs)
    }
}

} // verus!
