use blindcoder::alias::Alias;
use blindcoder::backend::{CostSource, ErrorKind};
use blindcoder::config::CaptureLevel;
use blindcoder::double::Double;
use blindcoder::pool::{failures_for_key, ratings_for_key};
use blindcoder::selector::credited_difficulty;
use blindcoder::stats::{
    format_num, gather_rows, prices_for_key, render_table, reveal_rows, row_cells, sort_rows,
    FailureCount, RevealError, RowBasis, ScoreTexts, Scores, StatsRow,
};
use blindcoder::store::{SessionEnd, Store};

fn d(x: f64) -> Double {
    Double { bits: x.to_bits() }
}

fn f(x: Double) -> f64 {
    f64::from_bits(x.bits)
}

fn end(cost: f64, prompt: u64, completion: u64, error: Option<(ErrorKind, u16)>) -> SessionEnd {
    SessionEnd {
        realized_cost: Some(d(cost)),
        cost_source: Some(CostSource::Provider),
        prompt_tokens: Some(prompt),
        completion_tokens: Some(completion),
        cached_prompt_tokens: None,
        error_kind: error.map(|e| e.0),
        error_status: error.map(|e| e.1),
        terminated_by: None,
    }
}

fn seeded_store(store: &mut Store) {
    store.upsert_provider("prov", "http://p.test/v1", "openai");
    store.upsert_model("acme/cheap", "prov", "prov/cheap");
    store.upsert_model("acme/pricey", "prov", "prov/pricey");
    for name in ["cheap", "pricey"] {
        let alias = Alias {
            provider_token: "pt".into(),
            model_token: name.into(),
        };
        store.insert_alias(&alias, &format!("acme/{name}"), "prov").unwrap();
    }
    store.record_price_if_changed("acme/cheap", "prov", Some(d(0.1)), Some(d(0.4)), 0);
    store.record_price_if_changed("acme/pricey", "prov", Some(d(1.0)), Some(d(4.0)), 0);

    let mut start = |alias: &str| {
        store
            .record_session_start(alias, Some("opencode"), None, CaptureLevel::Metadata, 0)
            .unwrap()
    };
    let (sid_c1, sid_c2, sid_p) = (start("pt:cheap"), start("pt:cheap"), start("pt:pricey"));

    // cheap model: two sessions, two positive ratings.
    store.record_rating(sid_c1, 2, 2, None, 0).unwrap();
    store.record_rating(sid_c2, 1, 1, None, 0).unwrap();
    // pricey model: one failure, no ratings.
    store
        .record_session_end(sid_p, &end(5.0, 1000, 500, Some((ErrorKind::TooLarge, 413))), 0)
        .unwrap();
    // cheap sessions end cheaply.
    for sid in [sid_c1, sid_c2] {
        store.record_session_end(sid, &end(0.1, 100, 50, None), 0).unwrap();
    }
}

fn scored(bases: Vec<RowBasis>) -> Vec<StatsRow> {
    let raw: Vec<f64> = bases
        .iter()
        .map(|b| {
            let sum: f64 = b
                .prices
                .iter()
                .map(|p| f(p.input_per_mtok.unwrap()) * 0.7 + f(p.output_per_mtok.unwrap()) * 0.3)
                .sum();
            sum / b.prices.len() as f64
        })
        .collect();
    let max = raw.iter().copied().fold(0.0, f64::max);
    bases
        .into_iter()
        .zip(raw)
        .map(|(b, price)| {
            let (mut wins, mut losses) = (1.0, 1.0);
            for r in &b.ratings {
                let points = r.performance_points as f64 + 0.75 * credited_difficulty(r) as f64;
                let s = 1.0 / (1.0 + (-points / 2.0).exp());
                wins += s;
                losses += 1.0 - s;
            }
            for x in &b.failures {
                losses += x.loss_weight as f64 / 100.0;
            }
            let quality = wins / (wins + losses);
            let total: f64 = b.aggregate.costs.iter().map(|c| f(*c)).sum();
            let scores = Scores {
                avg_performance: None,
                avg_difficulty: None,
                quality: d(quality),
                value: d(quality - 0.5 * price / max),
                total_cost: d(total),
                avg_cost: None,
            };
            StatsRow::of(b.aggregate, scores)
        })
        .collect()
}

#[test]
fn gather_orders_by_value_desc_by_default() {
    let mut store = Store::open_in_memory();
    seeded_store(&mut store);

    let rows = sort_rows(scored(gather_rows(&store, 0)), "value", false);
    assert_eq!(rows.len(), 2);
    let names: Vec<&str> = rows.iter().map(|r| r.display_name.as_str()).collect();
    assert_eq!(names, vec!["cheap", "pricey"]);
    assert!(f(rows[0].scores.value) > f(rows[1].scores.value));
    assert_eq!(rows[0].sessions, 2);
    assert_eq!(rows[1].sessions, 1);
    assert_eq!(rows[1].failures.len(), 1);
    assert_eq!(rows[1].failures[0].error_kind.as_str(), "too_large");
}

#[test]
fn empty_store_returns_no_rows() {
    let store = Store::open_in_memory();
    assert!(gather_rows(&store, 0).is_empty());
}

#[test]
fn model_aggregates_and_reveals_work_on_file_db() {
    let mut store = Store::open_in_memory();
    seeded_store(&mut store);
    let mut rows = sort_rows(scored(gather_rows(&store, 0)), "value", false);

    // Resolve and journal reveals.
    let agg = store.model_aggregates();
    reveal_rows(&mut store, &mut rows, &agg, 7).unwrap();
    assert_eq!(store.tables().reveals.len(), 2);
    assert_eq!(rows[0].display_name, "prov/cheap");
    assert_eq!(rows[1].display_name, "prov/pricey");
    assert_eq!(store.tables().reveals[0].alias, "pt:cheap");
    assert_eq!(store.tables().reveals[0].reason.as_str(), "stats");
    assert_eq!(store.tables().reveals[0].revealed_at, 7);

    // Re-opening the same tables should see the data again.
    let store2 = Store::open(store.tables().clone()).unwrap();
    assert_eq!(gather_rows(&store2, 0).len(), 2);
}

#[test]
fn aggregates_count_what_the_tables_hold() {
    let mut store = Store::open_in_memory();
    seeded_store(&mut store);
    let agg = store.model_aggregates();
    let cheap = agg.iter().find(|a| a.canonical_key == "acme/cheap").unwrap();
    assert_eq!((cheap.sessions, cheap.rated, cheap.ratings), (2, 2, 2));
    assert_eq!((cheap.performance_sum, cheap.difficulty_sum), (3, 3));
    assert_eq!(cheap.costs, vec![d(0.1), d(0.1)]);
    assert_eq!((cheap.total_prompt_tokens, cheap.total_completion_tokens), (200, 100));
    assert_eq!(cheap.real_slug.as_deref(), Some("prov/cheap"));
    assert_eq!(cheap.alias, "pt:cheap");
    let pricey = agg.iter().find(|a| a.canonical_key == "acme/pricey").unwrap();
    assert_eq!(pricey.failures, vec![FailureCount { error_kind: ErrorKind::TooLarge, count: 1 }]);
    assert_eq!((pricey.rated, pricey.ratings), (0, 0));
    assert_eq!(prices_for_key(&store.latest_prices(), "acme/pricey").len(), 1);
    assert_eq!(ratings_for_key(&store.effective_ratings_aged(0), "acme/cheap").len(), 2);
    assert_eq!(failures_for_key(&store.effective_failures_aged(0), "acme/pricey")[0].loss_weight, 100);
}

fn row(name: &str, sessions: u64, value: f64, quality: f64, cost: f64) -> StatsRow {
    StatsRow {
        display_name: name.into(),
        alias: format!("p:{name}"),
        sessions,
        rated: 0,
        scores: Scores {
            avg_performance: None,
            avg_difficulty: None,
            quality: d(quality),
            value: d(value),
            total_cost: d(cost),
            avg_cost: None,
        },
        prompt_tokens: 3,
        completion_tokens: 4,
        failures: vec![],
    }
}

fn order(sort: &str, asc: bool) -> String {
    let rows = vec![
        row("a", 2, 0.5, 0.1, -0.0),
        row("b", 3, -0.5, 0.9, 0.0),
        row("c", 3, 0.5, 0.5, 2.0),
    ];
    sort_rows(rows, sort, asc).iter().map(|r| r.display_name.clone()).collect()
}

#[test]
fn rows_sort_stably_by_each_column() {
    assert_eq!(order("value", false), "acb");
    assert_eq!(order("value", true), "bac");
    assert_eq!(order("quality", false), "bca");
    assert_eq!(order("cost", false), "cab");
    assert_eq!(order("cost", true), "abc");
    assert_eq!(order("sessions", false), "bca");
    assert_eq!(order("sessions", true), "abc");
    assert_eq!(order("anything", false), order("value", false));
}

#[test]
fn rows_without_numbers_keep_their_order_behind_the_rest() {
    let names = |rows: Vec<StatsRow>| rows.iter().map(|r| r.display_name.clone()).collect::<String>();
    let nan = f64::NAN;
    for asc in [false, true] {
        let none = vec![row("b", 1, nan, 0.1, 0.0), row("a", 2, -nan, 0.2, 0.0), row("c", 3, nan, 0.3, 0.0)];
        assert_eq!(names(sort_rows(none, "value", asc)), "bac");
        assert_eq!(names(sort_rows(vec![row("x", 1, nan, nan, nan)], "cost", asc)), "x");
        assert_eq!(names(sort_rows(vec![], "cost", asc)), "");
    }
    let some = || vec![row("n", 1, nan, 0.2, 0.0), row("l", 2, -1.0, nan, 0.0), row("h", 3, 1.0, 0.3, 0.0)];
    assert_eq!(names(sort_rows(some(), "value", false)), "hln");
    assert_eq!(names(sort_rows(some(), "value", true)), "lhn");
    // A column that is not sorted by has no say.
    assert_eq!(names(sort_rows(some(), "sessions", false)), "hln");
    assert_eq!(names(sort_rows(some(), "cost", false)), "nlh");
}

fn texts(t: &str) -> ScoreTexts {
    ScoreTexts {
        avg_performance: Some(t.into()),
        avg_difficulty: None,
        quality: "0.500".into(),
        value: "0.250".into(),
        total_cost: "1.0000".into(),
        avg_cost: None,
    }
}

#[test]
fn the_table_is_aligned_to_the_right() {
    let mut r = row("abcd", 12, 0.0, 0.0, 0.0);
    r.rated = 3;
    r.failures = vec![
        FailureCount { error_kind: ErrorKind::TooLarge, count: 2 },
        FailureCount { error_kind: ErrorKind::Auth, count: 1 },
    ];
    assert_eq!(r.total_tokens(), 7);
    assert_eq!(r.failure_string(), "too_large:2 auth:1");
    let cells = row_cells(&r, texts("1.5"));
    assert_eq!(
        cells,
        ["abcd", "12", "3", "1.5", "—", "0.500", "0.250", "1.0000", "—", "7", "too_large:2 auth:1"]
    );
    let lines = render_table(vec![cells], false);
    assert_eq!(lines.len(), 3);
    assert_eq!(
        lines[0],
        "Model Sessions Rated Avg perf Avg diff Quality Value Total $ Avg $ Tokens           Failures"
    );
    assert_eq!(
        lines[1],
        "-----+--------+-----+--------+--------+-------+-----+-------+-----+------+------------------"
    );
    assert_eq!(
        lines[2],
        " abcd       12     3      1.5        —   0.500 0.250  1.0000     —      7 too_large:2 auth:1"
    );
    r.rated = 0;
    assert_eq!(row_cells(&r, texts("1.5"))[5], "—", "unrated models show no quality");
    assert!(render_table(vec![], true)[0].starts_with("Model (revealed) Sessions"));
    assert_eq!(format_num(None), "—");
    assert_eq!(format_num(Some("2".into())), "2");
}

#[test]
fn widths_count_bytes_and_padding_counts_characters() {
    // A cell of three bytes per character widens its column by bytes, and is padded by characters.
    let mut r = row("——", 0, 0.0, 0.0, 0.0);
    r.display_name = "———".into();
    let lines = render_table(vec![row_cells(&r, texts("1.0"))], false);
    assert!(lines[0].starts_with("    Model "), "{}", lines[0]);
    assert!(lines[2].starts_with("      ——— "), "{}", lines[2]);
}

#[test]
fn only_well_formed_aliases_are_revealed() {
    let mut store = Store::open_in_memory();
    let mut rows = vec![row("x", 1, 0.0, 0.0, 0.0)];
    rows[0].alias = "no-separator".into();
    let e = reveal_rows(&mut store, &mut rows, &vec![], 0).unwrap_err();
    match e {
        RevealError::Alias(m) => {
            assert_eq!(m.message(), "stored alias no-separator is missing ':' separator");
        }
        other => panic!("{other:?}"),
    }
    rows[0].alias = "a:b".into();
    reveal_rows(&mut store, &mut rows, &vec![], 0).unwrap();
    assert!(store.tables().reveals.is_empty(), "nothing was revealed, so nothing is journaled");
    assert_eq!(rows[0].display_name, "x");
}
