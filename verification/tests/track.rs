use llama_rs::float::Double;
use llama_rs::track::{
    append_record, civil_from_days, escape, format_trend, read_decode_history, utc_timestamp,
    TrackRecord, HISTORY_HEADER,
};
use llama_rs::benchmark::InferenceMetrics;

fn record(tps: f64) -> TrackRecord {
    TrackRecord {
        utc: "2026-08-24T10:00:00Z".into(),
        commit: "abc1234".into(),
        dirty: false,
        note: "n".into(),
        backend: "avx2+fma".into(),
        threads: 2,
        quant: "none".into(),
        prompt_tokens: 128,
        prefill_tps: format!("{:.3}", 100.0),
        decode_tokens: 32,
        decode_tps: format!("{:.3}", tps),
        decode_ms_per_token: format!("{:.3}", 1000.0 / tps),
        load_ms: format!("{:.3}", 10.0),
    }
}

fn rates(history: &str) -> Vec<f64> {
    read_decode_history(history)
        .iter()
        .filter_map(|field| field.trim().parse::<f64>().ok())
        .filter(|value| *value > 0.0)
        .collect()
}

fn trend_of(history: &[f64], current: f64, path: &str) -> String {
    let bits: Vec<Double> = history.iter().map(|value| Double { bits: value.to_bits() }).collect();
    format_trend(
        &bits,
        &format!("{:.2}", current),
        &format!("{:.3}", 1000.0 / current),
        path,
        &|old: Double| format!("{:+.1}", (current / f64::from_bits(old.bits) - 1.0) * 100.0),
        &|old: Double| format!("{:.2}", f64::from_bits(old.bits)),
    )
}

#[test]
fn csv_line_survives_commas_in_note() {
    let mut r = record(11.7);
    r.note = "step 1, activations".into();
    let line = r.to_csv_line();
    assert_eq!(line.split(',').count(), 13, "line={line}");
    assert_eq!(
        line,
        "2026-08-24T10:00:00Z,abc1234,clean,step 1; activations,avx2+fma,2,none,128,100.000,32,11.700,85.470,10.000"
    );
}

#[test]
fn history_roundtrips_through_the_csv() {
    let mut file = String::new();
    file.push_str(&append_record(true, &record(11.70)));
    file.push_str(&append_record(false, &record(28.50)));
    let history = rates(&file);
    assert_eq!(history.len(), 2);
    assert!((history[0] - 11.70).abs() < 1e-9);
    assert!((history[1] - 28.50).abs() < 1e-9);

    let trend = trend_of(&history, 28.50, "history.csv");
    assert!(trend.contains("+143.6%"), "trend={trend}");
}

#[test]
fn first_run_reports_no_delta() {
    let trend = trend_of(&[11.7], 11.7, "h.csv");
    assert!(!trend.contains("baseline"), "trend={trend}");
    assert!(!trend.contains("прошлому"), "trend={trend}");
}

#[test]
fn timestamp_is_well_formed() {
    let seconds = std::time::SystemTime::now()
        .duration_since(std::time::UNIX_EPOCH)
        .map(|d| d.as_secs())
        .unwrap_or(0);
    let stamp = utc_timestamp(seconds);
    assert_eq!(stamp.len(), 20, "stamp={stamp}");
    assert!(stamp.ends_with('Z'));
}

#[test]
fn civil_from_days_matches_known_dates() {
    assert_eq!(civil_from_days(0), (1970, 1, 1));
    assert_eq!(civil_from_days(19_000), (2022, 1, 8));
}

#[test]
fn civil_from_days_knows_leap_days_and_the_past() {
    assert_eq!(civil_from_days(-1), (1969, 12, 31));
    assert_eq!(civil_from_days(11_016), (2000, 2, 29));
    assert_eq!(civil_from_days(-719_468), (0, 3, 1));
    assert_eq!(civil_from_days(47_540), (2100, 2, 28));
    assert_eq!(civil_from_days(47_541), (2100, 3, 1));
}

#[test]
fn timestamps_are_exact() {
    assert_eq!(utc_timestamp(0), "1970-01-01T00:00:00Z");
    assert_eq!(utc_timestamp(1_000_000_000), "2001-09-09T01:46:40Z");
    assert_eq!(utc_timestamp(253_402_300_799), "9999-12-31T23:59:59Z");
}

#[test]
fn escaping_keeps_everything_else() {
    assert_eq!(escape("a,b\nc\rd;é"), "a;b;c;d;é");
}

#[test]
fn a_new_history_starts_with_the_header() {
    let text = append_record(true, &record(10.0));
    assert_eq!(text.lines().next(), Some(HISTORY_HEADER));
    assert_eq!(text.lines().count(), 2);
    assert_eq!(append_record(false, &record(10.0)).lines().count(), 1);
}

#[test]
fn history_skips_short_lines_and_carriage_returns() {
    let text = "header\r\na,b\r\n0,1,2,3,4,5,6,7,8,9,ten\r\n\n0,1,2,3,4,5,6,7,8,9,last,more";
    assert_eq!(read_decode_history(text), vec!["ten".to_string(), "last".to_string()]);
    assert!(read_decode_history("").is_empty());
    assert!(read_decode_history("only the header").is_empty());
}

#[test]
fn trend_compares_with_the_previous_and_the_first_run() {
    let trend = trend_of(&[10.0, 20.0, 30.0], 30.0, "h.csv");
    assert_eq!(
        trend,
        "\n  decode: 30.00 tok/s  (33.333 мс/токен)\n  к прошлому запуску: +50.0%\n  к baseline:         +200.0%  (было 10.00 tok/s)\n  история: h.csv (3 записей)\n"
    );
    let trend = trend_of(&[0.0, 20.0], 20.0, "h.csv");
    assert!(!trend.contains("baseline"));
    assert!(!trend.contains("прошлому"));
}

#[test]
fn records_take_the_counts_of_the_metrics() {
    let metrics = InferenceMetrics { prompt_tokens: 7, generated_tokens: 9, prefill: 1, decode: 2 };
    let record = TrackRecord::from_metrics(
        &metrics,
        "now".into(),
        "none".into(),
        true,
        ("1.000".into(), "2.000".into()),
        ("3.000".into(), "4.000".into()),
    );
    assert_eq!(record.to_csv_line(), "now,none,dirty,,,0,,7,1.000,9,2.000,3.000,4.000");
}
