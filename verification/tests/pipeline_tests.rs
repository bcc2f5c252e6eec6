use weight_chart::model::{PlotType, Timestamp, WeightLine};
use weight_chart::dates::{Date, format_duration_as_date, to_duration};
use weight_chart::numfmt::{milli_to_label, u64_to_string};
use weight_chart::parse::{parse_file, parse_float, parse_line, parse_timestamp};
use weight_chart::plot::plot;
use weight_chart::run::{build_path, pipeline};
use weight_chart::sort::sort_records;
use weight_chart::trend::trend_points;
use weight_chart::agg::fill_maps;

fn ts(year: u32, month: u32, day: u32, hour: u32, minute: u32, second: u32) -> Timestamp {
    Timestamp { year, month, day, hour, minute, second }
}

fn rec(year: u32, month: u32, day: u32, weight: i64) -> WeightLine {
    WeightLine { timestamp: ts(year, month, day, 12, 0, 0), weight }
}

#[test]
fn parses_well_formed_line() {
    let line = String::from("\"2021-03-04 05:06:07\",83.5,");
    let (record, error) = parse_line(&line);
    assert!(!error);
    assert_eq!(record.timestamp, ts(2021, 3, 4, 5, 6, 7));
    assert_eq!(record.weight, 83_500);
}

#[test]
fn weight_is_numeric_prefix_up_to_comma() {
    // A comma inside the weight field closes the field: only the prefix
    // before it is parsed.
    let line = String::from("\"2021-03-04 05:06:07\",83,5,");
    let (record, error) = parse_line(&line);
    assert!(!error);
    assert_eq!(record.weight, 83_000);
}

#[test]
fn weight_fraction_truncated_after_three_digits() {
    let line = String::from("\"2021-03-04 05:06:07\",1.23456,");
    let (record, error) = parse_line(&line);
    assert!(!error);
    assert_eq!(record.weight, 1_234);
}

#[test]
fn negative_weight_parses() {
    let line = String::from("\"2021-03-04 05:06:07\",-2.5,");
    let (record, error) = parse_line(&line);
    assert!(!error);
    assert_eq!(record.weight, -2_500);
}

#[test]
fn bad_timestamp_drops_line() {
    let lines = vec![
        String::from("\"2021-03-04 05:06:07\",83.5,"),
        String::from("\"not a date\",83.5,"),
        String::from("\"2021-02-30 05:06:07\",83.5,"),
        String::from(""),
        String::from("\"2021-03-05 05:06:07\",84.5,"),
    ];
    let (records, _) = parse_file(&lines);
    assert_eq!(records.len(), 2);
    assert_eq!(records[0].timestamp, ts(2021, 3, 4, 5, 6, 7));
    assert_eq!(records[1].timestamp, ts(2021, 3, 5, 5, 6, 7));
}

#[test]
fn bad_weight_keeps_line_with_sentinel() {
    let lines = vec![String::from("\"2021-03-04 05:06:07\",abc,")];
    let (records, diagnostics) = parse_file(&lines);
    assert_eq!(records.len(), 1);
    assert_eq!(records[0].timestamp, ts(2021, 3, 4, 5, 6, 7));
    assert_eq!(records[0].weight, 0);
    // A weight failure is not a diagnosed failure.
    assert_eq!(diagnostics.len(), 0);
}

#[test]
fn missing_trailing_separator_fails_weight_field() {
    let line = String::from("\"2021-03-04 05:06:07\",83.5");
    let (record, error) = parse_line(&line);
    assert!(!error);
    assert_eq!(record.weight, 0);
}

#[test]
fn first_three_lines_never_diagnosed() {
    let lines = vec![
        String::from("header"),
        String::from("junk"),
        String::from("more junk"),
        String::from("still junk"),
        String::from("\"2021-03-04 05:06:07\",83.5,"),
    ];
    let (records, diagnostics) = parse_file(&lines);
    assert_eq!(records.len(), 1);
    assert_eq!(diagnostics.len(), 1);
    assert_eq!(diagnostics[0].index, 3);
    assert_eq!(diagnostics[0].line, "still junk");
    assert_eq!(diagnostics[0].message(), "could not parse: timestamp");
}

#[test]
fn weight_field_value_and_closing_separator() {
    // The field is cut at the first comma: "81,5" is never read as 81.5,
    // and the returned position is that separator's index.
    let cs: Vec<char> = ",81,5,".chars().collect();
    assert_eq!(parse_float(&cs, 0), Ok((81_000, 3)));
    let cs2: Vec<char> = ",83.5,tail".chars().collect();
    assert_eq!(parse_float(&cs2, 0), Ok((83_500, 5)));
    let cs3: Vec<char> = ",83.5".chars().collect();
    assert_eq!(parse_float(&cs3, 0), Err("could not parse: weight float"));
}

#[test]
fn timestamp_field_value_and_closing_separator() {
    let cs: Vec<char> = "\"2021-03-04 05:06:07\",83.5,".chars().collect();
    let (t, p) = parse_timestamp(&cs, 0).unwrap();
    assert_eq!(t, ts(2021, 3, 4, 5, 6, 7));
    assert_eq!(p, 21);
    assert_eq!(cs[p], ',');
}

#[test]
fn sort_is_stable_and_chronological() {
    let a = rec(2021, 3, 4, 1_000);
    let b = rec(2020, 3, 4, 2_000);
    let c = WeightLine { timestamp: ts(2021, 3, 4, 12, 0, 0), weight: 3_000 };
    let mut data = vec![a, b, c];
    sort_records(&mut data);
    assert_eq!(data[0].weight, 2_000);
    // a and c carry the same timestamp: input order is kept.
    assert_eq!(data[1].weight, 1_000);
    assert_eq!(data[2].weight, 3_000);
}

#[test]
fn aggregation_buckets_tile_store_with_ascending_keys() {
    let data = vec![
        rec(2020, 11, 3, 1_000),
        rec(2020, 12, 1, 2_000),
        rec(2020, 12, 9, 3_000),
        rec(2021, 1, 5, 4_000),
    ];
    let agg = fill_maps(&data);
    assert_eq!(agg.years.len(), 2);
    assert_eq!(agg.years[0].year, 2020);
    assert_eq!(agg.years[1].year, 2021);
    assert_eq!((agg.years[0].start, agg.years[0].end), (0, 3));
    assert_eq!((agg.years[1].start, agg.years[1].end), (3, 4));
    let months0: Vec<(u32, usize, usize)> =
        agg.years[0].months.iter().map(|m| (m.month, m.start, m.end)).collect();
    assert_eq!(months0, vec![(11, 0, 1), (12, 1, 3)]);
    let months1: Vec<(u32, usize, usize)> =
        agg.years[1].months.iter().map(|m| (m.month, m.start, m.end)).collect();
    assert_eq!(months1, vec![(1, 3, 4)]);
}

#[test]
fn trend_of_single_dot_is_that_dot() {
    let dots = vec![(0_i64, 10_000_i64)];
    let trend = trend_points(&dots);
    assert_eq!(trend, vec![(0, 10_000)]);
}

#[test]
fn trend_of_three_dots_window_three() {
    // Positions 0, 1, 2 with weights 10, 20, 30: the seed point, then one
    // final point at position 2 with the window average (10+20+30)/3 = 20.
    let dots = vec![(0_i64, 10_000_i64), (1, 20_000), (2, 30_000)];
    let trend = trend_points(&dots);
    assert_eq!(trend, vec![(0, 10_000), (2, 20_000)]);
}

#[test]
fn trend_emits_on_fourth_dot() {
    let dots = vec![(0_i64, 10_000_i64), (1, 20_000), (2, 30_000), (3, 40_000)];
    let trend = trend_points(&dots);
    assert_eq!(trend, vec![(0, 10_000), (3, 25_000)]);
}

#[test]
fn statistics_of_three_weights() {
    let data = vec![rec(2021, 1, 1, 1_000), rec(2021, 1, 2, 2_000), rec(2021, 1, 3, 3_000)];
    let spec = plot(&data, 0, 3, "complete", PlotType::FULL).unwrap();
    // The summary overlay is present exactly because the series has more
    // than two records.
    let summary = spec.summary.expect("summary present for len > 2");
    assert_eq!(summary.val_min, 1_000);
    assert_eq!(summary.val_max, 3_000);
    assert_eq!(summary.val_avg, 2_000);
    assert_eq!(summary.min_label, "1");
    assert_eq!(summary.max_label, "3");
    assert_eq!(summary.avg_label, "2");
    assert_eq!(summary.label_x, 1);
    assert_eq!(spec.y_min, 1_000 - 5_000);
    assert_eq!(spec.y_max, 3_000 + 5_000);
}

#[test]
fn no_summary_for_two_records() {
    let data = vec![rec(2021, 1, 1, 1_000), rec(2021, 1, 2, 2_000)];
    let spec = plot(&data, 0, 2, "complete", PlotType::FULL).unwrap();
    assert!(spec.summary.is_none());
}

#[test]
fn empty_series_is_an_explicit_error() {
    let data: Vec<WeightLine> = Vec::new();
    let result = plot(&data, 0, 0, "complete", PlotType::FULL);
    let err = result.err().expect("empty series must fail");
    assert_eq!(err.message(), "cannot plot an empty series");
}

#[test]
fn duplicate_positions_coalesced_for_line_and_trend() {
    // Two records on the same day: both are dots, one enters the line.
    let mut data = vec![rec(2021, 1, 1, 1_000), rec(2021, 1, 1, 2_000), rec(2021, 1, 2, 3_000)];
    data[1].timestamp.hour = 13;
    let spec = plot(&data, 0, 3, "t", PlotType::MONTH).unwrap();
    assert_eq!(spec.dots, vec![(0, 1_000), (0, 2_000), (1, 3_000)]);
    assert_eq!(spec.line_dots, vec![(0, 1_000), (1, 3_000)]);
    assert_eq!(spec.trend[0], (0, 1_000));
}

#[test]
fn end_to_end_two_months_one_year() {
    let lines = vec![
        String::from("\"2021-01-03 08:00:00\",80.0,"),
        String::from("\"2021-01-15 08:00:00\",81.5,"),
        String::from("\"2021-01-28 08:00:00\",79.0,"),
        String::from("\"2021-02-04 08:00:00\",78.5,"),
        String::from("\"2021-02-18 08:00:00\",77.0,"),
    ];
    let out = pipeline(&lines);
    assert_eq!(out.records.len(), 5);
    assert_eq!(out.charts.complete.path, "complete.png");
    assert_eq!(out.charts.years.len(), 1);
    assert_eq!(out.charts.years[0].path, "2021_full.png");
    assert_eq!(out.charts.years[0].title, "2021_full");
    assert_eq!(out.charts.months.len(), 2);
    assert_eq!(out.charts.months[0].path, "2021_01.png");
    assert_eq!(out.charts.months[1].path, "2021_02.png");
    assert!(out.charts.complete.result.is_ok());
    assert!(out.charts.years[0].result.is_ok());
    assert!(out.charts.months[0].result.is_ok());
    assert!(out.charts.months[1].result.is_ok());
}

#[test]
fn pipeline_is_deterministic() {
    let lines = vec![
        String::from("junk header"),
        String::from("\"2020-12-31 23:59:59\",70.25,"),
        String::from("\"2021-01-03 08:00:00\",80.0,"),
        String::from("\"2021-01-15 08:00:00\",oops,"),
        String::from("\"2021-02-18 08:00:00\",77.0,extra,fields,"),
    ];
    let first = pipeline(&lines);
    let second = pipeline(&lines);
    assert_eq!(first, second);
}

#[test]
fn unsorted_input_is_sorted_by_pipeline() {
    let lines = vec![
        String::from("\"2021-02-18 08:00:00\",77.0,"),
        String::from("\"2021-01-03 08:00:00\",80.0,"),
    ];
    let out = pipeline(&lines);
    assert_eq!(out.records[0].timestamp.month, 1);
    assert_eq!(out.records[1].timestamp.month, 2);
}

#[test]
fn axis_labels_walk_the_calendar() {
    let start = Date { year: 2021, month: 1, day: 31 };
    assert_eq!(format_duration_as_date(0, &start), "31.1.");
    assert_eq!(format_duration_as_date(1, &start), "1.2.");
    let leap = Date { year: 2020, month: 2, day: 28 };
    assert_eq!(format_duration_as_date(1, &leap), "29.2.");
    let plain = Date { year: 2021, month: 2, day: 28 };
    assert_eq!(format_duration_as_date(1, &plain), "1.3.");
}

#[test]
fn day_offsets_cross_month_boundaries() {
    let start = Date { year: 2021, month: 1, day: 31 };
    let t = ts(2021, 2, 2, 0, 0, 0);
    assert_eq!(to_duration(&t, &start), 2);
}

#[test]
fn number_rendering() {
    assert_eq!(u64_to_string(0), "0");
    assert_eq!(u64_to_string(2021), "2021");
    assert_eq!(u64_to_string(10), "10");
}

#[test]
fn labels_round_to_one_decimal() {
    assert_eq!(milli_to_label(83_500), "83.5");
    assert_eq!(milli_to_label(76_250), "76.3");
    assert_eq!(milli_to_label(2_000), "2");
    assert_eq!(milli_to_label(-2_500), "-2.5");
}

#[test]
fn build_path_appends_extension() {
    assert_eq!(build_path("complete"), "complete.png");
    assert_eq!(build_path("2021_02"), "2021_02.png");
}
