use measurements::lexical::{order_of, Order};
use measurements::parse::{
    all_digits, is_exponent, is_number, is_plain_number, process_line, ParseError,
};
use measurements::pipeline::{challenge, Pipeline};
use measurements::report::{
    elapsed_text, push_bytes, push_decimal, write_line, write_results, Figures,
};
use measurements::table::{StationMeasurements, StationTable};

fn lines_of(texts: &[&str]) -> Vec<Vec<u8>> {
    texts.iter().map(|t| t.as_bytes().to_vec()).collect()
}

/// Minimum, maximum, sum and count of one slot.
struct Tally {
    min: f64,
    max: f64,
    sum: f64,
    count: u64,
}

fn figures_of(tally: &Tally) -> Figures {
    Figures {
        min: format!("{:.1}", tally.min).into_bytes(),
        mean: format!("{:.1}", tally.sum / tally.count as f64 + 0.001).into_bytes(),
        max: format!("{:.1}", tally.max).into_bytes(),
    }
}

fn value_of(text: &[u8]) -> f64 {
    std::str::from_utf8(text).unwrap().parse().unwrap()
}

/// Runs the library on the lines and does with floats what it hands back.
fn run(texts: &[&str]) -> (String, usize, usize) {
    let lines = lines_of(texts);
    let (pipeline, steps) = challenge(&lines).unwrap();
    let mut tallies: Vec<Tally> = Vec::new();
    for step in steps.iter() {
        if let Some((slot, fresh, text)) = step {
            let v = value_of(text);
            if *fresh {
                assert_eq!(*slot, tallies.len());
                tallies.push(Tally { min: v, max: v, sum: v, count: 1 });
            } else {
                let t = &mut tallies[*slot];
                t.min = t.min.min(v);
                t.max = t.max.max(v);
                t.sum += v;
                t.count += 1;
            }
        }
    }
    let figures: Vec<Figures> = tallies.iter().map(figures_of).collect();
    let mut output: Vec<u8> = Vec::new();
    pipeline.finish(&figures, &mut output);
    (
        String::from_utf8(output).unwrap(),
        pipeline.lines() as usize,
        pipeline.stations(),
    )
}

fn figures(min: &str, mean: &str, max: &str) -> Figures {
    Figures {
        min: min.as_bytes().to_vec(),
        mean: mean.as_bytes().to_vec(),
        max: max.as_bytes().to_vec(),
    }
}

#[test]
fn test_process_line() {
    let line = "station1;1.0";
    let (name, measurement) = process_line(line.as_bytes()).unwrap().unwrap();
    assert_eq!(name, "station1".as_bytes());
    assert_eq!(value_of(measurement), 1.0);
}

#[test]
fn whole_run_of_four_values() {
    let (report, lines, stations) = run(&["x;5.0\n", "x;20.0\n", "x;-5.0\n", "x;-15.0\n"]);
    assert_eq!(format!("{:.1}", 1.251), "1.3");
    assert_eq!(report, "x=-15.0/1.3/20.0\n");
    assert_eq!((lines, stations), (4, 1));
}

#[test]
fn every_decimal_number_is_accepted() {
    for text in [
        "1.0", "-99.9", "+3.4", "0.0", "-0.0", "7", "-12", "007.5", "1.", ".5", "-.5", "+.5",
        "1.25", "-12345.678", "0.0000000001", "1.1234567891", "9223372037", "1e10", "1e-10",
        "1E1", "1e+2", "1.5E-2", ".5e1", "5.e-1", "0e99999999999999999999999",
        "123456789012345678901234567890.123456789012345678901234567890",
        "1e-99999999999999999999999", "3.14159", "-273.15",
    ] {
        assert!(is_number(text.as_bytes()), "{}", text);
        assert!(text.parse::<f64>().is_ok(), "{}", text);
        let line = format!("a;{}\n", text);
        let (name, measurement) = process_line(line.as_bytes()).unwrap().unwrap();
        assert_eq!(name, b"a");
        assert_eq!(measurement, text.as_bytes());
    }
}

#[test]
fn what_is_no_decimal_number_is_refused() {
    for text in [
        "", "-", "+", ".", "-.", "1..0", "1.0.0", "1.-5", "inf", "NaN", "infinity", "1.x",
        "abc", "1 .0", "--1.0", "1.0 ", "1,5", "1e", "e5", "1e+", "1e-", "1e5.0", "1e1e1",
        ".e1", "1e 1", "0x10", "1_000",
    ] {
        assert!(!is_number(text.as_bytes()), "{}", text);
    }
}

#[test]
fn plain_numbers_have_no_exponent() {
    assert!(is_plain_number(b"1.5"));
    assert!(is_plain_number(b"-1"));
    assert!(is_plain_number(b".5"));
    assert!(!is_plain_number(b"1e1"));
    assert!(!is_plain_number(b""));
    assert!(!is_plain_number(b"+"));
    assert!(!is_plain_number(b"."));
}

#[test]
fn exponents_are_signed_digits() {
    assert!(is_exponent(b"0"));
    assert!(is_exponent(b"+7"));
    assert!(is_exponent(b"-19"));
    assert!(is_exponent(b"007"));
    assert!(!is_exponent(b""));
    assert!(!is_exponent(b"-"));
    assert!(!is_exponent(b"1.0"));
    assert!(!is_exponent(b"x"));
}

#[test]
fn digits_are_told_from_other_bytes() {
    assert!(all_digits(b""));
    assert!(all_digits(b"0123456789"));
    assert!(!all_digits(b"12a"));
    assert!(!all_digits(b"/"));
    assert!(!all_digits(b":"));
}

#[test]
fn bytes_are_pushed_after_what_is_there() {
    let mut out = b"ab".to_vec();
    push_bytes(&mut out, b"cd");
    push_bytes(&mut out, b"");
    assert_eq!(out, b"abcd".to_vec());
}

#[test]
fn decimal_digits_are_pushed_after_what_is_there() {
    let mut out = b"x".to_vec();
    push_decimal(&mut out, 0);
    push_decimal(&mut out, 907);
    push_decimal(&mut out, u64::MAX);
    assert_eq!(out, b"x090718446744073709551615".to_vec());
}

#[test]
fn line_without_separator_is_malformed() {
    assert_eq!(process_line(b"station1"), Err(ParseError::MissingSeparator));
    assert_eq!(process_line(b"station1 1.0\n"), Err(ParseError::MissingSeparator));
    assert_eq!(process_line(b" "), Err(ParseError::MissingSeparator));
}

#[test]
fn line_with_bad_measurement_is_malformed() {
    assert_eq!(process_line(b"station1;abc"), Err(ParseError::InvalidMeasurement));
    assert_eq!(process_line(b"station1;"), Err(ParseError::InvalidMeasurement));
    assert_eq!(process_line(b"station1;1.0;2.0"), Err(ParseError::InvalidMeasurement));
    assert_eq!(process_line(b"station1;1.0 \n"), Err(ParseError::InvalidMeasurement));
    assert_eq!(process_line(b"station1;NaN\n"), Err(ParseError::InvalidMeasurement));
}

#[test]
fn empty_line_holds_no_record() {
    assert_eq!(process_line(b""), Ok(None));
    assert_eq!(process_line(b"\n"), Ok(None));
    assert_eq!(process_line(b"\r\n"), Ok(None));
}

#[test]
fn line_terminator_is_trimmed() {
    assert_eq!(process_line(b"a;1.5\n"), Ok(Some((&b"a"[..], &b"1.5"[..]))));
    assert_eq!(process_line(b"a;1.5\r\n"), Ok(Some((&b"a"[..], &b"1.5"[..]))));
    assert_eq!(process_line(b"a;1.5\n\n"), Err(ParseError::InvalidMeasurement));
}

#[test]
fn line_is_split_at_the_first_separator() {
    assert_eq!(process_line(b";1.5"), Ok(Some((&b""[..], &b"1.5"[..]))));
    assert_eq!(process_line(b"a b;-1.5"), Ok(Some((&b"a b"[..], &b"-1.5"[..]))));
    assert_eq!(process_line(b"a;b;1.5"), Err(ParseError::InvalidMeasurement));
}

#[test]
fn names_are_ordered_byte_by_byte() {
    assert_eq!(order_of(b"Abha", b"Munich"), Order::Before);
    assert_eq!(order_of(b"Zurich", b"Munich"), Order::After);
    assert_eq!(order_of(b"Abha", b"Abha"), Order::Same);
    assert_eq!(order_of(b"", b""), Order::Same);
    assert_eq!(order_of(b"", b"a"), Order::Before);
    assert_eq!(order_of(b"ab", b"a"), Order::After);
    assert_eq!(order_of(b"Z", b"a"), Order::Before);
    assert_eq!(order_of("é".as_bytes(), b"z"), Order::After);
    assert_eq!(order_of(&[0x7f], &[0x80]), Order::Before);
}

#[test]
fn table_keeps_one_slot_for_each_station() {
    let mut table = StationTable::new();
    assert_eq!(table.len(), 0);
    assert_eq!(table.slot_of(b"Zurich"), (0, true));
    assert_eq!(table.slot_of(b"Abha"), (1, true));
    assert_eq!(table.slot_of(b"Zurich"), (0, false));
    assert_eq!(table.slot_of(b"Munich"), (2, true));
    assert_eq!(table.slot_of(b"Abha"), (1, false));
    assert_eq!(table.len(), 3);
    let sorted = table.sort_results();
    let names: Vec<&[u8]> = sorted.iter().map(|e| e.name.as_slice()).collect();
    assert_eq!(names, vec![&b"Abha"[..], &b"Munich"[..], &b"Zurich"[..]]);
    let slots: Vec<usize> = sorted.iter().map(|e| e.slot).collect();
    assert_eq!(slots, vec![1, 2, 0]);
}

#[test]
fn table_copies_the_name() {
    let mut table = StationTable::new();
    let mut buffer = b"Abha".to_vec();
    table.slot_of(&buffer);
    buffer.clear();
    buffer.extend_from_slice(b"Zurich");
    table.slot_of(&buffer);
    buffer[0] = b'X';
    let sorted = table.sort_results();
    assert_eq!(sorted[0].name, b"Abha".to_vec());
    assert_eq!(sorted[1].name, b"Zurich".to_vec());
}

#[test]
fn report_line_has_min_mean_max() {
    let mut out: Vec<u8> = Vec::new();
    write_line(b"Zurich", &figures("-9.3", "9.2", "25.1"), &mut out);
    assert_eq!(String::from_utf8(out).unwrap(), "Zurich=-9.3/9.2/25.1\n");
}

#[test]
fn report_keeps_the_given_order_and_what_was_written() {
    let a = StationMeasurements { name: b"b".to_vec(), slot: 1 };
    let b = StationMeasurements { name: b"a".to_vec(), slot: 0 };
    let all = vec![figures("0.2", "0.2", "0.2"), figures("0.1", "0.1", "0.1")];
    let mut out = b"head\n".to_vec();
    write_results(&[&a, &b], &all, &mut out);
    assert_eq!(String::from_utf8(out).unwrap(), "head\nb=0.1/0.1/0.1\na=0.2/0.2/0.2\n");
    let mut out: Vec<u8> = Vec::new();
    write_results(&[], &all, &mut out);
    assert!(out.is_empty());
}

#[test]
fn stations_come_out_sorted() {
    let (report, lines, stations) = run(&["Zurich;1.0\n", "Abha;2.0\n", "Munich;3.0\n"]);
    assert_eq!(report, "Abha=2.0/2.0/2.0\nMunich=3.0/3.0/3.0\nZurich=1.0/1.0/1.0\n");
    assert_eq!(lines, 3);
    assert_eq!(stations, 3);
}

#[test]
fn whole_run_on_a_small_input() {
    let (report, lines, stations) = run(&[
        "Abha;-5.0\n",
        "Zurich;25.1\n",
        "Abha;39.2\n",
        "Zurich;-9.3\n",
        "Abha;19.7\n",
        "Zurich;11.8",
    ]);
    assert_eq!(report, "Abha=-5.0/18.0/39.2\nZurich=-9.3/9.2/25.1\n");
    assert_eq!(lines, 6);
    assert_eq!(stations, 2);
}

#[test]
fn whole_run_with_numbers_of_every_form() {
    let (report, lines, stations) = run(&[
        "Abha;-12345.678\n",
        "b;-0.04\n",
        "c;1e1\n",
        "c;25E-1\n",
        "d;0.0000000001\n",
        "e;1e10\n",
        "f;-0.0\n",
    ]);
    assert_eq!(
        report,
        "Abha=-12345.7/-12345.7/-12345.7\nb=-0.0/-0.0/-0.0\nc=2.5/6.3/10.0\nd=0.0/0.0/0.0\n\
         e=10000000000.0/10000000000.0/10000000000.0\nf=-0.0/0.0/-0.0\n"
    );
    assert_eq!((lines, stations), (7, 6));
}

#[test]
fn whole_run_on_one_line() {
    let (report, lines, stations) = run(&["Kunming;19.8\n"]);
    assert_eq!(report, "Kunming=19.8/19.8/19.8\n");
    assert_eq!((lines, stations), (1, 1));
}

#[test]
fn whole_run_on_nothing() {
    let (report, lines, stations) = run(&[]);
    assert_eq!(report, "");
    assert_eq!((lines, stations), (0, 0));
}

#[test]
fn whole_run_with_names_of_several_bytes() {
    let (report, _, stations) =
        run(&["Ürümqi;1.0\n", "São Paulo;2.0\n", "Zürich;3.0\n", "Zurich;4.0\n", "İzmir;5.0\n"]);
    assert_eq!(
        report,
        "São Paulo=2.0/2.0/2.0\nZurich=4.0/4.0/4.0\nZürich=3.0/3.0/3.0\nÜrümqi=1.0/1.0/1.0\nİzmir=5.0/5.0/5.0\n"
    );
    assert_eq!(stations, 5);
}

#[test]
fn whole_run_with_boundary_values() {
    let (report, _, _) = run(&["a;-99.9\n", "a;99.9\n", "b;0.0\n", "b;-0.1\n", "c;1.2\n", "c;1.3\n"]);
    assert_eq!(report, "a=-99.9/0.0/99.9\nb=-0.1/-0.0/0.0\nc=1.2/1.3/1.3\n");
}

#[test]
fn empty_lines_are_counted_and_skipped() {
    let (report, lines, stations) = run(&["a;1.0\n", "\n", "a;2.0\r\n", ""]);
    assert_eq!(report, "a=1.0/1.5/2.0\n");
    assert_eq!(lines, 4);
    assert_eq!(stations, 1);
}

#[test]
fn steps_say_what_to_do_with_each_line() {
    let lines = lines_of(&["b;1.0\n", "\n", "a;2.5\n", "b;-3\n"]);
    let (pipeline, steps) = challenge(&lines).unwrap();
    assert_eq!(
        steps,
        vec![
            Some((0, true, &b"1.0"[..])),
            None,
            Some((1, true, &b"2.5"[..])),
            Some((0, false, &b"-3"[..])),
        ]
    );
    assert_eq!(pipeline.lines(), 4);
    assert_eq!(pipeline.stations(), 2);
}

#[test]
fn malformed_line_stops_the_run() {
    let lines = lines_of(&["a;1.0\n", "b 2.0\n", "c;x\n"]);
    let r = challenge(&lines);
    assert_eq!(r.err(), Some(ParseError::MissingSeparator));
    let lines = lines_of(&["a;1.0\n", "c;x\n", "b 2.0\n"]);
    let r = challenge(&lines);
    assert_eq!(r.err(), Some(ParseError::InvalidMeasurement));
}

#[test]
fn order_of_records_does_not_matter() {
    let a = run(&["x;1.0\n", "y;2.0\n", "x;-3.5\n", "z;0.1\n", "y;2.1\n", "x;7.7\n"]);
    let b = run(&["x;7.7\n", "y;2.1\n", "z;0.1\n", "x;-3.5\n", "y;2.0\n", "x;1.0\n"]);
    let c = run(&["z;0.1\n", "x;-3.5\n", "x;1.0\n", "y;2.1\n", "x;7.7\n", "y;2.0\n"]);
    assert_eq!(a, b);
    assert_eq!(a, c);
    assert_eq!(a.0, "x=-3.5/1.7/7.7\ny=2.0/2.1/2.1\nz=0.1/0.1/0.1\n");
}

#[test]
fn many_distinct_stations() {
    let mut texts: Vec<String> = Vec::new();
    for i in (0..10_000).rev() {
        texts.push(format!("station{:05};{}.{}\n", i, i % 100, i % 10));
    }
    let lines: Vec<&str> = texts.iter().map(|t| t.as_str()).collect();
    let (text, count, stations) = run(&lines);
    assert_eq!((count, stations), (10_000, 10_000));
    let first = text.lines().next().unwrap();
    let last = text.lines().last().unwrap();
    assert_eq!(first, "station00000=0.0/0.0/0.0");
    assert_eq!(last, "station09999=99.9/99.9/99.9");
    assert_eq!(text.lines().count(), 10_000);
}

#[test]
fn pipeline_takes_lines_one_by_one() {
    let mut run = Pipeline::new();
    assert_eq!(run.lines(), 0);
    assert_eq!(run.stations(), 0);
    assert_eq!(run.feed(b"b;1.0\n"), Ok(Some((0, true, &b"1.0"[..]))));
    assert_eq!(run.feed(b"a;2.0\n"), Ok(Some((1, true, &b"2.0"[..]))));
    assert_eq!(run.feed(b"\n"), Ok(None));
    assert_eq!(run.feed(b"oops\n"), Err(ParseError::MissingSeparator));
    assert_eq!(run.feed(b"b;x\n"), Err(ParseError::InvalidMeasurement));
    assert_eq!(run.lines(), 3);
    assert_eq!(run.stations(), 2);
    assert_eq!(run.feed(b"b;3.0"), Ok(Some((0, false, &b"3.0"[..]))));
    let mut out: Vec<u8> = Vec::new();
    run.finish(&[figures("1.0", "2.0", "3.0"), figures("2.0", "2.0", "2.0")], &mut out);
    assert_eq!(String::from_utf8(out).unwrap(), "a=2.0/2.0/2.0\nb=1.0/2.0/3.0\n");
    assert_eq!(run.lines(), 4);
}

#[test]
fn elapsed_time_is_minutes_seconds_and_milliseconds() {
    assert_eq!(elapsed_text(125, 17), b"2m5.17s".to_vec());
    assert_eq!(elapsed_text(0, 0), b"0m0.0s".to_vec());
    assert_eq!(elapsed_text(59, 999), b"0m59.999s".to_vec());
    assert_eq!(elapsed_text(3600, 5), b"60m0.5s".to_vec());
}
