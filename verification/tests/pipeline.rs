use billing_fold::process_line;
use billing_fold::run_pipeline;
use billing_fold::should_emit;
use billing_fold::Accumulator;
use billing_fold::Error;

fn line(s: &str) -> Vec<u8> {
    s.as_bytes().to_vec()
}

#[test]
fn filter_boundary_is_inclusive() {
    let at_bound = line(
        "{\"name\":\"a\",\"billing_code\":\"1\",\"negotiated_rates\":[\
         {\"negotiated_prices\":[{\"negotiated_rate\":30.0}]}]}",
    );
    let just_above = line(
        "{\"name\":\"a\",\"billing_code\":\"1\",\"negotiated_rates\":[\
         {\"negotiated_prices\":[{\"negotiated_rate\":30.0000001}]}]}",
    );
    let r1 = billing_fold::parse_record(&at_bound).unwrap();
    assert!(should_emit(&r1));
    assert!(matches!(process_line(&at_bound), Ok(Some(_))));
    let r2 = billing_fold::parse_record(&just_above).unwrap();
    assert!(!should_emit(&r2));
    assert!(matches!(process_line(&just_above), Ok(None)));
}

#[test]
fn record_without_average_is_dropped_silently() {
    let input = line("{\"name\":\"alpha\",\"billing_code\":\"1\",\"negotiated_rates\":[]}");
    assert!(matches!(process_line(&input), Ok(None)));
}

#[test]
fn scenario_line_is_emitted_as_row() {
    let input = line(
        "{\"name\":\"alpha\",\"billing_code\":\"1\",\"negotiated_rates\":[\
         {\"negotiated_prices\":[{\"negotiated_rate\":10}]},\
         {\"negotiated_prices\":[]},\
         {\"negotiated_prices\":[{\"negotiated_rate\":20},{\"negotiated_rate\":60}]}]}",
    );
    let r = process_line(&input).unwrap().expect("the record must be emitted");
    assert_eq!(r.name, b"alpha".to_vec());
    assert_eq!(r.billing_code, b"1".to_vec());
    let a = r.avg.as_ref().unwrap();
    let rendered = format!("{}", a.sum as f64 / (a.count as f64 * 1e9));
    assert_eq!(rendered, "30");
}

#[test]
fn pipeline_halts_on_first_malformed_line() {
    let good = line(
        "{\"name\":\"alpha\",\"billing_code\":\"1\",\"negotiated_rates\":[\
         {\"negotiated_prices\":[{\"negotiated_rate\":10}]}]}",
    );
    let bad = line("{\"name\":");
    let res = run_pipeline(&vec![good, bad]);
    match res {
        Err((ln, e)) => {
            assert_eq!(ln, 2);
            assert_eq!(e, Error::Syntax);
        },
        Ok(_) => panic!("the malformed second line must halt the run"),
    }
}

#[test]
fn pipeline_emits_surviving_rows_in_order() {
    let emitted = line(
        "{\"name\":\"alpha\",\"billing_code\":\"1\",\"negotiated_rates\":[\
         {\"negotiated_prices\":[{\"negotiated_rate\":10}]}]}",
    );
    let dropped_none = line("{\"name\":\"beta\",\"billing_code\":\"2\",\"negotiated_rates\":[]}");
    let dropped_high = line(
        "{\"name\":\"gamma\",\"billing_code\":\"3\",\"negotiated_rates\":[\
         {\"negotiated_prices\":[{\"negotiated_rate\":31}]}]}",
    );
    let emitted_too = line(
        "{\"name\":\"delta\",\"billing_code\":\"4\",\"negotiated_rates\":[\
         {\"negotiated_prices\":[{\"negotiated_rate\":30}]}]}",
    );
    let rows = run_pipeline(&vec![emitted, dropped_none, dropped_high, emitted_too]).unwrap();
    assert_eq!(rows.len(), 2);
    assert_eq!(rows[0].name, b"alpha".to_vec());
    assert_eq!(rows[1].name, b"delta".to_vec());
}

#[test]
fn accumulator_combines_pairwise() {
    let zero = Accumulator::zero();
    assert!(zero.finish().is_none());
    let one = Accumulator::zero().absorb_leaf(10_000_000_000).unwrap();
    let two = one.absorb_leaf(20_000_000_000).unwrap();
    let other = Accumulator::zero().absorb_leaf(60_000_000_000).unwrap();
    let both = two.absorb_group(&other).unwrap();
    assert_eq!(both.sum, 90_000_000_000);
    assert_eq!(both.count, 3);
    let a = both.finish().unwrap();
    assert_eq!(a.sum, 90_000_000_000);
    assert_eq!(a.count, 3);
}

#[test]
fn accumulator_overflow_is_reported() {
    let full = Accumulator { sum: i128::MAX, count: 1 };
    assert_eq!(full.absorb_leaf(1).unwrap_err(), Error::Overflow);
    let big = Accumulator { sum: i128::MAX, count: 1 };
    let one = Accumulator { sum: 1, count: 1 };
    assert_eq!(big.absorb_group(&one).unwrap_err(), Error::Overflow);
}
