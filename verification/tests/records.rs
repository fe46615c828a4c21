use billing_fold::parse_record;
use billing_fold::Error;

fn line(s: &str) -> Vec<u8> {
    s.as_bytes().to_vec()
}

fn avg_f64(r: &billing_fold::BillingRecord) -> Option<f64> {
    r.avg.as_ref().map(|a| a.sum as f64 / (a.count as f64 * 1e9))
}

#[test]
fn average_is_calculated() {
    let input = line(
        "{\"name\":\"alpha\",\"billing_code\":\"1\",\"negotiated_rates\":[\
         {\"negotiated_prices\":[{\"negotiated_rate\":10}]},\
         {\"negotiated_prices\":[]},\
         {\"negotiated_prices\":[{\"negotiated_rate\":20},{\"negotiated_rate\":60}]}]}",
    );
    let actual = parse_record(&input).unwrap();
    assert_eq!(actual.name, b"alpha".to_vec());
    assert_eq!(actual.billing_code, b"1".to_vec());
    assert_eq!(avg_f64(&actual), Some(30.0));
}

#[test]
fn average_is_none_when_no_rates() {
    let input = line("{\"name\":\"alpha\",\"billing_code\":\"1\",\"negotiated_rates\":[]}");
    let actual = parse_record(&input).unwrap();
    assert!(actual.avg.is_none());
}

#[test]
fn average_is_none_when_rates_absent() {
    let input = line("{\"name\":\"alpha\",\"billing_code\":\"1\"}");
    let actual = parse_record(&input).unwrap();
    assert!(actual.avg.is_none());
}

#[test]
fn average_is_none_when_rates_null() {
    let input = line("{\"name\":\"alpha\",\"billing_code\":\"1\",\"negotiated_rates\":null}");
    let actual = parse_record(&input).unwrap();
    assert!(actual.avg.is_none());
}

#[test]
fn empty_group_contributes_no_weight() {
    let input = line(
        "{\"name\":\"a\",\"billing_code\":\"1\",\"negotiated_rates\":[\
         {\"negotiated_prices\":[]},\
         {\"negotiated_prices\":[{\"negotiated_rate\":10}]}]}",
    );
    let actual = parse_record(&input).unwrap();
    let a = actual.avg.unwrap();
    assert_eq!(a.sum, 10_000_000_000);
    assert_eq!(a.count, 1);
}

#[test]
fn null_prices_contribute_no_weight() {
    let input = line(
        "{\"name\":\"a\",\"billing_code\":\"1\",\"negotiated_rates\":[\
         {\"negotiated_prices\":null},\
         {\"negotiated_prices\":[{\"negotiated_rate\":10}]}]}",
    );
    let actual = parse_record(&input).unwrap();
    let a = actual.avg.unwrap();
    assert_eq!(a.sum, 10_000_000_000);
    assert_eq!(a.count, 1);
}

#[test]
fn absent_prices_contribute_no_weight() {
    let input = line(
        "{\"name\":\"a\",\"billing_code\":\"1\",\"negotiated_rates\":[\
         {},\
         {\"negotiated_prices\":[{\"negotiated_rate\":10}]}]}",
    );
    let actual = parse_record(&input).unwrap();
    let a = actual.avg.unwrap();
    assert_eq!(a.sum, 10_000_000_000);
    assert_eq!(a.count, 1);
}

#[test]
fn mean_flattens_across_groups() {
    let input = line(
        "{\"name\":\"a\",\"billing_code\":\"1\",\"negotiated_rates\":[\
         {\"negotiated_prices\":[{\"negotiated_rate\":10}]},\
         {\"negotiated_prices\":[{\"negotiated_rate\":20},{\"negotiated_rate\":60}]}]}",
    );
    let actual = parse_record(&input).unwrap();
    assert_eq!(avg_f64(&actual), Some(30.0));
    let a = actual.avg.unwrap();
    assert_eq!(a.sum, 90_000_000_000);
    assert_eq!(a.count, 3);
}

#[test]
fn mean_is_order_invariant() {
    let one = line(
        "{\"name\":\"a\",\"billing_code\":\"1\",\"negotiated_rates\":[\
         {\"negotiated_prices\":[{\"negotiated_rate\":10}]},\
         {\"negotiated_prices\":[{\"negotiated_rate\":20},{\"negotiated_rate\":60}]}]}",
    );
    let two = line(
        "{\"name\":\"a\",\"billing_code\":\"1\",\"negotiated_rates\":[\
         {\"negotiated_prices\":[{\"negotiated_rate\":60},{\"negotiated_rate\":10}]},\
         {\"negotiated_prices\":[{\"negotiated_rate\":20}]}]}",
    );
    let r1 = parse_record(&one).unwrap().avg.unwrap();
    let r2 = parse_record(&two).unwrap().avg.unwrap();
    assert_eq!(r1.sum, r2.sum);
    assert_eq!(r1.count, r2.count);
}

#[test]
fn decimal_and_exponent_forms_are_exact() {
    let input = line(
        "{\"name\":\"a\",\"billing_code\":\"1\",\"negotiated_rates\":[\
         {\"negotiated_prices\":[\
         {\"negotiated_rate\":10.5},\
         {\"negotiated_rate\":2.5e1},\
         {\"negotiated_rate\":-5},\
         {\"negotiated_rate\":1e-9},\
         {\"negotiated_rate\":0.000000001}]}]}",
    );
    let a = parse_record(&input).unwrap().avg.unwrap();
    assert_eq!(a.sum, 10_500_000_000 + 25_000_000_000 - 5_000_000_000 + 1 + 1);
    assert_eq!(a.count, 5);
}

#[test]
fn unknown_fields_are_skipped() {
    let input = line(
        "{\"spam\":{\"x\":[1,2,{\"y\":\"z\"}],\"w\":null},\"name\":\"a\",\
         \"billing_code\":\"1\",\"also\":[true,false,-1.5e-2],\
         \"negotiated_rates\":[{\"extra\":\"v\",\"negotiated_prices\":\
         [{\"note\":[],\"negotiated_rate\":10}]}]}",
    );
    let actual = parse_record(&input).unwrap();
    let a = actual.avg.unwrap();
    assert_eq!(a.sum, 10_000_000_000);
    assert_eq!(a.count, 1);
}

#[test]
fn string_escapes_are_decoded() {
    let input = line(
        "{\"name\":\"a\\u0041\\n\\\"\",\"billing_code\":\"\\ud83d\\ude00\",\
         \"negotiated_rates\":[]}",
    );
    let actual = parse_record(&input).unwrap();
    assert_eq!(actual.name, b"aA\n\"".to_vec());
    assert_eq!(actual.billing_code, "\u{1F600}".as_bytes().to_vec());
}

#[test]
fn missing_name_is_an_error() {
    let input = line("{\"billing_code\":\"1\",\"negotiated_rates\":[]}");
    assert_eq!(parse_record(&input).unwrap_err(), Error::MissingField);
}

#[test]
fn missing_rate_in_observation_is_an_error() {
    let input = line(
        "{\"name\":\"a\",\"billing_code\":\"1\",\"negotiated_rates\":[\
         {\"negotiated_prices\":[{\"other\":1}]}]}",
    );
    assert_eq!(parse_record(&input).unwrap_err(), Error::MissingField);
}

#[test]
fn duplicate_field_is_an_error() {
    let input = line("{\"name\":\"a\",\"name\":\"b\",\"billing_code\":\"1\"}");
    assert_eq!(parse_record(&input).unwrap_err(), Error::DuplicateField);
}

#[test]
fn malformed_json_is_an_error() {
    assert_eq!(parse_record(&line("{\"name\":\"a\"")).unwrap_err(), Error::Syntax);
    assert_eq!(parse_record(&line("not json")).unwrap_err(), Error::Syntax);
    assert_eq!(
        parse_record(&line("{\"name\":\"a\",\"billing_code\":\"1\"} tail")).unwrap_err(),
        Error::Syntax
    );
    let leading_zero = line(
        "{\"name\":\"a\",\"billing_code\":\"1\",\"negotiated_rates\":[\
         {\"negotiated_prices\":[{\"negotiated_rate\":01}]}]}",
    );
    assert_eq!(parse_record(&leading_zero).unwrap_err(), Error::Syntax);
}

#[test]
fn rate_out_of_range_is_an_error() {
    let huge = line(
        "{\"name\":\"a\",\"billing_code\":\"1\",\"negotiated_rates\":[\
         {\"negotiated_prices\":[{\"negotiated_rate\":1e300}]}]}",
    );
    assert_eq!(parse_record(&huge).unwrap_err(), Error::RangeExceeded);
    let too_fine = line(
        "{\"name\":\"a\",\"billing_code\":\"1\",\"negotiated_rates\":[\
         {\"negotiated_prices\":[{\"negotiated_rate\":0.0000000001}]}]}",
    );
    assert_eq!(parse_record(&too_fine).unwrap_err(), Error::RangeExceeded);
}

#[test]
fn huge_exponent_in_skipped_field_is_fine() {
    let input = line(
        "{\"ignored\":1e999999,\"name\":\"a\",\"billing_code\":\"1\",\
         \"negotiated_rates\":[]}",
    );
    assert!(parse_record(&input).is_ok());
}

#[test]
fn many_leaves_fold_in_one_pass() {
    let mut s = String::from("{\"name\":\"a\",\"billing_code\":\"1\",\"negotiated_rates\":[{\"negotiated_prices\":[");
    for k in 0..5000 {
        if k > 0 {
            s.push(',');
        }
        s.push_str("{\"negotiated_rate\":5}");
    }
    s.push_str("]}]}");
    let a = parse_record(&line(&s)).unwrap().avg.unwrap();
    assert_eq!(a.count, 5000);
    assert_eq!(a.sum, 5_000_000_000 * 5000);
}
