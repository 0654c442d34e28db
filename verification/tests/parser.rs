use rhisto::{ColumnParser, Error};

#[test]
fn parse_column_from_rows() {
    let parser = ColumnParser::single(1, ",");
    let result: Vec<f64> = vec!["1.0,2.0,3.0", "4.0,5.0,6.0", "7.0,8.0,9.0"]
        .into_iter()
        .map(|row| parser.parse_row(&row).unwrap()[0].parse::<f64>().unwrap())
        .collect();

    assert_eq!(result, vec![2.0, 5.0, 8.0]);
}

fn parse_all(vals: Vec<String>) -> Vec<f64> {
    vals.into_iter().map(|v| v.parse::<f64>().unwrap()).collect()
}

#[test]
fn missing_column() {
    let parser = ColumnParser::new(&[1], ",");
    let result: Vec<Result<Vec<f64>, Error>> = vec!["1.0,2.0,3.0", "4.0", "7.0,8.0,9.0"]
        .into_iter()
        .map(|row| parser.parse_row(&row).map(parse_all))
        .collect();

    assert_eq!(
        result,
        vec![
            Ok(vec![2.0]),
            Err(Error::MissingColumn("4.0".to_string(), 1)),
            Ok(vec![8.0])
        ]
    );
}

#[test]
fn failed_parse() {
    let parser = ColumnParser::new(&[1], ",");
    let result: Vec<Result<Vec<f64>, Error>> =
        vec!["1.0,2.0,3.0", "4.0,not_a_float,6.0", "7.0,8.0,9.0"]
            .into_iter()
            .map(|row| parser.parse_row(&row).map(parse_all))
            .collect();

    assert_eq!(
        result,
        vec![
            Ok(vec![2.0]),
            Err(Error::FailedParse(
                "not_a_float".to_string(),
                "f64".to_string()
            )),
            Ok(vec![8.0])
        ]
    );
}

#[test]
fn duplicate_columns_keep_first_appearance_order() {
    let parser = ColumnParser::new(&[2, 0, 2], ",");
    let vals = parser.parse_row("1.5,2.5,3.5").unwrap();
    assert_eq!(vals, vec!["3.5".to_string(), "1.5".to_string()]);
}

#[test]
fn multi_char_delimiter() {
    let parser = ColumnParser::new(&[1], "::");
    let vals = parser.parse_row("1.5::2.5::3.5").unwrap();
    assert_eq!(vals, vec!["2.5".to_string()]);
}

#[test]
fn empty_field_fails_parse() {
    let parser = ColumnParser::single(0, ",");
    let result = parser.parse_row(",1.0,");
    assert_eq!(
        result,
        Err(Error::FailedParse("".to_string(), "f64".to_string()))
    );
    let second = ColumnParser::single(1, ",");
    assert_eq!(second.parse_row(",1.0,").unwrap(), vec!["1.0".to_string()]);
}

#[test]
fn lenient_mode_skips_missing_column() {
    let parser = ColumnParser::with_mode(&[1], ",", true);
    assert_eq!(parser.parse_row_opt("4.0"), None);
    assert_eq!(
        parser.parse_row_opt("1.0,2.0"),
        Some(Ok(vec!["2.0".to_string()]))
    );
    assert_eq!(
        parser.parse_row_opt("1.0,bad"),
        Some(Err(Error::FailedParse(
            "bad".to_string(),
            "f64".to_string()
        )))
    );
}

#[test]
fn lenient_stream_drops_short_rows() {
    let parser = ColumnParser::with_mode(&[1], ",", true);
    let values: Vec<f64> = vec!["1.0,2.0", "3.0", "4.0,6.0"]
        .into_iter()
        .filter_map(|row| parser.parse_row_opt(row))
        .map(|row| row.unwrap()[0].parse::<f64>().unwrap())
        .collect();
    assert_eq!(values, vec![2.0, 6.0]);
}

#[test]
fn strict_mode_surfaces_missing_column() {
    let parser = ColumnParser::with_mode(&[1], ",", false);
    assert_eq!(
        parser.parse_row_opt("4.0"),
        Some(Err(Error::MissingColumn("4.0".to_string(), 1)))
    );
}

#[test]
fn accepted_numeric_forms() {
    let parser = ColumnParser::single(0, ",");
    let forms = vec![
        "0", "7", "2.5", ".5", "5.", "+3.25", "-0.125", "1e5", "2.5E-3", "+1.e4", "inf", "-inf",
        "Infinity", "nan", "NaN", "007.250",
    ];
    for form in forms {
        let vals = parser
            .parse_row(form)
            .unwrap_or_else(|e| panic!("{} rejected: {:?}", form, e));
        // The standard parser must agree with the acceptance decision.
        let parsed = vals[0].parse::<f64>();
        assert!(parsed.is_ok(), "{} accepted but unparsable", form);
    }
}

#[test]
fn rejected_numeric_forms() {
    let parser = ColumnParser::single(0, ";");
    let forms = vec![
        "", "+", "-", ".", "+.", "1.2.3", "1e", "1e+", "e5", "nan7", "infi", "0x10", " 1.0",
        "1.0 ", "two", "1_000", "--1",
    ];
    for form in forms {
        assert_eq!(
            parser.parse_row(form),
            Err(Error::FailedParse(form.to_string(), "f64".to_string())),
            "{} should be rejected",
            form
        );
        assert!(form.parse::<f64>().is_err(), "{} rejected but parsable", form);
    }
}
