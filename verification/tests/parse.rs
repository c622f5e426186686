use confparse::parse;
use confparse::ConfError;
use confparse::ConfVecValue;
use confparse::SchemaType;
use confparse::validate;

fn config_lines() -> Vec<String> {
    vec![
        "endpoint = localhost:3000".to_string(),
        "debug = true".to_string(),
        "log.file = /var/log/console.log".to_string(),
    ]
}

fn schema_lines() -> Vec<String> {
    vec![
        "endpoint -> string".to_string(),
        "debug -> bool".to_string(),
        "log.file -> string".to_string(),
    ]
}

#[test]
fn can_parse_conf_with_schema() {
    let result = parse(&config_lines(), Some(&schema_lines()));
    assert!(result.is_ok());
    let conf = result.unwrap();
    assert_eq!(
        conf.to_vec(),
        vec![
            (
                "endpoint".to_string(),
                ConfVecValue::StrValue("localhost:3000".to_string())
            ),
            ("debug".to_string(), ConfVecValue::BoolValue(true)),
            (
                "log".to_string(),
                ConfVecValue::Conf(vec![(
                    "file".to_string(),
                    ConfVecValue::StrValue("/var/log/console.log".to_string())
                )])
            ),
        ]
    );
    assert!(conf.contains_key("endpoint"));
    assert!(conf.contains_key("log"));
    assert_eq!(
        conf.get("endpoint").unwrap().as_str().unwrap(),
        &"localhost:3000".to_string()
    );
    assert!(conf.get("endpoint").unwrap().as_bool().is_err());
    assert!(conf.get("debug").unwrap().as_bool().unwrap());
}

#[test]
fn can_parse_conf_without_schema() {
    let result = parse(&config_lines(), None);
    assert!(result.is_ok());
    assert_eq!(
        result.as_ref().unwrap().to_vec(),
        vec![
            (
                "endpoint".to_string(),
                ConfVecValue::StrValue("localhost:3000".to_string())
            ),
            (
                "debug".to_string(),
                ConfVecValue::StrValue("true".to_string())
            ),
            (
                "log".to_string(),
                ConfVecValue::Conf(vec![(
                    "file".to_string(),
                    ConfVecValue::StrValue("/var/log/console.log".to_string())
                )])
            ),
        ]
    );
}

#[test]
fn unknown_schema_type_aborts_parse() {
    let schema = vec!["debug -> boolean".to_string()];
    let result = parse(&config_lines(), Some(&schema));
    assert_eq!(result.err(), Some(ConfError::UnknownSchemaType));
}

#[test]
fn invalid_boolean_aborts_parse() {
    let config = vec!["debug = yes".to_string()];
    let schema = vec!["debug -> bool".to_string()];
    let result = parse(&config, Some(&schema));
    assert_eq!(result.err(), Some(ConfError::InvalidBoolean));
}

#[test]
fn invalid_number_aborts_parse() {
    let config = vec!["port = eighty".to_string()];
    let schema = vec!["port -> number".to_string()];
    let result = parse(&config, Some(&schema));
    assert_eq!(result.err(), Some(ConfError::InvalidNumber));
}

#[test]
fn number_values_keep_their_text() {
    let config = vec!["port = 8080".to_string(), "ratio = -1.5e3".to_string()];
    let schema = vec!["port -> number".to_string(), "ratio -> number".to_string()];
    let conf = parse(&config, Some(&schema)).unwrap();
    assert_eq!(
        conf.get("port").unwrap().as_number().unwrap(),
        &"8080".to_string()
    );
    assert_eq!(
        conf.get("ratio").unwrap().as_number().unwrap(),
        &"-1.5e3".to_string()
    );
    assert_eq!("8080".parse::<f64>().unwrap(), 8080.0);
    assert_eq!("-1.5e3".parse::<f64>().unwrap(), -1500.0);
}

#[test]
fn number_validation_matches_float_parsing() {
    let candidates = [
        "0", "8080", "-3", "+7", "1.", ".5", "3.25", "1.e5", "1e9", "1E+07", "2e-3", "inf",
        "-inf", "Infinity", "NaN", "nan", "", ".", "+", "-", "e5", "1e", "1e+", "--1", "1.2.3",
        "0x10", "five", "1 ", " 1", "1_000", "nan5", "1e5e5", "\u{221E}", "INFINITY", "iNf",
        "infi", "+.5", "-.", "..", ".e5", "1.5e", "1e05", "007", "9007199254740993", "1e999",
        "+nan", "\t1", "1\n", "e", "E2", "2E", "+e2", "5.e", ".0e0", "0.", "-0",
    ];
    for s in candidates {
        let accepted = validate(s, &SchemaType::Number).is_ok();
        assert_eq!(
            accepted,
            s.parse::<f64>().is_ok(),
            "number validation disagrees with float parsing on {:?}",
            s
        );
    }
}

#[test]
fn comment_and_blank_lines_contribute_nothing() {
    let config = vec![
        "# a comment".to_string(),
        "".to_string(),
        "   ".to_string(),
        "; another comment".to_string(),
        "  # indented comment".to_string(),
        "key = value".to_string(),
    ];
    let conf = parse(&config, None).unwrap();
    assert_eq!(
        conf.to_vec(),
        vec![(
            "key".to_string(),
            ConfVecValue::StrValue("value".to_string())
        )]
    );
}

#[test]
fn malformed_lines_are_skipped() {
    let config = vec![
        "noequals".to_string(),
        "= value".to_string(),
        "key =".to_string(),
        " = ".to_string(),
    ];
    let conf = parse(&config, None).unwrap();
    assert_eq!(conf.to_vec(), vec![]);
}

#[test]
fn undeclared_keys_default_to_strings() {
    let config = vec!["declared = 1".to_string(), "free = 1".to_string()];
    let schema = vec!["declared -> number".to_string()];
    let conf = parse(&config, Some(&schema)).unwrap();
    assert_eq!(
        conf.get("declared").unwrap().as_number().unwrap(),
        &"1".to_string()
    );
    assert_eq!(conf.get("free").unwrap().as_str().unwrap(), &"1".to_string());
}

#[test]
fn value_keeps_everything_after_first_equals() {
    let config = vec!["connection = host=db;port=5".to_string()];
    let conf = parse(&config, None).unwrap();
    assert_eq!(
        conf.get("connection").unwrap().as_str().unwrap(),
        &"host=db;port=5".to_string()
    );
}
