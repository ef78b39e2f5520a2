use planetscale_driver::encoding::{from_base64, to_base64};
use planetscale_driver::parser::ParseError;
use planetscale_driver::response::{
    check_field_count, cut_columns, row_outcome, scalar_outcome, DriverError,
};
use planetscale_driver::structs::{ExecuteResponse, QueryResult, Row, Session, VitessError};
use planetscale_driver::{Deserializer, Parser};

#[derive(Debug, PartialEq)]
struct Pair {
    id: u32,
    name: String,
}

impl Deserializer for Pair {
    fn deserialize_raw(input: Vec<&str>) -> Result<Self, DriverError> {
        check_field_count(&input, 2)?;
        Ok(Pair {
            id: u32::custom_parse(input[0]).map_err(DriverError::Field)?,
            name: String::custom_parse(input[1]).map_err(DriverError::Field)?,
        })
    }
}

fn row(values: &[&str]) -> Row {
    let joined: String = values.concat();
    Row {
        lengths: values.iter().map(|v| v.len().to_string()).collect(),
        values: to_base64(&joined),
    }
}

fn answer(rows: Option<Vec<Row>>) -> ExecuteResponse {
    ExecuteResponse {
        session: Session::default(),
        result: Some(QueryResult { rows, ..QueryResult::default() }),
        error: None,
    }
}

#[test]
fn base64_round_trip_through_row() {
    let r = row(&["42", "héllo"]);
    assert_eq!(r.values, "NDJow6lsbG8=");
    assert_eq!(from_base64(&r.values), Some("42héllo".as_bytes().to_vec()));
    assert_eq!(r.lengths, vec!["2".to_string(), "6".to_string()]);
    let fields = r.try_fields().unwrap();
    assert_eq!(fields, vec!["42".to_string(), "héllo".to_string()]);
    assert_eq!(r.text(), Some("42héllo".to_string()));
}

#[test]
fn from_base64_refuses_bad_text() {
    assert_eq!(from_base64("@@@"), None);
    assert_eq!(from_base64(""), Some(vec![]));
    // Only the canonical text of some bytes is accepted.
    assert_eq!(from_base64("TWFu"), Some(b"Man".to_vec()));
    assert_eq!(from_base64("TWE="), Some(b"Ma".to_vec()));
    assert_eq!(from_base64("TQ=="), Some(b"M".to_vec()));
    assert_eq!(from_base64("TWE"), None);
    assert_eq!(from_base64("TQ"), None);
    assert_eq!(from_base64("TWF="), None);
    assert_eq!(from_base64("TR=="), None);
    assert_eq!(from_base64("TQ=A"), None);
    assert_eq!(from_base64("T==="), None);
    assert_eq!(from_base64("TWFu TWFu"), None);
}

#[test]
fn base64_digits_cover_the_whole_alphabet() {
    let bytes: Vec<u8> = vec![0x00, 0x10, 0x83, 0x10, 0x51, 0x87, 0x20, 0x92, 0x8b, 0x30, 0xd3, 0x8f,
        0x41, 0x14, 0x93, 0x51, 0x55, 0x97, 0x61, 0x96, 0x9b, 0x71, 0xd7, 0x9f, 0x82, 0x18, 0xa3,
        0x92, 0x59, 0xa7, 0xa2, 0x9a, 0xab, 0xb2, 0xdb, 0xaf, 0xc3, 0x1c, 0xb3, 0xd3, 0x5d, 0xb7,
        0xe3, 0x9e, 0xbb, 0xf3, 0xdf, 0xbf];
    let text = "ABCDEFGHIJKLMNOPQRSTUVWXYZabcdefghijklmnopqrstuvwxyz0123456789+/";
    assert_eq!(from_base64(text), Some(bytes));
}

#[test]
fn malformed_rows_give_no_fields() {
    let bad_base64 = Row { lengths: vec!["1".to_string()], values: "!!".to_string() };
    assert_eq!(bad_base64.try_fields(), None);
    let bad_length = Row { lengths: vec!["x".to_string()], values: to_base64("a") };
    assert_eq!(bad_length.try_fields(), None);
    let too_long = Row { lengths: vec!["2".to_string()], values: to_base64("a") };
    assert_eq!(too_long.try_fields(), None);
    // "é" is two bytes: a cut after one byte is not a character boundary.
    let split_char = Row { lengths: vec!["1".to_string(), "1".to_string()], values: to_base64("é") };
    assert_eq!(split_char.try_fields(), None);
    // Lengths that cover only part of the values are fine.
    let partial = Row { lengths: vec!["1".to_string()], values: to_base64("ab") };
    assert_eq!(partial.try_fields(), Some(vec!["a".to_string()]));
    let none = Row { lengths: vec![], values: to_base64("ab") };
    assert_eq!(none.try_fields(), Some(vec![]));
}

#[test]
fn deserialize_one_row() {
    let res = answer(Some(vec![row(&["7", "seven"])]));
    let p: Pair = res.deserialize().unwrap();
    assert_eq!(p, Pair { id: 7, name: "seven".to_string() });
}

#[test]
fn deserialize_errors() {
    let res = answer(Some(vec![row(&["1", "a"]), row(&["2", "b"])]));
    assert!(matches!(res.deserialize::<Pair>(), Err(DriverError::RowCount(2))));
    let res = answer(None);
    assert!(matches!(res.deserialize::<Pair>(), Err(DriverError::NoResults)));
    let res = ExecuteResponse::default();
    assert!(matches!(res.deserialize::<Pair>(), Err(DriverError::NoResults)));
    let res = answer(Some(vec![row(&["x", "a"])]));
    match res.deserialize::<Pair>() {
        Err(DriverError::Row(inner)) => {
            assert!(matches!(*inner, DriverError::Field(ParseError::InvalidDigit)))
        }
        other => panic!("unexpected {:?}", other),
    }
    let res = answer(Some(vec![row(&["1"])]));
    match res.deserialize::<Pair>() {
        Err(DriverError::Row(inner)) => {
            assert!(matches!(*inner, DriverError::FieldCount { expected: 2, got: 1 }))
        }
        other => panic!("unexpected {:?}", other),
    }
}

#[test]
fn deserialize_multiple_rows() {
    let res = answer(Some(vec![row(&["1", "a"]), row(&["2", "bb"]), row(&["3", ""])]));
    let all: Vec<Pair> = res.deserialize_multiple().unwrap();
    assert_eq!(
        all,
        vec![
            Pair { id: 1, name: "a".to_string() },
            Pair { id: 2, name: "bb".to_string() },
            Pair { id: 3, name: String::new() },
        ]
    );
    let empty = answer(Some(vec![]));
    assert_eq!(empty.deserialize_multiple::<Pair>().unwrap(), vec![]);
    assert!(matches!(answer(None).deserialize_multiple::<Pair>(), Err(DriverError::NoResults)));
    let bad = answer(Some(vec![row(&["1", "a"]), row(&["-2", "b"])]));
    assert!(matches!(bad.deserialize_multiple::<Pair>(), Err(DriverError::Row(_))));
}

#[test]
fn deserialize_scalar_value() {
    let res = answer(Some(vec![row(&["1"])]));
    assert_eq!(res.deserialize_scalar::<bool>().unwrap(), true);
    let res = answer(Some(vec![row(&["1234"])]));
    assert_eq!(res.deserialize_scalar::<i64>().unwrap(), 1234);
    let res = answer(Some(vec![row(&["12", "34"])]));
    assert!(matches!(
        res.deserialize_scalar::<i64>(),
        Err(DriverError::ScalarShape { rows: 1, values: 2 })
    ));
    let res = answer(Some(vec![row(&["1"]), row(&["2"])]));
    assert!(matches!(
        res.deserialize_scalar::<i64>(),
        Err(DriverError::ScalarShape { rows: 2, values: 1 })
    ));
    let res = answer(Some(vec![row(&["abc"])]));
    match res.deserialize_scalar::<i64>() {
        Err(DriverError::Scalar(t)) => assert_eq!(t, "abc"),
        other => panic!("unexpected {:?}", other),
    }
}

#[test]
fn read_reports_database_error_first() {
    let mut res = answer(Some(vec![row(&["1", "a"])]));
    res.error = Some(VitessError { message: "bad".to_string(), code: "42".to_string() });
    match res.read_one::<Pair>() {
        Err(DriverError::Vitess(e)) => {
            assert_eq!(e.code, "42");
            assert_eq!(e.message, "bad");
        }
        other => panic!("unexpected {:?}", other),
    }
    assert!(matches!(res.read_all::<Pair>(), Err(DriverError::Vitess(_))));
    assert!(matches!(res.read_scalar::<i64>(), Err(DriverError::Vitess(_))));
}

#[test]
fn read_reports_malformed_rows() {
    let bad = Row { lengths: vec!["5".to_string()], values: to_base64("a") };
    let res = answer(Some(vec![bad.clone()]));
    assert!(matches!(res.read_one::<Pair>(), Err(DriverError::MalformedRow)));
    let res = answer(Some(vec![row(&["1", "a"]), bad.clone()]));
    assert!(matches!(res.read_all::<Pair>(), Err(DriverError::MalformedRow)));
    let garbled = Row { lengths: vec!["1".to_string()], values: "%%%".to_string() };
    let res = answer(Some(vec![garbled]));
    assert!(matches!(res.read_scalar::<i64>(), Err(DriverError::MalformedRow)));
}

#[test]
fn read_gives_values() {
    let res = answer(Some(vec![row(&["5", "five"])]));
    assert_eq!(res.read_one::<Pair>().unwrap(), Pair { id: 5, name: "five".to_string() });
    assert_eq!(res.read_all::<Pair>().unwrap().len(), 1);
    let res = answer(Some(vec![row(&["0"])]));
    assert_eq!(res.read_scalar::<bool>().unwrap(), false);
}

#[test]
fn field_count_check() {
    assert!(check_field_count(&vec!["a", "b"], 2).is_ok());
    assert!(matches!(
        check_field_count(&vec!["a"], 2),
        Err(DriverError::FieldCount { expected: 2, got: 1 })
    ));
}

#[test]
fn columns_of_answers() {
    let res = answer(Some(vec![row(&["1", "ab", ""])]));
    assert_eq!(
        res.single_row_columns().unwrap(),
        vec!["1".to_string(), "ab".to_string(), String::new()]
    );
    let res = answer(Some(vec![row(&["1"]), row(&["2", "x"])]));
    assert!(matches!(res.single_row_columns(), Err(DriverError::RowCount(2))));
    let res = answer(Some(vec![row(&["-5"])]));
    assert_eq!(res.scalar_text().unwrap(), "-5");
}

#[test]
fn outcomes_wrap_errors() {
    assert_eq!(row_outcome::<u8>(Ok(3)).unwrap(), 3);
    match row_outcome::<u8>(Err(DriverError::NoResults)) {
        Err(DriverError::Row(inner)) => assert!(matches!(*inner, DriverError::NoResults)),
        other => panic!("unexpected {:?}", other),
    }
    assert_eq!(scalar_outcome("7".to_string(), Ok(7u8)).unwrap(), 7);
    match scalar_outcome::<u8>("x".to_string(), Err(ParseError::InvalidDigit)) {
        Err(DriverError::Scalar(t)) => assert_eq!(t, "x"),
        other => panic!("unexpected {:?}", other),
    }
}

#[test]
fn rows_are_read_in_order_until_the_first_failure() {
    let bad = Row { lengths: vec!["5".to_string()], values: to_base64("a") };
    // The first row's deserializer fails before the malformed row is reached.
    let res = answer(Some(vec![row(&["x", "a"]), bad.clone()]));
    assert!(matches!(res.deserialize_multiple::<Pair>(), Err(DriverError::Row(_))));
    assert!(matches!(res.read_all::<Pair>(), Err(DriverError::Row(_))));
    // A malformed row reached after good rows stops the reading.
    let res = answer(Some(vec![row(&["1", "a"]), bad]));
    assert!(matches!(res.deserialize_multiple::<Pair>(), Err(DriverError::MalformedRow)));
}

#[test]
fn deserializer_gets_the_columns_cut_by_lengths() {
    // "YWJj" is base64 of "abc"; lengths 1 and 2 cut it into "a" and "bc".
    let r = Row { lengths: vec!["1".to_string(), "2".to_string()], values: "YWJj".to_string() };
    let res = answer(Some(vec![r]));
    let p: (String, String) = {
        let cols = res.single_row_columns().unwrap();
        (cols[0].clone(), cols[1].clone())
    };
    assert_eq!(p, ("a".to_string(), "bc".to_string()));
    let scalar = answer(Some(vec![Row { lengths: vec!["1".to_string()], values: "MQ==".to_string() }]));
    assert_eq!(scalar.deserialize_scalar::<bool>().unwrap(), true);
}

fn strings(v: &[&str]) -> Vec<String> {
    v.iter().map(|s| s.to_string()).collect()
}

#[test]
fn cut_columns_splits_by_byte_lengths() {
    let bytes = "1héllo42".as_bytes().to_vec();
    assert_eq!(
        cut_columns(&bytes, &strings(&["1", "6", "2"])),
        Some(strings(&["1", "héllo", "42"]))
    );
    // Trailing bytes that no length reaches are left out.
    assert_eq!(cut_columns(&bytes, &strings(&["1"])), Some(strings(&["1"])));
    assert_eq!(cut_columns(&bytes, &strings(&[])), Some(strings(&[])));
    assert_eq!(
        cut_columns(&bytes, &strings(&["0", "1"])),
        Some(strings(&["", "1"]))
    );
}

#[test]
fn cut_columns_refuses_bad_rows() {
    let bytes = "1héllo42".as_bytes().to_vec();
    // Past the end.
    assert_eq!(cut_columns(&bytes, &strings(&["1", "6", "3"])), None);
    // Not a decimal length.
    assert_eq!(cut_columns(&bytes, &strings(&["1", "x"])), None);
    assert_eq!(cut_columns(&bytes, &strings(&["-1"])), None);
    // A cut inside the two bytes of `é`.
    assert_eq!(cut_columns(&bytes, &strings(&["3"])), None);
    // The bytes as a whole are not UTF-8.
    assert_eq!(cut_columns(&vec![0x61, 0xff], &strings(&["1"])), None);
}
