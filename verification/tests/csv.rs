use ardon_r2::csv::{NumberReader, read_csv_to_dataframe};
use ardon_r2::double::Real;
use ardon_r2::value::{DataFrame, RVal};

fn read_number(s: &str) -> Option<Real> {
    s.parse::<f64>().ok().map(|x| Real { bits: x.to_bits() })
}

fn frame(content: &str, header: bool) -> DataFrame {
    let reader = NumberReader { read: read_number };
    read_csv_to_dataframe(&reader, content, header).unwrap()
}

fn names(d: &DataFrame) -> Vec<&str> {
    d.columns.iter().map(|c| c.0.as_str()).collect()
}

fn numbers(v: &RVal) -> Vec<Option<f64>> {
    match v {
        RVal::Numeric(v, _) => v.iter().map(|x| x.map(|r| f64::from_bits(r.bits))).collect(),
        _ => panic!("numbers expected"),
    }
}

fn texts(v: &RVal) -> Vec<Option<String>> {
    match v {
        RVal::Character(v, _) => v.clone(),
        _ => panic!("texts expected"),
    }
}

#[test]
fn numbers_and_texts() {
    let d = frame("x, \"name\"\n1,\"a\"\n\n2.5,NA\nNA,\n", true);
    assert_eq!(names(&d), vec!["x", "name"]);
    assert_eq!(numbers(&d.columns[0].1), vec![Some(1.0), Some(2.5), None]);
    assert_eq!(texts(&d.columns[1].1), vec![Some("a".to_string()), None, Some("".to_string())]);
}

#[test]
fn columns_without_names() {
    let d = frame("1,2\r\n3,4\r\n", false);
    assert_eq!(names(&d), vec!["V1", "V2"]);
    assert_eq!(numbers(&d.columns[1].1), vec![Some(2.0), Some(4.0)]);
    let d = frame("a\n1,2\n", true);
    assert_eq!(names(&d), vec!["a", "V2"]);
}

#[test]
fn nothing_to_read() {
    let d = frame("", true);
    assert_eq!(d.columns.len(), 1);
    assert!(texts(&d.columns[0].1).is_empty());
}

#[test]
fn one_text_makes_a_column_of_texts() {
    let d = frame("v\n1\nx\n", true);
    assert_eq!(texts(&d.columns[0].1), vec![Some("1".to_string()), Some("x".to_string())]);
}
