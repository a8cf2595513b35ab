use ardon_r2::bytes::{get_bits, get_le, push_bitmap, push_le};
use ardon_r2::double::Real;
use ardon_r2::r2d::{read_r2d, write_r2d};
use ardon_r2::value::{Attrs, DataFrame, RVal};

fn none() -> Attrs {
    Attrs { names: None }
}

fn dbl(x: f64) -> Real {
    Real { bits: x.to_bits() }
}

fn texts(v: &[Option<&str>]) -> Vec<Option<String>> {
    v.iter().map(|x| x.map(|s| s.to_string())).collect()
}

fn df_eq(a: &DataFrame, b: &DataFrame) {
    assert_eq!(a.columns.len(), b.columns.len(), "ncol");
    assert_eq!(a.row_names, b.row_names, "row_names");
    for ((na, ca), (nb, cb)) in a.columns.iter().zip(b.columns.iter()) {
        assert_eq!(na, nb, "col name");
        match (ca, cb) {
            (RVal::Numeric(x, _), RVal::Numeric(y, _)) => {
                assert_eq!(x.len(), y.len());
                for (xi, yi) in x.iter().zip(y.iter()) {
                    match (xi, yi) {
                        (Some(a), Some(b)) => assert_eq!(a.bits, b.bits),
                        (None, None) => {}
                        _ => panic!("NA mismatch in {}", na),
                    }
                }
            }
            (RVal::Integer(x, _), RVal::Integer(y, _)) => assert_eq!(x, y),
            (RVal::Logical(x, _), RVal::Logical(y, _)) => assert_eq!(x, y),
            (RVal::Character(x, _), RVal::Character(y, _)) => assert_eq!(x, y),
            _ => panic!("col type mismatch on {}", na),
        }
    }
}

fn unwrap_df(v: RVal) -> DataFrame {
    match v {
        RVal::DataFrame(d) => d,
        _ => panic!("not a data.frame"),
    }
}

fn small() -> DataFrame {
    DataFrame {
        columns: vec![
            ("n".to_string(), RVal::Numeric(vec![Some(dbl(2.0)), None], none())),
            ("s".to_string(), RVal::Character(texts(&[Some("ab"), Some("c")]), none())),
        ],
        row_names: None,
    }
}

fn refusal(bytes: &[u8]) -> String {
    read_r2d(bytes).unwrap_err().msg
}

#[test]
fn roundtrip_numeric_with_na() {
    let v = vec![Some(dbl(1.5)), None, Some(dbl(3.25)), Some(dbl(-7.0)), None];
    let df = DataFrame { columns: vec![("x".to_string(), RVal::Numeric(v, none()))], row_names: None };
    let bytes = write_r2d(&df);
    let back = unwrap_df(read_r2d(&bytes).unwrap());
    df_eq(&df, &back);
}

#[test]
fn roundtrip_integer_logical_character() {
    let ints = vec![Some(1), Some(-2), None, Some(42)];
    let logs = vec![Some(true), Some(false), None, Some(true)];
    let chars = texts(&[Some("hi"), None, Some(""), Some("a longer string")]);
    let df = DataFrame {
        columns: vec![
            ("i".to_string(), RVal::Integer(ints, none())),
            ("l".to_string(), RVal::Logical(logs, none())),
            ("s".to_string(), RVal::Character(chars, none())),
        ],
        row_names: Some(vec!["r1".to_string(), "r2".to_string(), "r3".to_string(), "r4".to_string()]),
    };
    let bytes = write_r2d(&df);
    let back = unwrap_df(read_r2d(&bytes).unwrap());
    df_eq(&df, &back);
}

#[test]
fn rejects_bad_magic() {
    let r = read_r2d(b"NOPE\x01\x00");
    assert!(r.is_err());
}

#[test]
fn a_bad_magic_is_named() {
    assert_eq!(refusal(b"NOPE\x01\x00"), "r2d: bad magic [78, 79, 80, 69], expected R2D1");
}

#[test]
fn files_start_with_magic_and_version() {
    let bytes = write_r2d(&small());
    assert_eq!(&bytes[..6], b"R2D1\x01\x00");
}

#[test]
fn other_versions_are_refused() {
    let mut bytes = write_r2d(&small());
    bytes[4] = 9;
    assert_eq!(refusal(&bytes), "r2d: unsupported version 9");
}

#[test]
fn every_cut_file_is_refused() {
    let bytes = write_r2d(&small());
    for n in 0..bytes.len() {
        assert!(read_r2d(&bytes[..n]).is_err(), "{} bytes", n);
    }
    let empty = write_r2d(&DataFrame { columns: vec![], row_names: None });
    assert!(read_r2d(&empty).is_ok() && read_r2d(&empty[..empty.len() - 1]).is_err());
    assert_eq!(refusal(&[]), "r2d: unexpected EOF at 0 (need 4 more, have 0)");
}

#[test]
fn names_must_be_text() {
    let bytes = write_r2d(&small());
    let at = bytes.iter().position(|b| *b == b'n').unwrap();
    let mut broken = bytes.clone();
    broken[at] = 0xff;
    assert_eq!(
        refusal(&broken),
        "r2d: bad UTF-8 in column name: invalid utf-8 sequence of 1 bytes from index 0"
    );
}

#[test]
fn strings_must_be_text() {
    let bytes = write_r2d(&small());
    let at = bytes.iter().rposition(|b| *b == b'c').unwrap();
    let mut broken = bytes.clone();
    broken[at] = 0xff;
    assert!(refusal(&broken).starts_with("r2d: bad UTF-8 in string blob: invalid utf-8 sequence"));
}

#[test]
fn column_kinds_are_known() {
    let bytes = write_r2d(&small());
    let at = bytes.iter().position(|b| *b == b'n').unwrap() + 1;
    let mut broken = bytes.clone();
    broken[at] = 77;
    assert_eq!(refusal(&broken), "r2d: unknown dtype 77");
}

#[test]
fn an_empty_frame_comes_back() {
    let df = DataFrame { columns: Vec::new(), row_names: None };
    let back = unwrap_df(read_r2d(&write_r2d(&df)).unwrap());
    df_eq(&df, &back);
}

#[test]
fn numbers_and_bits_in_bytes() {
    let mut out = Vec::new();
    push_le(&mut out, 0x0102_0304, 4);
    assert_eq!(out, vec![4, 3, 2, 1]);
    assert_eq!(get_le(&out, 0, 4), 0x0102_0304);
    let bits: Vec<bool> = (0..11).map(|i| i % 3 == 0).collect();
    let mut out = Vec::new();
    push_bitmap(&mut out, &bits);
    assert_eq!(out.len(), 2);
    assert_eq!(get_bits(&out, 0, 11), bits);
}

#[test]
fn names_of_entries_are_not_kept() {
    let labels = || Attrs { names: Some(vec!["p".to_string(), "q".to_string()]) };
    let df = DataFrame {
        columns: vec![
            ("n".to_string(), RVal::Numeric(vec![Some(dbl(2.0)), None], labels())),
            ("s".to_string(), RVal::Character(texts(&[Some("ab"), Some("c")]), labels())),
        ],
        row_names: None,
    };
    let back = unwrap_df(read_r2d(&write_r2d(&df)).unwrap());
    assert_eq!(back.columns[0].0, "n");
    assert_eq!(back.columns[1].0, "s");
    match (&back.columns[0].1, &back.columns[1].1) {
        (RVal::Numeric(n, a), RVal::Character(s, b)) => {
            assert_eq!(n.iter().map(|x| x.as_ref().map(|r| r.bits)).collect::<Vec<_>>(), vec![Some(dbl(2.0).bits), None]);
            assert_eq!(s, &texts(&[Some("ab"), Some("c")]));
            assert!(a.names.is_none() && b.names.is_none());
        },
        _ => panic!(),
    }
    assert_eq!(write_r2d(&back), write_r2d(&df));
}
