use flashquiz::record::{diff, normalize, RawRow, Record};
use flashquiz::{DifferentKeyComp, UnknownField};

fn s(t: &str) -> String {
    t.to_string()
}

#[test]
fn diff_err() {
    let mut a = Record::new("A".to_string(), None, Vec::new());
    let mut b = Record::new("B".to_string(), None, Vec::new());

    assert_eq!(diff(&mut a, &mut b), Err(DifferentKeyComp));
}

#[test]
fn diff_reflexive() {
    let a = Record::new(
        s("k"),
        Some(s("note")),
        vec![(s("color"), vec![s("Red"), s("red")]), (s("shape"), vec![s("circle")])],
    );
    assert_eq!(diff(&a, &a), Ok(Vec::new()));
}

#[test]
fn diff_reports_original_pairs() {
    let a = Record::new(s("k"), None, vec![(s("color"), vec![s("Red"), s("blue")])]);
    let b = Record::new(s("k"), None, vec![(s("color"), vec![s("red"), s("green")])]);
    let d = diff(&a, &b).unwrap();
    assert_eq!(d, vec![(s("color"), vec![(s("blue"), s("green"))])]);
}

#[test]
fn diff_is_positional_and_truncating() {
    let a = Record::new(s("k"), None, vec![(s("f"), vec![s("A"), s("B")])]);
    let b = Record::new(s("k"), None, vec![(s("f"), vec![s("a")])]);
    assert_eq!(diff(&a, &b), Ok(Vec::new()));
}

#[test]
fn diff_skips_fields_absent_on_one_side() {
    let a = Record::new(s("k"), None, vec![(s("only_a"), vec![s("x")])]);
    let b = Record::new(s("k"), None, vec![(s("only_b"), vec![s("y")])]);
    assert_eq!(diff(&a, &b), Ok(Vec::new()));
}

#[test]
fn diff_ignores_case_and_whitespace() {
    let a = Record::new(s("k"), None, vec![(s("capital"), vec![s("Paris")])]);
    let b = Record::new(s("k"), None, vec![(s("capital"), vec![s("  pArIs ")])]);
    assert_eq!(diff(&a, &b), Ok(Vec::new()));
}

#[test]
fn normalize_splits_sorts_and_drops_empty() {
    let raw = RawRow {
        key: s("1"),
        comment: None,
        data: vec![
            (s("color"), s("red#Red")),
            (s("empty"), s("##")),
            (s("shape"), s("circle")),
        ],
    };
    let rec = normalize(raw);
    assert_eq!(rec.key(), &s("1"));
    let fields = rec.duplicate().get_fields();
    assert_eq!(fields, vec![s("color"), s("shape")]);
    assert_eq!(rec.answers(&s("color")), Some(&vec![s("Red"), s("red")]));
    assert_eq!(rec.answers(&s("shape")), Some(&vec![s("circle")]));
    assert_eq!(rec.answers(&s("empty")), None);
}

#[test]
fn normalize_carries_key_and_comment() {
    let raw = RawRow {
        key: s("7"),
        comment: Some(s("a note")),
        data: vec![(s("f"), s("x"))],
    };
    let rec = normalize(raw);
    assert_eq!(rec.key(), &s("7"));
    assert_eq!(rec.comment(), Some(s("a note")));
}

#[test]
fn normalize_keeps_duplicates() {
    let raw = RawRow { key: s("1"), comment: None, data: vec![(s("f"), s("x#x"))] };
    let rec = normalize(raw);
    assert_eq!(rec.answers(&s("f")), Some(&vec![s("x"), s("x")]));
    assert_eq!(rec.duplicate().field_len(&s("f")), 2);
}

#[test]
fn normalize_idempotent_on_joined_answers() {
    let raw = RawRow { key: s("1"), comment: None, data: vec![(s("f"), s("cat#dog#ant"))] };
    let rec = normalize(raw);
    let answers = rec.answers(&s("f")).unwrap().clone();
    assert_eq!(answers, vec![s("ant"), s("cat"), s("dog")]);
    let joined = answers.join("#");
    let again = normalize(RawRow { key: s("1"), comment: None, data: vec![(s("f"), joined)] });
    assert_eq!(again.answers(&s("f")), Some(&answers));
}

#[test]
fn copy_format_blanks_fields_and_drops_blank_ones() {
    let a = Record::new(
        s("k"),
        Some(s("c")),
        vec![(s("a"), vec![s("x"), s("y")]), (s("b"), vec![s("")])],
    );
    let f = Record::copy_format(a);
    assert_eq!(f.key(), &s("k"));
    assert_eq!(f.answers(&s("a")), Some(&vec![s("")]));
    assert_eq!(f.answers(&s("b")), None);
    assert_eq!(f.duplicate().get_fields(), vec![s("a")]);
    assert_eq!(f.comment(), Some(s("c")));
}

#[test]
fn is_full_iff_no_empty_answer_list() {
    let full = Record::new(s("k"), None, vec![(s("a"), vec![s("x")])]);
    assert!(full.is_full());

    let mut hollow = Record::new(s("k"), None, vec![(s("a"), vec![s("x")])]);
    assert_eq!(hollow.replace(&s("a"), Vec::new()), Ok(()));
    assert!(!hollow.is_full());

    let empty = Record::new(s("k"), None, Vec::new());
    assert!(empty.is_full());
}

#[test]
fn replace_swaps_one_field() {
    let mut r = Record::new(
        s("k"),
        None,
        vec![(s("a"), vec![s("x")]), (s("b"), vec![s("y")])],
    );
    assert_eq!(r.replace(&s("a"), vec![s("z"), s("w")]), Ok(()));
    assert_eq!(r.answers(&s("a")), Some(&vec![s("z"), s("w")]));
    assert_eq!(r.answers(&s("b")), Some(&vec![s("y")]));
}

#[test]
fn replace_unknown_field_is_reported() {
    let mut r = Record::new(s("k"), None, vec![(s("a"), vec![s("x")])]);
    assert_eq!(r.replace(&s("missing"), vec![s("z")]), Err(UnknownField));
    assert_eq!(r.answers(&s("a")), Some(&vec![s("x")]));
}

#[test]
fn record_getters() {
    let r = Record::new(s("k"), Some(s("hint")), vec![(s("a"), vec![s("x"), s("y")])]);
    assert_eq!(r.key(), &s("k"));
    assert_eq!(r.duplicate().field_len(&s("a")), 2);
    assert_eq!(r.duplicate().get_fields(), vec![s("a")]);
    assert_eq!(r.comment(), Some(s("hint")));
}

#[test]
fn duplicate_is_deep_and_equal() {
    let r = Record::new(s("k"), Some(s("c")), vec![(s("a"), vec![s("x")])]);
    let d = r.duplicate();
    assert_eq!(diff(&r, &d), Ok(Vec::new()));
    assert_eq!(d.key(), r.key());
    assert_eq!(d.answers(&s("a")), r.answers(&s("a")));
}

#[test]
fn error_messages() {
    assert_eq!(
        DifferentKeyComp.message(),
        "Comparing two records with different keys"
    );
    assert_eq!(UnknownField.message(), "Replacing a field the record does not have");
}
