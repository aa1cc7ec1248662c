use flashquiz::record::{RawRow, Record};
use flashquiz::task::Tasks;
use flashquiz::{CheckError, EmptyAnswerStackCheck, IndexOutOfRange};

fn s(t: &str) -> String {
    t.to_string()
}

fn row(key: &str, field: &str, text: &str) -> RawRow {
    RawRow { key: s(key), comment: None, data: vec![(s(field), s(text))] }
}

fn three_tasks() -> Tasks {
    let rows = vec![
        row("k1", "capital", "Paris"),
        row("k2", "capital", "Rome"),
        row("k3", "capital", "Oslo"),
    ];
    Tasks::from_source(rows, s("key;capital\n"))
}

#[test]
fn from_source_loads_in_order() {
    let t = three_tasks();
    assert_eq!(t.len(), 3);
    assert_eq!(t.format(), &s("key;capital\n"));
    assert_eq!(t.get_task(0).unwrap().key(), &s("k1"));
    assert_eq!(t.get_task(1).unwrap().key(), &s("k2"));
    assert_eq!(t.get_task(2).unwrap().key(), &s("k3"));
}

#[test]
fn get_task_out_of_range() {
    let t = three_tasks();
    assert!(matches!(t.get_task(3), Err(IndexOutOfRange)));
}

#[test]
fn cur_task_before_any_selection() {
    let t = three_tasks();
    assert!(matches!(t.cur_task(), Err(EmptyAnswerStackCheck)));
}

#[test]
fn check_answer_before_any_selection() {
    let t = three_tasks();
    let sub = Record::new(s("k1"), None, vec![(s("capital"), vec![s("Paris")])]);
    assert_eq!(t.check_answer(&sub), Err(CheckError::NoActiveTask));
}

#[test]
fn indexed_access_does_not_select() {
    let t = three_tasks();
    assert_eq!(t.get_task(1).unwrap().key(), &s("k2"));
    assert!(matches!(t.cur_task(), Err(EmptyAnswerStackCheck)));
}

#[test]
fn random_selection_round() {
    let mut t = three_tasks();
    let key = t.get_random_task().key().clone();
    assert!(key == s("k1") || key == s("k2") || key == s("k3"));
    assert_eq!(t.cur_task().unwrap().key(), &key);

    let wrong_key = Record::new(s("zzz"), None, vec![(s("capital"), vec![s("Paris")])]);
    assert_eq!(t.check_answer(&wrong_key), Err(CheckError::KeyMismatch));

    let expected = t.cur_task().unwrap().answers(&s("capital")).unwrap()[0].clone();
    let case_different = expected.to_uppercase();
    let sub = Record::new(key.clone(), None, vec![(s("capital"), vec![case_different])]);
    assert_eq!(t.check_answer(&sub), Ok(Vec::new()));

    let wrong_value = Record::new(key, None, vec![(s("capital"), vec![s("Quito")])]);
    let d = t.check_answer(&wrong_value).unwrap();
    assert_eq!(d, vec![(s("capital"), vec![(expected, s("Quito"))])]);
}

#[test]
fn single_task_selection_is_forced() {
    let mut t = Tasks::from_source(vec![row("only", "f", "x")], s("h\n"));
    assert_eq!(t.get_random_task().key(), &s("only"));
    assert_eq!(t.cur_task().unwrap().key(), &s("only"));
}

#[test]
fn reselection_replaces_current_task() {
    let mut t = three_tasks();
    t.get_random_task();
    let first = t.cur_task().unwrap().key().clone();
    for _ in 0..20 {
        let k = t.get_random_task().key().clone();
        assert_eq!(t.cur_task().unwrap().key(), &k);
    }
    assert!(first == s("k1") || first == s("k2") || first == s("k3"));
}

#[test]
fn trimming_makes_padded_answers_equal() {
    let mut t = Tasks::from_source(vec![row("k", "f", "circle")], s("h\n"));
    t.get_random_task();
    let sub = Record::new(s("k"), None, vec![(s("f"), vec![s("  circle  ")])]);
    assert_eq!(t.check_answer(&sub), Ok(Vec::new()));
}

#[test]
fn empty_source_loads_no_tasks() {
    let t = Tasks::from_source(Vec::new(), s("h\n"));
    assert_eq!(t.len(), 0);
    assert!(matches!(t.cur_task(), Err(EmptyAnswerStackCheck)));
    assert!(matches!(t.get_task(0), Err(IndexOutOfRange)));
}

#[test]
fn error_messages_for_checking() {
    assert_eq!(
        CheckError::NoActiveTask.message(),
        "Checking answer before getting any tasks"
    );
    assert_eq!(
        CheckError::KeyMismatch.message(),
        "Comparing two records with different keys"
    );
    assert_eq!(
        EmptyAnswerStackCheck.message(),
        "Checking answer before getting any tasks"
    );
    assert_eq!(IndexOutOfRange.message(), "Task index is out of range");
}
