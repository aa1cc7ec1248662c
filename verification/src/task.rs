//! The task set: the loaded records, the source's format line, and the task
//! most recently selected for the learner.
use vstd::prelude::*;
use crate::error_types::{CheckError, EmptyAnswerStackCheck, IndexOutOfRange};
use crate::order::lex_lt;
use crate::record::{diff, diff_entries, lemma_norm_entries_wf, norm_entries, normalize, wf_fields,
    RawRow, RawRowView, Record, RecordView};

verus! {

/// The view of a task set.
pub struct TasksView {
    pub format: Seq<char>,
    pub tasks: Seq<RecordView>,
    pub last_task: Option<RecordView>,
}

/// Abstraction over a group of tasks with the same source format.
#[derive(Debug)]
pub struct Tasks {
    format: String,
    tasks: Vec<Record>,
    last_task: Option<Record>,
}

impl View for Tasks {
    type V = TasksView;

    closed spec fn view(&self) -> TasksView {
        TasksView {
            format: self.format@,
            tasks: self.tasks.deep_view(),
            last_task: self.last_task.deep_view(),
        }
    }
}

/// The records that a sequence of raw rows normalizes to, in source order.
pub open spec fn norm_rows(rows: Seq<RawRowView>) -> Seq<RecordView> {
    Seq::new(
        rows.len(),
        |i: int|
            RecordView {
                key: rows[i].key,
                comment: rows[i].comment,
                values: norm_entries(rows[i].data, 0),
            },
    )
}

/// Relies on `rand::random_range`: a value drawn uniformly from the given
/// range; it panics only on an empty range, which the precondition rules
/// out.
#[verifier::external_body]
fn pick_index(n: usize) -> (r: usize)
    requires
        n > 0,
    ensures
        r < n,
{
    rand::random_range(0..n)
}

impl Tasks {
    /// Builds the task set: every raw row normalized, in source order, the
    /// verbatim header line kept as the format, and no task selected yet.
    pub fn from_source(rows: Vec<RawRow>, format: String) -> (t: Tasks)
        ensures
            t@.format == format@,
            t@.tasks == norm_rows(rows.deep_view()),
            t@.last_task is None,
            forall|i: int|
                0 <= i < rows.deep_view().len() && (#[trigger] rows.deep_view()[i]).wf()
                    ==> wf_fields(t@.tasks[i].values),
    {
        let ghost rv = rows.deep_view();
        let mut rest = rows;
        let mut tasks: Vec<Record> = Vec::new();
        proof {
            assert(rest.deep_view() =~= rv.skip(0));
            assert(tasks.deep_view() =~= Seq::<RecordView>::empty());
        }
        while rest.len() > 0
            invariant
                tasks.deep_view().len() <= rv.len(),
                rest.deep_view() == rv.skip(tasks.deep_view().len() as int),
                forall|t: int|
                    0 <= t < tasks.deep_view().len() ==> #[trigger] tasks.deep_view()[t]
                        == norm_rows(rv)[t],
            decreases rest.len(),
        {
            let ghost k = tasks.deep_view().len() as int;
            let ghost pre_rest = rest.deep_view();
            let ghost pre_tasks = tasks.deep_view();
            let row = rest.remove(0);
            proof {
                assert(rest.deep_view() =~= pre_rest.drop_first());
                assert(pre_rest.drop_first() =~= rv.skip(k + 1));
                assert(row.deep_view() == pre_rest[0]);
                assert(pre_rest[0] == rv[k]);
            }
            let rec = normalize(row);
            proof {
                assert(rec@ == norm_rows(rv)[k]);
            }
            tasks.push(rec);
            proof {
                assert(tasks.deep_view() =~= pre_tasks.push(rec@));
            }
        }
        proof {
            assert(rest.deep_view().len() == 0);
            assert(tasks.deep_view().len() == rv.len());
            assert(tasks.deep_view() =~= norm_rows(rv));
        }
        let t = Tasks { format, tasks, last_task: None };
        proof {
            assert(t@.last_task is None);
            assert forall|i: int| 0 <= i < rv.len() && (#[trigger] rv[i]).wf() implies wf_fields(
                t@.tasks[i].values,
            ) by {
                let d = rv[i].data;
                assert forall|p: int, q: int| 0 <= p < q < d.len() implies lex_lt(
                    (#[trigger] d[p]).0,
                    (#[trigger] d[q]).0,
                ) by {
                    assert(lex_lt((rv[i].data[p]).0, (rv[i].data[q]).0));
                }
                lemma_norm_entries_wf(d, 0);
            }
        }
        t
    }

    /// Picks one task uniformly at random, records it as the current task,
    /// and returns it. A task set whose source was valid is never empty;
    /// selecting from an empty set is a caller error, ruled out here.
    pub fn get_random_task(&mut self) -> (r: &Record)
        requires
            old(self)@.tasks.len() > 0,
        ensures
            final(self)@.format == old(self)@.format,
            final(self)@.tasks == old(self)@.tasks,
            exists|i: int| 0 <= i < old(self)@.tasks.len() && r@ == old(self)@.tasks[i],
            final(self)@.last_task == Some(r@),
    {
        proof {
            assert(self.tasks.deep_view().len() == self.tasks@.len());
        }
        let i = pick_index(self.tasks.len());
        let chosen = self.tasks[i].duplicate();
        proof {
            assert(self.tasks.deep_view()[i as int] == self.tasks@[i as int]@);
            assert(chosen@ == old(self)@.tasks[i as int]);
        }
        self.last_task = Some(chosen);
        proof {
            assert(self@.tasks[i as int] == self.tasks@[i as int]@);
        }
        &self.tasks[i]
    }

    /// The task at index `ind`, for inspection: selecting by index does not
    /// change the current task. An index at or past the task count is
    /// reported.
    pub fn get_task(&self, ind: usize) -> (r: Result<&Record, IndexOutOfRange>)
        ensures
            ind < self@.tasks.len() ==> (r matches Ok(t) && t@ == self@.tasks[ind as int]),
            ind >= self@.tasks.len() ==> r == Err::<&Record, IndexOutOfRange>(IndexOutOfRange),
    {
        proof {
            assert(self.tasks.deep_view().len() == self.tasks@.len());
        }
        if ind < self.tasks.len() {
            proof {
                assert(self.tasks.deep_view()[ind as int] == self.tasks@[ind as int]@);
            }
            Ok(&self.tasks[ind])
        } else {
            Err(IndexOutOfRange)
        }
    }

    /// The most recently selected task, or an error if none was selected
    /// yet.
    pub fn cur_task(&self) -> (r: Result<&Record, EmptyAnswerStackCheck>)
        ensures
            self@.last_task is Some ==> (r matches Ok(t) && self@.last_task == Some(t@)),
            self@.last_task is None ==> r == Err::<&Record, EmptyAnswerStackCheck>(
                EmptyAnswerStackCheck,
            ),
    {
        match &self.last_task {
            Some(t) => Ok(t),
            None => Err(EmptyAnswerStackCheck),
        }
    }

    /// The number of loaded tasks.
    pub fn len(&self) -> (r: usize)
        ensures
            r == self@.tasks.len(),
    {
        proof {
            assert(self.tasks.deep_view().len() == self.tasks@.len());
        }
        self.tasks.len()
    }

    /// The verbatim header line of the source.
    pub fn format(&self) -> (r: &String)
        ensures
            r@ == self@.format,
    {
        &self.format
    }

    /// Diffs the submitted record against the current task: an error if no
    /// task was selected yet or if the submitted key differs, otherwise the
    /// per-field mismatches.
    pub fn check_answer(&self, b: &Record) -> (r: Result<
        Vec<(String, Vec<(String, String)>)>,
        CheckError,
    >)
        ensures
            self@.last_task is None ==> r == Err::<
                Vec<(String, Vec<(String, String)>)>,
                CheckError,
            >(CheckError::NoActiveTask),
            self@.last_task is Some && self@.last_task->Some_0.key != b@.key ==> r == Err::<
                Vec<(String, Vec<(String, String)>)>,
                CheckError,
            >(CheckError::KeyMismatch),
            self@.last_task is Some && self@.last_task->Some_0.key == b@.key ==> (r matches Ok(m)
                && m.deep_view() == diff_entries(self@.last_task->Some_0.values, b@.values, 0)),
    {
        match &self.last_task {
            Some(t) => match diff(t, b) {
                Ok(m) => Ok(m),
                Err(_) => Err(CheckError::KeyMismatch),
            },
            None => Err(CheckError::NoActiveTask),
        }
    }
}

} // verus!
