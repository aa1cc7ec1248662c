//! Records: the normalized quiz item, its construction from a raw source
//! row, the per-field diff between two records, and the blank format
//! template.
use vstd::prelude::*;
use crate::error_types::{DifferentKeyComp, UnknownField};
use crate::order::{lex_lt, sort_answers, sort_strings, str_eq};
use crate::text::{canon, split_answers, split_hash};

verus! {

/// The mathematical view of a field map: field names paired with their
/// answer lists, in field-name order.
pub type FieldsView = Seq<(Seq<char>, Seq<Seq<char>>)>;

/// Field names are strictly increasing: sorted, and therefore unique.
pub open spec fn wf_fields(m: FieldsView) -> bool {
    forall|i: int, j: int|
        0 <= i < j < m.len() ==> lex_lt((#[trigger] m[i]).0, (#[trigger] m[j]).0)
}

/// The answer list of the first entry named `k`, if any.
pub open spec fn map_get(m: FieldsView, k: Seq<char>) -> Option<Seq<Seq<char>>>
    decreases m.len(),
{
    if m.len() == 0 {
        None
    } else if m[0].0 == k {
        Some(m[0].1)
    } else {
        map_get(m.drop_first(), k)
    }
}

/// Whether some entry is named `k`.
pub open spec fn map_has(m: FieldsView, k: Seq<char>) -> bool {
    map_get(m, k) is Some
}

/// The map with the answer list of the first entry named `k` swapped for
/// `v`, and all else unchanged.
pub open spec fn map_replace(m: FieldsView, k: Seq<char>, v: Seq<Seq<char>>) -> FieldsView
    decreases m.len(),
{
    if m.len() == 0 {
        m
    } else if m[0].0 == k {
        seq![(m[0].0, v)] + m.drop_first()
    } else {
        seq![m[0]] + map_replace(m.drop_first(), k, v)
    }
}

/// The view of a raw source row.
pub struct RawRowView {
    pub key: Seq<char>,
    pub comment: Option<Seq<char>>,
    pub data: Seq<(Seq<char>, Seq<char>)>,
}

/// A raw source row: a key, an optional comment, and the remaining columns
/// as field-name/raw-text pairs in field-name order.
pub struct RawRow {
    pub key: String,
    pub comment: Option<String>,
    pub data: Vec<(String, String)>,
}

impl View for RawRow {
    type V = RawRowView;

    open spec fn view(&self) -> RawRowView {
        RawRowView {
            key: self.key@,
            comment: self.comment.deep_view(),
            data: self.data.deep_view(),
        }
    }
}

impl DeepView for RawRow {
    type V = RawRowView;

    open spec fn deep_view(&self) -> RawRowView {
        self.view()
    }
}

impl RawRowView {
    /// Column names are strictly increasing, as a mapping's canonical
    /// representation has them.
    pub open spec fn wf(self) -> bool {
        forall|i: int, j: int|
            0 <= i < j < self.data.len() ==> lex_lt(
                (#[trigger] self.data[i]).0,
                (#[trigger] self.data[j]).0,
            )
    }
}

/// The view of a record.
pub struct RecordView {
    pub key: Seq<char>,
    pub comment: Option<Seq<char>>,
    pub values: FieldsView,
}

/// Abstraction over one row of the quiz source: a key, an optional comment,
/// and a map from field name to the list of accepted answers.
#[derive(Debug)]
pub struct Record {
    key: String,
    comment: Option<String>,
    values: Vec<(String, Vec<String>)>,
}

impl View for Record {
    type V = RecordView;

    closed spec fn view(&self) -> RecordView {
        RecordView {
            key: self.key@,
            comment: self.comment.deep_view(),
            values: self.values.deep_view(),
        }
    }
}

impl DeepView for Record {
    type V = RecordView;

    open spec fn deep_view(&self) -> RecordView {
        self.view()
    }
}

/// The entries a record gets from the raw columns of `data` at `i` and
/// beyond: each raw text split on the separator and sorted, columns whose
/// text splits into nothing dropped.
pub open spec fn norm_entries(data: Seq<(Seq<char>, Seq<char>)>, i: int) -> FieldsView
    decreases data.len() - i,
{
    if i < 0 || i >= data.len() {
        Seq::empty()
    } else {
        let answers = split_hash(data[i].1);
        let rest = norm_entries(data, i + 1);
        if answers.len() > 0 {
            seq![(data[i].0, sort_answers(answers))] + rest
        } else {
            rest
        }
    }
}

impl Record {
    /// Whether the field names are strictly sorted, the record's validity.
    pub open spec fn wf(self) -> bool {
        wf_fields(self@.values)
    }

    /// Creates a record from its parts. The caller supplies the fields in
    /// their canonical shape: names strictly sorted.
    pub fn new(key: String, comment: Option<String>, values: Vec<(String, Vec<String>)>) -> (r:
        Record)
        requires
            wf_fields(values.deep_view()),
        ensures
            r@.key == key@,
            r@.comment == comment.deep_view(),
            r@.values == values.deep_view(),
            r.wf(),
    {
        Record { key, comment, values }
    }

    /// An explicit deep copy of the record.
    pub fn duplicate(&self) -> (r: Record)
        ensures
            r@ == self@,
    {
        let mut values: Vec<(String, Vec<String>)> = Vec::new();
        let mut i: usize = 0;
        proof {
            assert(values.deep_view() =~= self.values.deep_view().take(0));
        }
        while i < self.values.len()
            invariant
                i <= self.values.len(),
                values.deep_view() == self.values.deep_view().take(i as int),
            decreases self.values.len() - i,
        {
            let k = self.values[i].0.clone();
            let v = self.values[i].1.clone();
            let ghost pre = values.deep_view();
            values.push((k, v));
            proof {
                assert(v@ == self.values@[i as int].1@);
                assert(v.deep_view() =~= self.values@[i as int].1.deep_view());
                assert(self.values.deep_view()[i as int] == (
                    self.values@[i as int].0@,
                    self.values@[i as int].1.deep_view(),
                ));
                assert(values.deep_view() =~= pre.push(self.values.deep_view()[i as int]));
                assert(values.deep_view() =~= self.values.deep_view().take(i as int + 1));
            }
            i = i + 1;
        }
        proof {
            assert(self.values.deep_view().take(self.values.len() as int) =~= self
                .values
                .deep_view());
        }
        let comment = match &self.comment {
            Some(c) => Some(c.clone()),
            None => None,
        };
        Record { key: self.key.clone(), comment, values }
    }

    /// The names of the fields the record holds, in field-name order.
    pub fn get_fields(self) -> (r: Vec<String>)
        ensures
            r.deep_view() == field_names(self@.values),
    {
        let mut r: Vec<String> = Vec::new();
        let mut i: usize = 0;
        while i < self.values.len()
            invariant
                i <= self.values.len(),
                r.deep_view().len() == i,
                forall|t: int|
                    0 <= t < i ==> r.deep_view()[t] == (#[trigger] self.values.deep_view()[t]).0,
            decreases self.values.len() - i,
        {
            r.push(self.values[i].0.clone());
            proof {
                assert(self.values.deep_view()[i as int] == (
                    self.values@[i as int].0@,
                    self.values@[i as int].1.deep_view(),
                ));
            }
            i = i + 1;
        }
        proof {
            assert(r.deep_view() =~= field_names(self@.values));
        }
        r
    }

    /// The number of accepted answers of field `k`, which must be present.
    pub fn field_len(self, k: &String) -> (r: usize)
        requires
            map_has(self@.values, k@),
        ensures
            r == map_get(self@.values, k@)->Some_0.len(),
    {
        match lookup_field(&self.values, k.as_str()) {
            Some(v) => v.len(),
            None => unreached(),
        }
    }

    /// Swaps the answer list of field `k` for `v`; an absent field is
    /// reported, and the record left unchanged.
    pub fn replace(&mut self, k: &String, v: Vec<String>) -> (r: Result<(), UnknownField>)
        ensures
            map_has(old(self)@.values, k@) ==> r is Ok && final(self)@.key == old(self)@.key
                && final(self)@.comment == old(self)@.comment && final(self)@.values
                == map_replace(old(self)@.values, k@, v.deep_view()),
            !map_has(old(self)@.values, k@) ==> r == Err::<(), UnknownField>(UnknownField)
                && final(self)@ == old(self)@,
    {
        let ghost dv = self.values.deep_view();
        let mut i: usize = 0;
        proof {
            assert(dv.skip(0) =~= dv);
        }
        while i < self.values.len()
            invariant
                i <= self.values.len(),
                dv == self.values.deep_view(),
                *self == *old(self),
                map_get(dv, k@) == map_get(dv.skip(i as int), k@),
                forall|j: int| 0 <= j < i ==> (#[trigger] dv[j]).0 != k@,
            decreases self.values.len() - i,
        {
            proof {
                assert(dv.skip(i as int)[0] == dv[i as int]);
                assert(dv[i as int] == (
                    self.values@[i as int].0@,
                    self.values@[i as int].1.deep_view(),
                ));
            }
            if str_eq(self.values[i].0.as_str(), k.as_str()) {
                let pair = self.values.remove(i);
                let ghost removed = self.values.deep_view();
                self.values.insert(i, (pair.0, v));
                proof {
                    assert(removed =~= dv.remove(i as int));
                    assert(self.values.deep_view() =~= removed.insert(
                        i as int,
                        (pair.0@, v.deep_view()),
                    ));
                    assert(self.values.deep_view() =~= dv.update(i as int, (k@, v.deep_view())));
                    lemma_map_replace_at(dv, k@, v.deep_view(), i as int);
                }
                return Ok(());
            }
            proof {
                assert(dv.skip(i as int).drop_first() =~= dv.skip(i as int + 1));
            }
            i = i + 1;
        }
        proof {
            assert(dv.skip(i as int) =~= Seq::<(Seq<char>, Seq<Seq<char>>)>::empty());
        }
        Err(UnknownField)
    }

    /// The record's key.
    pub fn key(&self) -> (r: &String)
        ensures
            r@ == self@.key,
    {
        &self.key
    }

    /// The answer list of field `k`, if the record holds it.
    pub fn answers<'a>(&'a self, k: &String) -> (r: Option<&'a Vec<String>>)
        ensures
            match r {
                Some(v) => map_get(self@.values, k@) == Some(v.deep_view()),
                None => !map_has(self@.values, k@),
            },
    {
        lookup_field(&self.values, k.as_str())
    }

    /// The record's comment, if it has one.
    pub fn comment(self) -> (r: Option<String>)
        ensures
            r.deep_view() == self@.comment,
    {
        self.comment
    }

    /// Whether no field holds an empty answer list.
    pub fn is_full(&self) -> (r: bool)
        ensures
            r == (forall|i: int|
                0 <= i < self@.values.len() ==> (#[trigger] self@.values[i]).1.len() > 0),
    {
        let mut i: usize = 0;
        while i < self.values.len()
            invariant
                i <= self.values.len(),
                forall|t: int| 0 <= t < i ==> (#[trigger] self@.values[t]).1.len() > 0,
            decreases self.values.len() - i,
        {
            proof {
                assert(self.values.deep_view()[i as int] == (
                    self.values@[i as int].0@,
                    self.values@[i as int].1.deep_view(),
                ));
            }
            if self.values[i].1.len() == 0 {
                proof {
                    assert(self.values@[i as int].1.deep_view().len() == self.values@[i as int]
                        .1@
                        .len());
                    assert(self@.values[i as int].1.len() == 0);
                }
                return false;
            }
            i = i + 1;
        }
        true
    }

    /// A blank answer shell in the shape of `a`: same key and comment; every
    /// field that is not already a single blank answer maps to one, and
    /// fields already blank are dropped.
    pub fn copy_format(a: Record) -> (r: Record)
        ensures
            r@.key == a@.key,
            r@.comment == a@.comment,
            r@.values == format_entries(a@.values, 0),
    {
        let ghost dv = a.values.deep_view();
        let mut values: Vec<(String, Vec<String>)> = Vec::new();
        let mut i: usize = 0;
        proof {
            assert(values.deep_view() =~= Seq::<(Seq<char>, Seq<Seq<char>>)>::empty());
            assert(Seq::<(Seq<char>, Seq<Seq<char>>)>::empty() + format_entries(dv, 0)
                =~= format_entries(dv, 0));
        }
        while i < a.values.len()
            invariant
                i <= a.values.len(),
                dv == a.values.deep_view(),
                values.deep_view() + format_entries(dv, i as int) == format_entries(dv, 0),
            decreases a.values.len() - i,
        {
            proof {
                assert(dv[i as int] == (
                    a.values@[i as int].0@,
                    a.values@[i as int].1.deep_view(),
                ));
                assert(a.values@[i as int].1.deep_view().len() == a.values@[i as int].1@.len());
            }
            let vs = &a.values[i].1;
            let blank = vs.len() == 1 && vs[0].as_str().is_empty();
            proof {
                if blank {
                    assert(a.values@[i as int].1.deep_view()[0] == a.values@[i as int].1@[0]@);
                    assert(a.values@[i as int].1@[0]@ =~= Seq::<char>::empty());
                    assert(dv[i as int].1 =~= seq![Seq::<char>::empty()]);
                } else {
                    assert(!is_blank_answers(dv[i as int].1)) by {
                        if dv[i as int].1.len() == 1 {
                            assert(dv[i as int].1[0] == a.values@[i as int].1@[0]@);
                        }
                    }
                }
            }
            if !blank {
                let mut one: Vec<String> = Vec::new();
                one.push(String::new());
                let ghost pre = values.deep_view();
                let ghost entry = (dv[i as int].0, seq![Seq::<char>::empty()]);
                values.push((a.values[i].0.clone(), one));
                proof {
                    assert(one.deep_view() =~= seq![Seq::<char>::empty()]);
                    assert(values.deep_view() =~= pre.push(entry));
                    assert(pre.push(entry) =~= pre + seq![entry]);
                    assert((pre + seq![entry]) + format_entries(dv, i as int + 1) =~= pre + (
                    seq![entry] + format_entries(dv, i as int + 1)));
                    assert(!is_blank_answers(dv[i as int].1));
                }
            }
            i = i + 1;
        }
        proof {
            assert(values.deep_view() + Seq::<(Seq<char>, Seq<Seq<char>>)>::empty()
                =~= values.deep_view());
        }
        Record { key: a.key, comment: a.comment, values }
    }
}

/// The names of the entries of a field map, in order.
pub open spec fn field_names(m: FieldsView) -> Seq<Seq<char>> {
    Seq::new(m.len(), |i: int| m[i].0)
}

/// Exactly one blank answer: the shape a format template gives a field.
pub open spec fn is_blank_answers(vs: Seq<Seq<char>>) -> bool {
    vs.len() == 1 && vs[0].len() == 0
}

/// The entries of the format template of `m` from `i` on: every entry not
/// already a single blank answer becomes one, entries already blank are
/// dropped.
pub open spec fn format_entries(m: FieldsView, i: int) -> FieldsView
    decreases m.len() - i,
{
    if i < 0 || i >= m.len() {
        Seq::empty()
    } else {
        let rest = format_entries(m, i + 1);
        if !is_blank_answers(m[i].1) {
            seq![(m[i].0, seq![Seq::<char>::empty()])] + rest
        } else {
            rest
        }
    }
}

/// Converts a raw source row into a record: each column's text is split on
/// the separator, empty fragments are dropped, the surviving answers are
/// sorted, and columns left with no answers are omitted.
pub fn normalize(raw: RawRow) -> (r: Record)
    ensures
        r@.key == raw@.key,
        r@.comment == raw@.comment,
        r@.values == norm_entries(raw@.data, 0),
        raw@.wf() ==> r.wf(),
{
    let RawRow { key, comment, data } = raw;
    let ghost dd = data.deep_view();
    let mut values: Vec<(String, Vec<String>)> = Vec::new();
    let mut i: usize = 0;
    proof {
        assert(values.deep_view() =~= Seq::<(Seq<char>, Seq<Seq<char>>)>::empty());
        assert(Seq::<(Seq<char>, Seq<Seq<char>>)>::empty() + norm_entries(dd, 0) =~= norm_entries(
            dd,
            0,
        ));
    }
    while i < data.len()
        invariant
            i <= data.len(),
            dd == data.deep_view(),
            values.deep_view() + norm_entries(dd, i as int) == norm_entries(dd, 0),
        decreases data.len() - i,
    {
        proof {
            assert(dd[i as int] == (data@[i as int].0@, data@[i as int].1@));
        }
        let pieces = split_answers(data[i].1.as_str());
        if pieces.len() > 0 {
            let sorted = sort_strings(pieces);
            let ghost pre = values.deep_view();
            let ghost entry = (dd[i as int].0, sort_answers(split_hash(dd[i as int].1)));
            values.push((data[i].0.clone(), sorted));
            proof {
                assert(values.deep_view() =~= pre.push(entry));
                assert(pre.push(entry) =~= pre + seq![entry]);
                assert((pre + seq![entry]) + norm_entries(dd, i as int + 1) =~= pre + (seq![entry]
                    + norm_entries(dd, i as int + 1)));
            }
        }
        i = i + 1;
    }
    proof {
        assert(values.deep_view() + Seq::<(Seq<char>, Seq<Seq<char>>)>::empty() =~= values
            .deep_view());
        if raw@.wf() {
            assert(raw@.data == dd);
            assert forall|p: int, q: int| 0 <= p < q < dd.len() implies lex_lt(
                (#[trigger] dd[p]).0,
                (#[trigger] dd[q]).0,
            ) by {
                assert(lex_lt((raw@.data[p]).0, (raw@.data[q]).0));
            }
            lemma_norm_entries_wf(dd, 0);
        }
    }
    Record { key, comment, values }
}

/// Every entry of `norm_entries(data, i)` takes its name from a column at
/// `i` or beyond.
proof fn lemma_norm_entries_from(data: Seq<(Seq<char>, Seq<char>)>, i: int)
    requires
        0 <= i <= data.len(),
    ensures
        forall|t: int|
            0 <= t < norm_entries(data, i).len() ==> exists|j: int|
                i <= j < data.len() && (#[trigger] norm_entries(data, i)[t]).0 == data[j].0,
    decreases data.len() - i,
{
    if i < data.len() {
        lemma_norm_entries_from(data, i + 1);
        let e = norm_entries(data, i);
        let rest = norm_entries(data, i + 1);
        assert forall|t: int| 0 <= t < e.len() implies exists|j: int|
            i <= j < data.len() && (#[trigger] e[t]).0 == data[j].0 by {
            if split_hash(data[i].1).len() > 0 {
                if t == 0 {
                    assert(e[0].0 == data[i].0);
                } else {
                    assert(e[t] == rest[t - 1]);
                    let j = choose|j: int|
                        i + 1 <= j < data.len() && (#[trigger] rest[t - 1]).0 == data[j].0;
                    assert(e[t].0 == data[j].0);
                }
            } else {
                assert(e[t] == rest[t]);
                let j = choose|j: int|
                    i + 1 <= j < data.len() && (#[trigger] rest[t]).0 == data[j].0;
                assert(e[t].0 == data[j].0);
            }
        }
    }
}

/// Columns in strictly sorted order normalize to a well-formed field map.
pub proof fn lemma_norm_entries_wf(data: Seq<(Seq<char>, Seq<char>)>, i: int)
    requires
        0 <= i <= data.len(),
        forall|p: int, q: int|
            0 <= p < q < data.len() ==> lex_lt((#[trigger] data[p]).0, (#[trigger] data[q]).0),
    ensures
        wf_fields(norm_entries(data, i)),
    decreases data.len() - i,
{
    if i < data.len() {
        lemma_norm_entries_wf(data, i + 1);
        lemma_norm_entries_from(data, i + 1);
        let e = norm_entries(data, i);
        let rest = norm_entries(data, i + 1);
        if split_hash(data[i].1).len() > 0 {
            assert forall|p: int, q: int| 0 <= p < q < e.len() implies lex_lt(
                (#[trigger] e[p]).0,
                (#[trigger] e[q]).0,
            ) by {
                if p == 0 {
                    assert(e[q] == rest[q - 1]);
                    let j = choose|j: int|
                        i + 1 <= j < data.len() && (#[trigger] rest[q - 1]).0 == data[j].0;
                    assert(lex_lt(data[i].0, data[j].0));
                } else {
                    assert(e[p] == rest[p - 1]);
                    assert(e[q] == rest[q - 1]);
                    assert(lex_lt(rest[p - 1].0, rest[q - 1].0));
                }
            }
        }
    }
}

/// `map_replace` touches exactly the first entry named `k`, which sits at
/// index `i`.
proof fn lemma_map_replace_at(m: FieldsView, k: Seq<char>, v: Seq<Seq<char>>, i: int)
    requires
        0 <= i < m.len(),
        m[i].0 == k,
        forall|j: int| 0 <= j < i ==> (#[trigger] m[j]).0 != k,
    ensures
        map_replace(m, k, v) == m.update(i, (k, v)),
    decreases m.len(),
{
    if i == 0 {
        assert(map_replace(m, k, v) =~= m.update(0, (k, v)));
    } else {
        assert(m.drop_first()[i - 1] == m[i]);
        assert forall|j: int| 0 <= j < i - 1 implies (#[trigger] m.drop_first()[j]).0 != k by {
            assert(m.drop_first()[j] == m[j + 1]);
        }
        lemma_map_replace_at(m.drop_first(), k, v, i - 1);
        assert(map_replace(m, k, v) =~= m.update(i, (k, v)));
    }
}

/// Finds the entry named `k`, if any.
fn lookup_field<'a>(values: &'a Vec<(String, Vec<String>)>, k: &str) -> (r: Option<
    &'a Vec<String>,
>)
    ensures
        match r {
            Some(v) => map_get(values.deep_view(), k@) == Some(v.deep_view()),
            None => map_get(values.deep_view(), k@) is None,
        },
{
    let ghost dv = values.deep_view();
    let mut i: usize = 0;
    proof {
        assert(dv.skip(0) =~= dv);
    }
    while i < values.len()
        invariant
            i <= values.len(),
            dv == values.deep_view(),
            map_get(dv, k@) == map_get(dv.skip(i as int), k@),
        decreases values.len() - i,
    {
        proof {
            assert(dv.skip(i as int)[0] == dv[i as int]);
            assert(dv[i as int] == (values@[i as int].0@, values@[i as int].1.deep_view()));
        }
        if str_eq(values[i].0.as_str(), k) {
            return Some(&values[i].1);
        }
        proof {
            assert(dv.skip(i as int).drop_first() =~= dv.skip(i as int + 1));
        }
        i = i + 1;
    }
    proof {
        assert(dv.skip(i as int) =~= Seq::<(Seq<char>, Seq<Seq<char>>)>::empty());
    }
    None
}

/// The positionally mismatched answer pairs of two answer lists from `j`
/// on: positions past the shorter list are ignored, and two answers agree
/// when their comparison forms are equal.
pub open spec fn mismatch_from(xs: Seq<Seq<char>>, ys: Seq<Seq<char>>, j: int) -> Seq<
    (Seq<char>, Seq<char>),
>
    decreases xs.len() - j,
{
    if j < 0 || j >= xs.len() || j >= ys.len() {
        Seq::empty()
    } else {
        let rest = mismatch_from(xs, ys, j + 1);
        if canon(xs[j]) != canon(ys[j]) {
            seq![(xs[j], ys[j])] + rest
        } else {
            rest
        }
    }
}

/// All positionally mismatched answer pairs of two answer lists.
pub open spec fn mismatch_pairs(xs: Seq<Seq<char>>, ys: Seq<Seq<char>>) -> Seq<
    (Seq<char>, Seq<char>),
> {
    mismatch_from(xs, ys, 0)
}

/// The per-field diff of two field maps, walking `a`'s entries from `i` on:
/// a field of `a` that `b` also holds and whose answer lists mismatch
/// somewhere contributes its mismatched pairs; all other fields are skipped.
pub open spec fn diff_entries(a: FieldsView, b: FieldsView, i: int) -> Seq<
    (Seq<char>, Seq<(Seq<char>, Seq<char>)>),
>
    decreases a.len() - i,
{
    if i < 0 || i >= a.len() {
        Seq::empty()
    } else {
        let rest = diff_entries(a, b, i + 1);
        match map_get(b, a[i].0) {
            Some(bvals) => {
                let pairs = mismatch_pairs(a[i].1, bvals);
                if pairs.len() > 0 {
                    seq![(a[i].0, pairs)] + rest
                } else {
                    rest
                }
            },
            None => rest,
        }
    }
}

/// The mismatched answer pairs of two answer lists, in position order.
fn mismatch_vec(xs: &Vec<String>, ys: &Vec<String>) -> (r: Vec<(String, String)>)
    ensures
        r.deep_view() == mismatch_pairs(xs.deep_view(), ys.deep_view()),
{
    let ghost xd = xs.deep_view();
    let ghost yd = ys.deep_view();
    let mut r: Vec<(String, String)> = Vec::new();
    let mut j: usize = 0;
    proof {
        assert(r.deep_view() =~= Seq::<(Seq<char>, Seq<char>)>::empty());
        assert(Seq::<(Seq<char>, Seq<char>)>::empty() + mismatch_from(xd, yd, 0) =~= mismatch_from(
            xd,
            yd,
            0,
        ));
    }
    while j < xs.len() && j < ys.len()
        invariant
            j <= xs.len(),
            j <= ys.len(),
            xd == xs.deep_view(),
            yd == ys.deep_view(),
            r.deep_view() + mismatch_from(xd, yd, j as int) == mismatch_pairs(xd, yd),
        decreases xs.len() - j,
    {
        proof {
            assert(xd[j as int] == xs@[j as int]@);
            assert(yd[j as int] == ys@[j as int]@);
        }
        let ca = canon_string_at(xs, j);
        let cb = canon_string_at(ys, j);
        let ghost pre = r.deep_view();
        let ghost rest = mismatch_from(xd, yd, j as int + 1);
        if !str_eq(ca.as_str(), cb.as_str()) {
            r.push((xs[j].clone(), ys[j].clone()));
            proof {
                assert(r.deep_view() =~= pre.push((xd[j as int], yd[j as int])));
                assert(pre.push((xd[j as int], yd[j as int])) =~= pre + seq![
                    (xd[j as int], yd[j as int]),
                ]);
                assert((pre + seq![(xd[j as int], yd[j as int])]) + rest =~= pre + (seq![
                    (xd[j as int], yd[j as int]),
                ] + rest));
            }
        }
        j = j + 1;
    }
    proof {
        assert(r.deep_view() + mismatch_from(xd, yd, j as int) =~= r.deep_view());
    }
    r
}

/// The comparison form of the answer at `j`.
fn canon_string_at(xs: &Vec<String>, j: usize) -> (r: String)
    requires
        j < xs@.len(),
    ensures
        r@ == canon(xs.deep_view()[j as int]),
{
    proof {
        assert(xs.deep_view()[j as int] == xs@[j as int]@);
    }
    crate::text::canon_string(xs[j].as_str())
}

/// Compares an expected record with a submitted one. Records with different
/// keys cannot be compared and give an error; otherwise the result maps each
/// field both records hold to its positionally mismatched original answer
/// pairs, with fields that fully agree absent.
pub fn diff(a: &Record, b: &Record) -> (r: Result<
    Vec<(String, Vec<(String, String)>)>,
    DifferentKeyComp,
>)
    ensures
        r is Err <==> a@.key != b@.key,
        r is Err ==> r == Err::<Vec<(String, Vec<(String, String)>)>, DifferentKeyComp>(
            DifferentKeyComp,
        ),
        r matches Ok(m) ==> m.deep_view() == diff_entries(a@.values, b@.values, 0),
{
    if !str_eq(a.key.as_str(), b.key.as_str()) {
        return Err(DifferentKeyComp);
    }
    let ghost ad = a.values.deep_view();
    let ghost bd = b.values.deep_view();
    let mut res: Vec<(String, Vec<(String, String)>)> = Vec::new();
    let mut i: usize = 0;
    proof {
        assert(res.deep_view() =~= Seq::<(Seq<char>, Seq<(Seq<char>, Seq<char>)>)>::empty());
        assert(Seq::<(Seq<char>, Seq<(Seq<char>, Seq<char>)>)>::empty() + diff_entries(ad, bd, 0)
            =~= diff_entries(ad, bd, 0));
    }
    while i < a.values.len()
        invariant
            i <= a.values.len(),
            ad == a.values.deep_view(),
            bd == b.values.deep_view(),
            res.deep_view() + diff_entries(ad, bd, i as int) == diff_entries(ad, bd, 0),
        decreases a.values.len() - i,
    {
        proof {
            assert(ad[i as int] == (a.values@[i as int].0@, a.values@[i as int].1.deep_view()));
        }
        let ghost rest = diff_entries(ad, bd, i as int + 1);
        match lookup_field(&b.values, a.values[i].0.as_str()) {
            Some(bvals) => {
                let pairs = mismatch_vec(&a.values[i].1, bvals);
                if pairs.len() > 0 {
                    let ghost pre = res.deep_view();
                    let ghost entry = (ad[i as int].0, mismatch_pairs(ad[i as int].1, bvals
                        .deep_view()));
                    res.push((a.values[i].0.clone(), pairs));
                    proof {
                        assert(res.deep_view() =~= pre.push(entry));
                        assert(pre.push(entry) =~= pre + seq![entry]);
                        assert((pre + seq![entry]) + rest =~= pre + (seq![entry] + rest));
                    }
                }
            },
            None => {},
        }
        i = i + 1;
    }
    proof {
        assert(res.deep_view() + diff_entries(ad, bd, i as int) =~= res.deep_view());
    }
    Ok(res)
}

/// With unique field names, looking a record's own entry up by its name
/// finds exactly that entry.
proof fn lemma_map_get_index(m: FieldsView, i: int)
    requires
        wf_fields(m),
        0 <= i < m.len(),
    ensures
        map_get(m, m[i].0) == Some(m[i].1),
    decreases m.len(),
{
    if i == 0 {
    } else {
        crate::order::lemma_lex_lt_asymmetric(m[0].0, m[i].0);
        assert(lex_lt(m[0].0, m[i].0));
        assert(m.drop_first()[i - 1] == m[i]);
        assert forall|p: int, q: int| 0 <= p < q < m.drop_first().len() implies lex_lt(
            (#[trigger] m.drop_first()[p]).0,
            (#[trigger] m.drop_first()[q]).0,
        ) by {
            assert(m.drop_first()[p] == m[p + 1]);
            assert(m.drop_first()[q] == m[q + 1]);
        }
        lemma_map_get_index(m.drop_first(), i - 1);
    }
}

/// A list of answers never mismatches itself: every position compares equal.
proof fn lemma_mismatch_self(xs: Seq<Seq<char>>, j: int)
    ensures
        mismatch_from(xs, xs, j) == Seq::<(Seq<char>, Seq<char>)>::empty(),
    decreases xs.len() - j,
{
    if 0 <= j < xs.len() {
        lemma_mismatch_self(xs, j + 1);
    }
}

/// A map with no entry named `k` has nothing to find for `k`.
proof fn lemma_map_get_none(m: FieldsView, k: Seq<char>)
    requires
        forall|t: int| 0 <= t < m.len() ==> (#[trigger] m[t]).0 != k,
    ensures
        map_get(m, k) is None,
    decreases m.len(),
{
    if m.len() > 0 {
        let md = m.drop_first();
        assert forall|t: int| 0 <= t < md.len() implies (#[trigger] md[t]).0 != k by {
            assert(md[t] == m[t + 1]);
        }
        lemma_map_get_none(m.drop_first(), k);
    }
}

/// Every entry of `format_entries(m, i)` takes its name from an entry of `m`
/// at `i` or beyond.
proof fn lemma_format_entries_from(m: FieldsView, i: int)
    requires
        0 <= i <= m.len(),
    ensures
        forall|t: int|
            0 <= t < format_entries(m, i).len() ==> exists|j: int|
                i <= j < m.len() && (#[trigger] format_entries(m, i)[t]).0 == m[j].0,
    decreases m.len() - i,
{
    if i < m.len() {
        lemma_format_entries_from(m, i + 1);
        let e = format_entries(m, i);
        let rest = format_entries(m, i + 1);
        assert forall|t: int| 0 <= t < e.len() implies exists|j: int|
            i <= j < m.len() && (#[trigger] e[t]).0 == m[j].0 by {
            if !is_blank_answers(m[i].1) {
                if t == 0 {
                    assert(e[0].0 == m[i].0);
                } else {
                    assert(e[t] == rest[t - 1]);
                    let j = choose|j: int|
                        i + 1 <= j < m.len() && (#[trigger] rest[t - 1]).0 == m[j].0;
                    assert(e[t].0 == m[j].0);
                }
            } else {
                assert(e[t] == rest[t]);
                let j = choose|j: int| i + 1 <= j < m.len() && (#[trigger] rest[t]).0 == m[j].0;
                assert(e[t].0 == m[j].0);
            }
        }
    }
}

/// What the format template holds for a name `k`: a single blank answer
/// exactly when `m`'s first entry named `k`, from `i` on, is not already a
/// single blank answer.
proof fn lemma_format_entries_get(m: FieldsView, i: int, k: Seq<char>)
    requires
        wf_fields(m),
        0 <= i <= m.len(),
    ensures
        map_get(format_entries(m, i), k) == (match map_get(m.skip(i), k) {
            Some(v) => if !is_blank_answers(v) {
                Some(seq![Seq::<char>::empty()])
            } else {
                None::<Seq<Seq<char>>>
            },
            None => None::<Seq<Seq<char>>>,
        }),
    decreases m.len() - i,
{
    if i == m.len() {
        assert(m.skip(i) =~= Seq::<(Seq<char>, Seq<Seq<char>>)>::empty());
    } else {
        assert(m.skip(i)[0] == m[i]);
        assert(m.skip(i).drop_first() =~= m.skip(i + 1));
        lemma_format_entries_get(m, i + 1, k);
        let e = format_entries(m, i);
        let rest = format_entries(m, i + 1);
        if m[i].0 == k {
            assert(map_get(m.skip(i), k) == Some(m[i].1));
            if is_blank_answers(m[i].1) {
                lemma_format_entries_from(m, i + 1);
                assert forall|t: int| 0 <= t < rest.len() implies (#[trigger] rest[t]).0
                    != k by {
                    let j = choose|j: int|
                        i + 1 <= j < m.len() && (#[trigger] rest[t]).0 == m[j].0;
                    assert(lex_lt(m[i].0, m[j].0));
                    crate::order::lemma_lex_lt_asymmetric(m[i].0, m[j].0);
                }
                lemma_map_get_none(rest, k);
            } else {
                assert(e[0] == (m[i].0, seq![Seq::<char>::empty()]));
            }
        } else {
            if !is_blank_answers(m[i].1) {
                assert(e =~= seq![(m[i].0, seq![Seq::<char>::empty()])] + rest);
                assert(e[0].0 == m[i].0);
                assert(e.drop_first() =~= rest);
            }
        }
    }
}

/// Law: the format template's field set is exactly the record's fields less
/// those already holding a single blank answer, and every field the template
/// keeps maps to exactly one blank answer.
pub proof fn lemma_copy_format_fields(m: FieldsView, k: Seq<char>)
    requires
        wf_fields(m),
    ensures
        map_has(format_entries(m, 0), k) <==> (map_has(m, k) && !is_blank_answers(
            map_get(m, k)->Some_0,
        )),
        map_has(format_entries(m, 0), k) ==> map_get(format_entries(m, 0), k) == Some(
            seq![Seq::<char>::empty()],
        ),
{
    assert(m.skip(0) =~= m);
    lemma_format_entries_get(m, 0, k);
}

/// The inductive walk behind the truncation law.
proof fn lemma_mismatch_truncating_from(xs: Seq<Seq<char>>, ys: Seq<Seq<char>>, n: int, j: int)
    requires
        0 <= j <= n,
        n == vstd::math::min(xs.len() as int, ys.len() as int),
    ensures
        mismatch_from(xs, ys, j) == mismatch_from(xs.take(n), ys.take(n), j),
    decreases n - j,
{
    if j < n {
        assert(xs.take(n)[j] == xs[j]);
        assert(ys.take(n)[j] == ys[j]);
        lemma_mismatch_truncating_from(xs, ys, n, j + 1);
    }
}

/// Law: the diff of two answer lists walks positions in lock step and stops
/// at the end of the shorter list; answers past it are ignored, not
/// reported.
pub proof fn lemma_mismatch_truncating(xs: Seq<Seq<char>>, ys: Seq<Seq<char>>)
    ensures
        mismatch_pairs(xs, ys) == mismatch_pairs(
            xs.take(vstd::math::min(xs.len() as int, ys.len() as int)),
            ys.take(vstd::math::min(xs.len() as int, ys.len() as int)),
        ),
{
    lemma_mismatch_truncating_from(
        xs,
        ys,
        vstd::math::min(xs.len() as int, ys.len() as int),
        0,
    );
}

/// The inductive walk behind the reflexivity law.
proof fn lemma_diff_reflexive_from(m: FieldsView, i: int)
    requires
        wf_fields(m),
        0 <= i <= m.len(),
    ensures
        diff_entries(m, m, i) == Seq::<(Seq<char>, Seq<(Seq<char>, Seq<char>)>)>::empty(),
    decreases m.len() - i,
{
    if i < m.len() {
        lemma_map_get_index(m, i);
        lemma_mismatch_self(m[i].1, 0);
        lemma_diff_reflexive_from(m, i + 1);
    }
}

/// Law: the diff is reflexive. Diffing a well-formed record against itself
/// reports no mismatch at all, so `diff(a, a)` returns the empty mapping.
pub proof fn lemma_diff_reflexive(m: FieldsView)
    requires
        wf_fields(m),
    ensures
        diff_entries(m, m, 0) == Seq::<(Seq<char>, Seq<(Seq<char>, Seq<char>)>)>::empty(),
{
    lemma_diff_reflexive_from(m, 0);
}

} // verus!
