//! The report: one row per key, in ascending order of key, with minimum,
//! mean and maximum written with one fractional digit.

use crate::fixed::{render_value, value_text};
use crate::parser::{NEWLINE, SEPARATOR};
use crate::record::Stats;
use crate::table::{lemma_sorted_same_keys, strictly_sorted, Table};
use crate::tally::Tally;
use vstd::prelude::*;
use vstd::slice::slice_to_vec;

verus! {

/// One row of the report. The numbers are tenths.
#[derive(Debug, PartialEq, Eq)]
pub struct ReportRow {
    pub key: Vec<u8>,
    pub min: i16,
    pub mean: i16,
    pub max: i16,
}

/// Mathematical model of a row.
pub struct RowModel {
    pub key: Seq<u8>,
    pub min: int,
    pub mean: int,
    pub max: int,
}

impl View for ReportRow {
    type V = RowModel;

    open spec fn view(&self) -> RowModel {
        RowModel {
            key: self.key@,
            min: self.min as int,
            mean: self.mean as int,
            max: self.max as int,
        }
    }
}

/// The models of a list of rows.
pub open spec fn rows_view(rows: Seq<ReportRow>) -> Seq<RowModel> {
    rows.map_values(|r: ReportRow| r@)
}

/// The keys of a list of rows.
pub open spec fn row_keys(rows: Seq<RowModel>) -> Seq<Seq<u8>> {
    rows.map_values(|r: RowModel| r.key)
}

/// The row that reports an accumulator under a key.
pub open spec fn row_of(key: Seq<u8>, s: Stats) -> RowModel {
    RowModel { key, min: s.min, mean: s.mean(), max: s.max }
}

/// `rows` is the report of `t`: ascending by key, a row for every key of
/// the tally and for no other, each row with its key's numbers.
pub open spec fn is_report(t: Tally, rows: Seq<RowModel>) -> bool {
    &&& strictly_sorted(row_keys(rows))
    &&& forall|i: int|
        0 <= i < rows.len() ==> t.contains_key((#[trigger] rows[i]).key) && rows[i] == row_of(
            rows[i].key,
            t[rows[i].key],
        )
    &&& forall|k: Seq<u8>| #[trigger] t.contains_key(k) ==> row_keys(rows).contains(k)
}

/// The line of a row: `key;min;mean;max` and a newline.
pub open spec fn row_text(r: RowModel) -> Seq<u8> {
    r.key + seq![SEPARATOR] + value_text(r.min) + seq![SEPARATOR] + value_text(r.mean)
        + seq![SEPARATOR] + value_text(r.max) + seq![NEWLINE]
}

/// The lines of all rows, one after the other.
pub open spec fn report_text(rows: Seq<RowModel>) -> Seq<u8>
    decreases rows.len(),
{
    if rows.len() == 0 {
        Seq::empty()
    } else {
        report_text(rows.drop_last()) + row_text(rows.last())
    }
}

/// The report of a tally.
pub open spec fn report_of(t: Tally) -> Seq<RowModel> {
    choose|rows: Seq<RowModel>| is_report(t, rows)
}

/// A tally has one report only.
pub proof fn lemma_report_unique(t: Tally, a: Seq<RowModel>, b: Seq<RowModel>)
    requires
        is_report(t, a),
        is_report(t, b),
    ensures
        a == b,
{
    let ka = row_keys(a);
    let kb = row_keys(b);
    assert forall|k: Seq<u8>| ka.contains(k) <==> kb.contains(k) by {
        if ka.contains(k) {
            let i = ka.index_of(k);
            assert(a[i].key == k);
        }
        if kb.contains(k) {
            let i = kb.index_of(k);
            assert(b[i].key == k);
        }
    }
    lemma_sorted_same_keys(ka, kb);
    assert forall|i: int| 0 <= i < a.len() implies a[i] == b[i] by {
        assert(ka[i] == kb[i]);
        assert(a[i].key == b[i].key);
    }
    assert(a.len() == ka.len() && b.len() == kb.len());
    assert(a =~= b);
}

/// Whatever is a report of a tally is the report of it.
pub proof fn lemma_report_of(t: Tally, rows: Seq<RowModel>)
    requires
        is_report(t, rows),
    ensures
        rows == report_of(t),
{
    lemma_report_unique(t, rows, report_of(t));
}

/// The report of a table.
pub fn report(table: &Table) -> (rows: Vec<ReportRow>)
    requires
        table.wf(),
    ensures
        is_report(table@, rows_view(rows@)),
        rows_view(rows@) == report_of(table@),
        row_keys(rows_view(rows@)) == table.keys(),
{
    let n = table.len();
    let mut rows: Vec<ReportRow> = Vec::new();
    let mut i: usize = 0;
    while i < n
        invariant
            table.wf(),
            n == table.keys().len(),
            i <= n,
            rows@.len() == i,
            forall|j: int|
                0 <= j < i ==> (#[trigger] rows@[j])@ == row_of(
                    table.keys()[j],
                    table@[table.keys()[j]],
                ),
        decreases n - i,
    {
        let key = slice_to_vec(table.key_at(i));
        let record = table.record_at(i);
        let row = ReportRow { key, min: record.min(), mean: record.mean(), max: record.max() };
        rows.push(row);
        i = i + 1;
    }
    proof {
        let models = rows_view(rows@);
        assert(row_keys(models) =~= table.keys());
        assert forall|j: int| 0 <= j < models.len() implies table@.contains_key(
            (#[trigger] models[j]).key,
        ) && models[j] == row_of(models[j].key, table@[models[j].key]) by {
            assert(models[j] == rows@[j]@);
            assert(table.keys().contains(table.keys()[j]));
        }
        lemma_report_of(table@, models);
    }
    rows
}

/// The line of a row.
pub fn format_row(row: &ReportRow) -> (text: Vec<u8>)
    ensures
        text@ == row_text(row@),
{
    let mut text: Vec<u8> = Vec::new();
    text.extend_from_slice(row.key.as_slice());
    text.push(SEPARATOR);
    let min = render_value(row.min);
    text.extend_from_slice(min.as_slice());
    text.push(SEPARATOR);
    let mean = render_value(row.mean);
    text.extend_from_slice(mean.as_slice());
    text.push(SEPARATOR);
    let max = render_value(row.max);
    text.extend_from_slice(max.as_slice());
    text.push(NEWLINE);
    assert(text@ =~= row_text(row@));
    text
}

/// The lines of all rows, one after the other.
pub fn format_report(rows: &Vec<ReportRow>) -> (text: Vec<u8>)
    ensures
        text@ == report_text(rows_view(rows@)),
{
    let mut text: Vec<u8> = Vec::new();
    let mut i: usize = 0;
    while i < rows.len()
        invariant
            i <= rows@.len(),
            text@ == report_text(rows_view(rows@).take(i as int)),
        decreases rows@.len() - i,
    {
        let line = format_row(&rows[i]);
        proof {
            let models = rows_view(rows@);
            assert(models.take(i + 1).drop_last() =~= models.take(i as int));
            assert(models.take(i + 1).last() == rows@[i as int]@);
        }
        text.extend_from_slice(line.as_slice());
        i = i + 1;
    }
    proof {
        assert(rows_view(rows@).take(rows@.len() as int) =~= rows_view(rows@));
    }
    text
}

} // verus!
