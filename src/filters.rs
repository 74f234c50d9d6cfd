//! The record transformation operators.

use crate::text::{
    decimal, seq_le, str_le, to_upper, tooltip_captures, tooltip_match, trim, trimmed, upper_of,
    year_text,
};
use crate::render::{csv_text, same_width, write_csv};
use std::ops::Range;
use vstd::prelude::*;

verus! {

/// One row of a table: its fields in order.
pub type Record = Vec<String>;

/// Why an operator refused its input. `row` is the position of the first
/// offending record.
#[derive(Debug, Clone, Copy, PartialEq, Eq, Structural)]
pub enum FilterError {
    /// A record has no field at `index`.
    IndexOutOfRange { row: usize, index: usize },
    /// The range `start..end` does not lie within a record.
    RangeOutOfBounds { row: usize, start: usize, end: usize },
    /// The field at `index` is not of the form `VALUE [LOW-HIGH]`.
    TooltipMismatch { row: usize, index: usize },
    /// Records handed to the CSV writer differ in field count.
    UnequalLengths,
}

/// A row as a sequence of field texts.
pub type RowView = Seq<Seq<char>>;

/// A table as a sequence of rows.
pub type TableView = Seq<RowView>;

pub open spec fn result_view(r: Result<Vec<Record>, FilterError>) -> Result<TableView, FilterError> {
    match r {
        Ok(v) => Ok(v.deep_view()),
        Err(e) => Err(e),
    }
}

/// What one record becomes: the records it is replaced by, or the error it
/// raises. The integer is the record's position.
pub type RowStep = spec_fn(RowView, int) -> Result<TableView, FilterError>;

/// Applies `f` to each element in order and concatenates the results; stops
/// at the first element that raises an error.
pub open spec fn concat_steps<A, B>(
    s: Seq<A>,
    f: spec_fn(A, int) -> Result<Seq<B>, FilterError>,
) -> Result<Seq<B>, FilterError>
    decreases s.len(),
{
    if s.len() == 0 {
        Ok(seq![])
    } else {
        match concat_steps(s.drop_last(), f) {
            Err(e) => Err(e),
            Ok(p) => match f(s.last(), s.len() - 1) {
                Err(e) => Err(e),
                Ok(r) => Ok(p + r),
            },
        }
    }
}

/// The table that `f` makes of `s`, record by record.
pub open spec fn apply_rows(s: TableView, f: RowStep) -> Result<TableView, FilterError> {
    concat_steps(s, f)
}

/// An error raised within a prefix is the error of the whole.
pub proof fn lemma_concat_prefix_err<A, B>(
    s: Seq<A>,
    f: spec_fn(A, int) -> Result<Seq<B>, FilterError>,
    j: int,
)
    requires
        0 <= j <= s.len(),
        concat_steps(s.subrange(0, j), f) is Err,
    ensures
        concat_steps(s, f) == concat_steps(s.subrange(0, j), f),
    decreases s.len(),
{
    if j < s.len() {
        assert(s.drop_last().subrange(0, j) =~= s.subrange(0, j));
        lemma_concat_prefix_err(s.drop_last(), f, j);
    } else {
        assert(s.subrange(0, j) =~= s);
    }
}

/// One step of a loop over `s`: the prefix grows by one element.
pub proof fn lemma_concat_step<A, B>(
    s: Seq<A>,
    f: spec_fn(A, int) -> Result<Seq<B>, FilterError>,
    i: int,
)
    requires
        0 <= i < s.len(),
    ensures
        concat_steps(s.subrange(0, i + 1), f) == (match concat_steps(s.subrange(0, i), f) {
            Err(e) => Err(e),
            Ok(p) => match f(s[i], i) {
                Err(e) => Err(e),
                Ok(r) => Ok(p + r),
            },
        }),
        s.subrange(0, 0) =~= Seq::<A>::empty(),
{
    assert(s.subrange(0, i + 1).drop_last() =~= s.subrange(0, i));
}

/// The whole sequence, once a loop has gone through it.
pub proof fn lemma_concat_done<A, B>(s: Seq<A>, f: spec_fn(A, int) -> Result<Seq<B>, FilterError>)
    ensures
        concat_steps(s.subrange(0, s.len() as int), f) == concat_steps(s, f),
        concat_steps(Seq::<A>::empty(), f) == Ok::<Seq<B>, FilterError>(Seq::<B>::empty()),
{
    assert(s.subrange(0, s.len() as int) =~= s);
}

// ----- remove -----

pub open spec fn remove_row(index: usize) -> RowStep {
    |row: RowView, at: int|
        if index < row.len() {
            Ok(seq![row.remove(index as int)])
        } else {
            Err(FilterError::IndexOutOfRange { row: at as usize, index })
        }
}

// ----- keep_values -----

/// Whether `f`, trimmed, equals one of `values`, trimmed.
pub open spec fn allowed(values: Seq<Seq<char>>, f: Seq<char>) -> bool {
    exists|k: int| 0 <= k < values.len() && trimmed(#[trigger] values[k]) == trimmed(f)
}

pub open spec fn keep_row(values: Seq<Seq<char>>, index: usize) -> RowStep {
    |row: RowView, at: int|
        if index >= row.len() {
            Err(FilterError::IndexOutOfRange { row: at as usize, index })
        } else if allowed(values, row[index as int]) {
            Ok(seq![row])
        } else {
            Ok(seq![])
        }
}

pub open spec fn strs_view(values: Seq<&str>) -> Seq<Seq<char>> {
    values.map_values(|v: &str| v@)
}

// ----- select_ranges -----

pub open spec fn range_fields(row: RowView, at: int) -> spec_fn(Range<usize>, int) -> Result<
    RowView,
    FilterError,
> {
    |r: Range<usize>, k: int|
        if r.start <= r.end && r.end <= row.len() {
            Ok(row.subrange(r.start as int, r.end as int))
        } else {
            Err(FilterError::RangeOutOfBounds { row: at as usize, start: r.start, end: r.end })
        }
}

pub open spec fn select_row(ranges: Seq<Range<usize>>) -> RowStep {
    |row: RowView, at: int|
        match concat_steps(ranges, range_fields(row, at)) {
            Err(e) => Err(e),
            Ok(fields) => Ok(seq![fields]),
        }
}

// ----- transpose_years -----

pub open spec fn year_row(row: RowView, base: Range<usize>, at: int) -> spec_fn(
    (usize, i32),
    int,
) -> Result<TableView, FilterError> {
    |p: (usize, i32), k: int|
        if !(base.start <= base.end && base.end <= row.len()) {
            Err(FilterError::RangeOutOfBounds { row: at as usize, start: base.start, end: base.end })
        } else if p.0 >= row.len() {
            Err(FilterError::IndexOutOfRange { row: at as usize, index: p.0 })
        } else {
            Ok(
                seq![row.subrange(base.start as int, base.end as int) + seq![decimal(p.1 as int), row[p.0 as int]]],
            )
        }
}

pub open spec fn transpose_row(base: Range<usize>, years: Seq<(usize, i32)>) -> RowStep {
    |row: RowView, at: int| concat_steps(years, year_row(row, base, at))
}

// ----- split_tool_tip -----

/// The position of the tooltip field: `index`, or the last field.
pub open spec fn tooltip_index(row: RowView, index: Option<usize>) -> int {
    match index {
        Some(i) => i as int,
        None => row.len() - 1,
    }
}

pub open spec fn split_row(index: Option<usize>) -> RowStep {
    |row: RowView, at: int|
        {
            let t = tooltip_index(row, index);
            if !(0 <= t < row.len()) {
                Err(FilterError::IndexOutOfRange { row: at as usize, index: if t < 0 { 0 } else { t as usize } })
            } else {
                match tooltip_match(trimmed(row[t])) {
                    None => Err(FilterError::TooltipMismatch { row: at as usize, index: t as usize }),
                    Some((v, lo, hi)) => Ok(
                        seq![row.subrange(0, t) + seq![v, lo, hi] + row.subrange(t + 1, row.len() as int)],
                    ),
                }
            }
        }
}

// ----- rename_country -----

/// The canonical spelling of a country name: the first alias group whose
/// upper-case form equals the field's, trimmed and upper-cased, gives it.
pub open spec fn canonical(f: Seq<char>) -> Seq<char> {
    let u = upper_of(trimmed(f));
    if u == upper_of("Lao PDR"@) || u == upper_of("Lao People's Democratic Republic"@) {
        "Lao PDR"@
    } else if u == upper_of("Vietnam"@) || u == upper_of("Viet Nam"@) || u == upper_of(
        "South Viet Nam (former)"@,
    ) {
        "Viet Nam"@
    } else {
        f
    }
}

pub open spec fn rename_row(index: usize) -> RowStep {
    |row: RowView, at: int|
        if index < row.len() {
            Ok(seq![row.update(index as int, canonical(row[index as int]))])
        } else {
            Err(FilterError::IndexOutOfRange { row: at as usize, index })
        }
}

/// Whether record `a` comes no later than `b` by their fields at `index`.
pub open spec fn key_le(a: RowView, b: RowView, index: usize) -> bool {
    seq_le(a[index as int], b[index as int])
}

/// `t` with `x` placed after every record whose key is not greater than its own.
pub open spec fn insert_row(t: TableView, x: RowView, index: usize) -> TableView
    decreases t.len(),
{
    if t.len() == 0 || key_le(t.last(), x, index) {
        t.push(x)
    } else {
        insert_row(t.drop_last(), x, index).push(t.last())
    }
}

/// The stable sort of `s` by the field at `index`.
pub open spec fn sort_by_field(s: TableView, index: usize) -> TableView
    decreases s.len(),
{
    if s.len() == 0 {
        s
    } else {
        insert_row(sort_by_field(s.drop_last(), index), s.last(), index)
    }
}

/// Canonical names at `index`, then sorted by that field.
pub open spec fn renamed_sorted(s: TableView, index: usize) -> Result<TableView, FilterError> {
    match apply_rows(s, rename_row(index)) {
        Err(e) => Err(e),
        Ok(t) => Ok(sort_by_field(t, index)),
    }
}

/// Every record of `t` satisfies `p`.
pub open spec fn all_rows(t: TableView, p: spec_fn(RowView) -> bool) -> bool {
    forall|k: int| 0 <= k < t.len() ==> p(#[trigger] t[k])
}

pub open spec fn has_field(index: usize) -> spec_fn(RowView) -> bool {
    |row: RowView| index < row.len()
}

pub proof fn lemma_insert_row_keeps(t: TableView, x: RowView, index: usize, p: spec_fn(RowView) -> bool)
    requires
        all_rows(t, p),
        p(x),
    ensures
        all_rows(insert_row(t, x, index), p),
        insert_row(t, x, index).len() == t.len() + 1,
    decreases t.len(),
{
    if t.len() == 0 || key_le(t.last(), x, index) {
    } else {
        lemma_insert_row_keeps(t.drop_last(), x, index, p);
        let r = insert_row(t.drop_last(), x, index).push(t.last());
        assert forall|k: int| 0 <= k < r.len() implies p(#[trigger] r[k]) by {
            if k < r.len() - 1 {
                assert(r[k] == insert_row(t.drop_last(), x, index)[k]);
            }
        }
    }
}

pub proof fn lemma_sort_keeps(s: TableView, index: usize, p: spec_fn(RowView) -> bool)
    requires
        all_rows(s, p),
    ensures
        all_rows(sort_by_field(s, index), p),
        sort_by_field(s, index).len() == s.len(),
    decreases s.len(),
{
    if s.len() > 0 {
        lemma_sort_keeps(s.drop_last(), index, p);
        lemma_insert_row_keeps(sort_by_field(s.drop_last(), index), s.last(), index, p);
    }
}

/// Inserting behind the records whose keys are greater than `x`'s.
proof fn lemma_insert_row_split(t: TableView, x: RowView, index: usize, p: int)
    requires
        0 < p <= t.len(),
        !key_le(t[p - 1], x, index),
    ensures
        insert_row(t.subrange(0, p), x, index) == insert_row(t.subrange(0, p - 1), x, index).push(
            t[p - 1],
        ),
{
    assert(t.subrange(0, p).drop_last() =~= t.subrange(0, p - 1));
}

// ----- to_csv -----

/// What is written: the header, unless it is empty, then the records.
pub open spec fn csv_records(headers: Seq<Seq<char>>, s: TableView) -> TableView {
    if headers.len() > 0 {
        seq![headers] + s
    } else {
        s
    }
}

pub trait RecordFilter: Sized {
    /// The records of the table.
    spec fn rows(&self) -> TableView;

    /// Renders the header, unless it is empty, and the records as CSV text.
    /// Records of unequal field counts are refused.
    fn to_csv(&self, headers: &[&str]) -> (r: Result<String, FilterError>)
        ensures
            r is Ok <==> same_width(csv_records(strs_view(headers@), self.rows())),
            r matches Ok(text) ==> text@ == csv_text(csv_records(strs_view(headers@), self.rows())),
            r matches Err(e) ==> e == FilterError::UnequalLengths,
    ;

    /// Rewrites the field at `index` of every record to its canonical
    /// country name, then sorts the records stably by that field.
    fn rename_country(&self, index: usize) -> (r: Result<Vec<Record>, FilterError>)
        ensures
            result_view(r) == renamed_sorted(self.rows(), index),
    ;

    /// Replaces the tooltip field `VALUE [LOW-HIGH]` of every record, at
    /// `index` or else the last field, by the three fields value, low, high.
    fn split_tool_tip(&self, index: Option<usize>) -> (r: Result<Vec<Record>, FilterError>)
        ensures
            result_view(r) == apply_rows(self.rows(), split_row(index)),
    ;

    /// Deletes the field at `index` from every record; a record without that
    /// field is an error.
    fn remove(&self, index: usize) -> (r: Result<Vec<Record>, FilterError>)
        ensures
            result_view(r) == apply_rows(self.rows(), remove_row(index)),
    ;

    /// Keeps, in order, the records whose field at `index`, trimmed, equals
    /// one of `values`, trimmed.
    fn keep_values(&self, values: &[&str], index: usize) -> (r: Result<Vec<Record>, FilterError>)
        ensures
            result_view(r) == apply_rows(self.rows(), keep_row(strs_view(values@), index)),
    ;

    /// Makes each record the concatenation of its slices `ranges`, in the
    /// order given.
    fn select_ranges(&self, ranges: Vec<Range<usize>>) -> (r: Result<Vec<Record>, FilterError>)
        ensures
            result_view(r) == apply_rows(self.rows(), select_row(ranges@)),
    ;

    /// Turns each record into one record per pair of `years`: the fields of
    /// `base`, the year, and the field the pair points at.
    fn transpose_years(&self, base: Range<usize>, years: Vec<(usize, i32)>) -> (r: Result<
        Vec<Record>,
        FilterError,
    >)
        ensures
            result_view(r) == apply_rows(self.rows(), transpose_row(base, years@)),
    ;
}

fn copy_fields(fields: &Record, start: usize, end: usize, out: &mut Record)
    requires
        start <= end <= fields@.len(),
    ensures
        final(out).deep_view() == old(out).deep_view() + fields.deep_view().subrange(
            start as int,
            end as int,
        ),
{
    let mut k: usize = start;
    while k < end
        invariant
            start <= k <= end <= fields@.len(),
            out.deep_view() == old(out).deep_view() + fields.deep_view().subrange(
                start as int,
                k as int,
            ),
        decreases end - k,
    {
        let ghost before = out.deep_view();
        out.push(fields[k].clone());
        proof {
            assert(out.deep_view() =~= before.push(fields.deep_view()[k as int]));
            assert(out.deep_view() =~= old(out).deep_view() + fields.deep_view().subrange(
                start as int,
                k + 1,
            ));
        }
        k = k + 1;
    }
}

/// The canonical spelling of `field`.
pub(crate) fn canonical_name(field: &String) -> (r: String)
    ensures
        r@ == canonical(field@),
{
    let u = to_upper(trim(field.as_str()));
    if u == to_upper("Lao PDR") || u == to_upper("Lao People's Democratic Republic") {
        "Lao PDR".to_owned()
    } else if u == to_upper("Vietnam") || u == to_upper("Viet Nam") || u == to_upper(
        "South Viet Nam (former)",
    ) {
        "Viet Nam".to_owned()
    } else {
        field.clone()
    }
}

/// Places `x` into the sorted table `t`, after every record whose key is
/// not greater than its own.
fn insert_sorted(t: &mut Vec<Record>, x: Record, index: usize)
    requires
        all_rows(old(t).deep_view(), has_field(index)),
        index < x@.len(),
    ensures
        final(t).deep_view() == insert_row(old(t).deep_view(), x.deep_view(), index),
        all_rows(final(t).deep_view(), has_field(index)),
{
    let ghost t0 = t.deep_view();
    let ghost xv = x.deep_view();
    let mut p: usize = t.len();
    proof {
        assert(t0.subrange(0, p as int) =~= t0);
        assert(t0.subrange(p as int, t0.len() as int) =~= Seq::<RowView>::empty());
    }
    while p > 0 && !str_le(t[p - 1][index].as_str(), x[index].as_str())
        invariant
            p <= t@.len(),
            t.deep_view() == t0,
            xv == x.deep_view(),
            index < x@.len(),
            all_rows(t0, has_field(index)),
            insert_row(t0, xv, index) == insert_row(t0.subrange(0, p as int), xv, index) + t0.subrange(
                p as int,
                t0.len() as int,
            ),
        decreases p,
    {
        proof {
            assert(has_field(index)(t0[p - 1]));
            lemma_insert_row_split(t0, xv, index, p as int);
            assert(t0.subrange(p - 1, t0.len() as int) =~= seq![t0[p - 1]] + t0.subrange(
                p as int,
                t0.len() as int,
            ));
            assert(insert_row(t0.subrange(0, p - 1), xv, index).push(t0[p - 1]) + t0.subrange(
                p as int,
                t0.len() as int,
            ) =~= insert_row(t0.subrange(0, p - 1), xv, index) + t0.subrange(
                p - 1,
                t0.len() as int,
            ));
        }
        p = p - 1;
    }
    proof {
        let pre = t0.subrange(0, p as int);
        if p > 0 {
            assert(pre.last() == t0[p - 1]);
        }
        assert(insert_row(pre, xv, index) == pre.push(xv));
        lemma_insert_row_keeps(t0, xv, index, has_field(index));
    }
    t.insert(p, x);
    proof {
        assert(t.deep_view() =~= t0.subrange(0, p as int).push(xv) + t0.subrange(
            p as int,
            t0.len() as int,
        ));
    }
}

impl RecordFilter for Vec<Record> {
    open spec fn rows(&self) -> TableView {
        self.deep_view()
    }

    fn to_csv(&self, headers: &[&str]) -> (r: Result<String, FilterError>) {
        let ghost s = self.deep_view();
        let ghost hv = strs_view(headers@);
        let mut records: Vec<Record> = Vec::new();
        if headers.len() > 0 {
            let mut header: Record = Vec::new();
            let mut k: usize = 0;
            while k < headers.len()
                invariant
                    k <= headers@.len(),
                    hv == strs_view(headers@),
                    header.deep_view() == hv.subrange(0, k as int),
                decreases headers@.len() - k,
            {
                let ghost before = header.deep_view();
                let name = headers[k].to_owned();
                header.push(name);
                proof {
                    assert(hv[k as int] == headers@[k as int]@);
                    assert(header.deep_view() =~= before.push(name@));
                    assert(header.deep_view() =~= hv.subrange(0, k + 1));
                }
                k = k + 1;
            }
            proof {
                assert(hv.subrange(0, k as int) =~= hv);
            }
            records.push(header);
            proof {
                assert(records.deep_view() =~= seq![hv]);
            }
        }
        let ghost start = records.deep_view();
        let mut i: usize = 0;
        proof {
            assert(start =~= start + s.subrange(0, 0));
        }
        while i < self.len()
            invariant
                i <= self@.len(),
                s == self.deep_view(),
                records.deep_view() == start + s.subrange(0, i as int),
            decreases self@.len() - i,
        {
            let mut copy: Record = Vec::new();
            copy_fields(&self[i], 0, self[i].len(), &mut copy);
            let ghost before = records.deep_view();
            records.push(copy);
            proof {
                assert(copy.deep_view() =~= s[i as int]);
                assert(records.deep_view() =~= before.push(s[i as int]));
                assert(records.deep_view() =~= start + s.subrange(0, i + 1));
            }
            i = i + 1;
        }
        proof {
            assert(records.deep_view() =~= csv_records(hv, s));
        }
        match write_csv(&records) {
            Ok(text) => Ok(text),
            Err(_) => Err(FilterError::UnequalLengths),
        }
    }

    fn rename_country(&self, index: usize) -> (r: Result<Vec<Record>, FilterError>) {
        let ghost s = self.deep_view();
        let ghost f = rename_row(index);
        let mut out: Vec<Record> = Vec::new();
        let mut i: usize = 0;
        proof {
            lemma_concat_done(s, f);
            assert(s.subrange(0, 0) =~= Seq::<RowView>::empty());
            assert(out.deep_view() =~= Seq::<RowView>::empty());
            assert(sort_by_field(Seq::<RowView>::empty(), index) == Seq::<RowView>::empty());
        }
        while i < self.len()
            invariant
                i <= self@.len(),
                s == self.deep_view(),
                f == rename_row(index),
                concat_steps(s.subrange(0, i as int), f) matches Ok(u) && out.deep_view()
                    == sort_by_field(u, index) && all_rows(u, has_field(index)),
                all_rows(out.deep_view(), has_field(index)),
            decreases self@.len() - i,
        {
            proof {
                lemma_concat_step(s, f, i as int);
            }
            let rec = &self[i];
            if index >= rec.len() {
                proof {
                    lemma_concat_prefix_err(s, f, i + 1);
                }
                return Err(FilterError::IndexOutOfRange { row: i, index });
            }
            let mut new_rec: Record = Vec::new();
            copy_fields(rec, 0, index, &mut new_rec);
            let name = canonical_name(&rec[index]);
            let ghost head = new_rec.deep_view();
            new_rec.push(name);
            proof {
                assert(new_rec.deep_view() =~= head.push(name@));
            }
            copy_fields(rec, index + 1, rec.len(), &mut new_rec);
            let ghost row = new_rec.deep_view();
            proof {
                assert(row =~= s[i as int].update(index as int, canonical(s[i as int][index as int])));
                let u = concat_steps(s.subrange(0, i as int), f).unwrap();
                let u2 = u + seq![row];
                assert(u2.drop_last() =~= u);
                assert(u2.last() == row);
                assert(all_rows(u2, has_field(index))) by {
                    assert forall|k: int| 0 <= k < u2.len() implies has_field(index)(#[trigger] u2[k]) by {
                        if k < u.len() {
                            assert(u2[k] == u[k]);
                        }
                    }
                }
            }
            insert_sorted(&mut out, new_rec, index);
            i = i + 1;
        }
        proof {
            lemma_concat_done(s, f);
        }
        Ok(out)
    }

    fn split_tool_tip(&self, index: Option<usize>) -> (r: Result<Vec<Record>, FilterError>) {
        let ghost s = self.deep_view();
        let ghost f = split_row(index);
        let mut out: Vec<Record> = Vec::new();
        let mut i: usize = 0;
        proof {
            lemma_concat_done(s, f);
            assert(s.subrange(0, 0) =~= Seq::<RowView>::empty());
            assert(out.deep_view() =~= Seq::<RowView>::empty());
        }
        while i < self.len()
            invariant
                i <= self@.len(),
                s == self.deep_view(),
                f == split_row(index),
                concat_steps(s.subrange(0, i as int), f) == Ok::<TableView, FilterError>(out.deep_view()),
            decreases self@.len() - i,
        {
            proof {
                lemma_concat_step(s, f, i as int);
            }
            let rec = &self[i];
            let t: usize = match index {
                Some(k) => k,
                None => {
                    if rec.len() == 0 {
                        proof {
                            lemma_concat_prefix_err(s, f, i + 1);
                        }
                        return Err(FilterError::IndexOutOfRange { row: i, index: 0 });
                    }
                    rec.len() - 1
                },
            };
            if t >= rec.len() {
                proof {
                    lemma_concat_prefix_err(s, f, i + 1);
                }
                return Err(FilterError::IndexOutOfRange { row: i, index: t });
            }
            let caps = tooltip_captures(trim(rec[t].as_str()));
            match caps {
                None => {
                    proof {
                        lemma_concat_prefix_err(s, f, i + 1);
                    }
                    return Err(FilterError::TooltipMismatch { row: i, index: t });
                },
                Some((v, lo, hi)) => {
                    let mut new_rec: Record = Vec::new();
                    copy_fields(rec, 0, t, &mut new_rec);
                    new_rec.push(v);
                    new_rec.push(lo);
                    new_rec.push(hi);
                    copy_fields(rec, t + 1, rec.len(), &mut new_rec);
                    let ghost fields = new_rec.deep_view();
                    proof {
                        let row = s[i as int];
                        let (a, b, c) = tooltip_match(trimmed(row[t as int])).unwrap();
                        assert(fields =~= row.subrange(0, t as int) + seq![a, b, c] + row.subrange(
                            t + 1,
                            row.len() as int,
                        ));
                    }
                    let ghost before = out.deep_view();
                    out.push(new_rec);
                    proof {
                        assert(out.deep_view() =~= before + seq![fields]);
                    }
                },
            }
            i = i + 1;
        }
        proof {
            lemma_concat_done(s, f);
        }
        Ok(out)
    }

    fn remove(&self, index: usize) -> (r: Result<Vec<Record>, FilterError>) {
        let ghost s = self.deep_view();
        let ghost f = remove_row(index);
        let mut out: Vec<Record> = Vec::new();
        let mut i: usize = 0;
        proof {
            lemma_concat_done(s, f);
            assert(s.subrange(0, 0) =~= Seq::<RowView>::empty());
            assert(out.deep_view() =~= Seq::<RowView>::empty());
        }
        while i < self.len()
            invariant
                i <= self@.len(),
                s == self.deep_view(),
                f == remove_row(index),
                concat_steps(s.subrange(0, i as int), f) == Ok::<TableView, FilterError>(out.deep_view()),
            decreases self@.len() - i,
        {
            proof {
                lemma_concat_step(s, f, i as int);
            }
            let rec = &self[i];
            if index >= rec.len() {
                proof {
                    lemma_concat_prefix_err(s, f, i + 1);
                }
                return Err(FilterError::IndexOutOfRange { row: i, index });
            }
            let mut new_rec: Record = Vec::new();
            copy_fields(rec, 0, index, &mut new_rec);
            copy_fields(rec, index + 1, rec.len(), &mut new_rec);
            proof {
                assert(new_rec.deep_view() =~= s[i as int].remove(index as int));
            }
            let ghost before = out.deep_view();
            out.push(new_rec);
            proof {
                assert(out.deep_view() =~= before + seq![s[i as int].remove(index as int)]);
            }
            i = i + 1;
        }
        proof {
            lemma_concat_done(s, f);
        }
        Ok(out)
    }

    fn keep_values(&self, values: &[&str], index: usize) -> (r: Result<Vec<Record>, FilterError>) {
        let ghost s = self.deep_view();
        let ghost vals = strs_view(values@);
        let ghost f = keep_row(vals, index);
        let mut out: Vec<Record> = Vec::new();
        let mut i: usize = 0;
        proof {
            lemma_concat_done(s, f);
            assert(s.subrange(0, 0) =~= Seq::<RowView>::empty());
            assert(out.deep_view() =~= Seq::<RowView>::empty());
        }
        while i < self.len()
            invariant
                i <= self@.len(),
                s == self.deep_view(),
                vals == strs_view(values@),
                f == keep_row(vals, index),
                concat_steps(s.subrange(0, i as int), f) == Ok::<TableView, FilterError>(out.deep_view()),
            decreases self@.len() - i,
        {
            proof {
                lemma_concat_step(s, f, i as int);
            }
            let rec = &self[i];
            if index >= rec.len() {
                proof {
                    lemma_concat_prefix_err(s, f, i + 1);
                }
                return Err(FilterError::IndexOutOfRange { row: i, index });
            }
            let field = trim(rec[index].as_str()).to_owned();
            let mut found = false;
            let mut k: usize = 0;
            while k < values.len()
                invariant
                    k <= values@.len(),
                    field@ == trimmed(s[i as int][index as int]),
                    vals == strs_view(values@),
                    found == (exists|m: int| 0 <= m < k && trimmed(#[trigger] vals[m]) == field@),
                decreases values@.len() - k,
            {
                let v = trim(values[k]).to_owned();
                if v == field {
                    found = true;
                }
                proof {
                    assert(vals[k as int] == values@[k as int]@);
                    if found {
                        if v@ == field@ {
                            assert(trimmed(vals[k as int]) == field@);
                        }
                    } else {
                        assert forall|m: int| 0 <= m < k + 1 implies trimmed(#[trigger] vals[m]) != field@ by {
                            if m == k {
                                assert(v@ == trimmed(vals[m]));
                            }
                        }
                    }
                }
                k = k + 1;
            }
            let ghost before = out.deep_view();
            if found {
                let mut kept: Record = Vec::new();
                copy_fields(rec, 0, rec.len(), &mut kept);
                proof {
                    assert(kept.deep_view() =~= s[i as int]);
                }
                out.push(kept);
                proof {
                    assert(out.deep_view() =~= before + seq![s[i as int]]);
                }
            } else {
                proof {
                    assert(before =~= before + Seq::<RowView>::empty());
                }
            }
            i = i + 1;
        }
        proof {
            lemma_concat_done(s, f);
        }
        Ok(out)
    }

    fn select_ranges(&self, ranges: Vec<Range<usize>>) -> (r: Result<Vec<Record>, FilterError>) {
        let ghost s = self.deep_view();
        let ghost f = select_row(ranges@);
        let mut out: Vec<Record> = Vec::new();
        let mut i: usize = 0;
        proof {
            lemma_concat_done(s, f);
            assert(s.subrange(0, 0) =~= Seq::<RowView>::empty());
            assert(out.deep_view() =~= Seq::<RowView>::empty());
        }
        while i < self.len()
            invariant
                i <= self@.len(),
                s == self.deep_view(),
                f == select_row(ranges@),
                concat_steps(s.subrange(0, i as int), f) == Ok::<TableView, FilterError>(out.deep_view()),
            decreases self@.len() - i,
        {
            proof {
                lemma_concat_step(s, f, i as int);
            }
            let rec = &self[i];
            let ghost g = range_fields(s[i as int], i as int);
            let mut new_rec: Record = Vec::new();
            let mut j: usize = 0;
            proof {
                lemma_concat_done(ranges@, g);
                assert(ranges@.subrange(0, 0) =~= Seq::<Range<usize>>::empty());
                assert(new_rec.deep_view() =~= Seq::<Seq<char>>::empty());
            }
            while j < ranges.len()
                invariant
                    j <= ranges@.len(),
                    i < s.len(),
                    s == self.deep_view(),
                    rec.deep_view() == s[i as int],
                    g == range_fields(s[i as int], i as int),
                    f == select_row(ranges@),
                    concat_steps(s.subrange(0, i as int), f) == Ok::<TableView, FilterError>(out.deep_view()),
                    concat_steps(ranges@.subrange(0, j as int), g) == Ok::<RowView, FilterError>(new_rec.deep_view()),
                decreases ranges@.len() - j,
            {
                proof {
                    lemma_concat_step(ranges@, g, j as int);
                }
                let start = ranges[j].start;
                let end = ranges[j].end;
                if start > end || end > rec.len() {
                    proof {
                        lemma_concat_prefix_err(ranges@, g, j + 1);
                        lemma_concat_step(s, f, i as int);
                        lemma_concat_prefix_err(s, f, i + 1);
                    }
                    return Err(FilterError::RangeOutOfBounds { row: i, start, end });
                }
                copy_fields(rec, start, end, &mut new_rec);
                j = j + 1;
            }
            proof {
                lemma_concat_done(ranges@, g);
            }
            let ghost before = out.deep_view();
            let ghost fields = new_rec.deep_view();
            out.push(new_rec);
            proof {
                assert(out.deep_view() =~= before + seq![fields]);
            }
            i = i + 1;
        }
        proof {
            lemma_concat_done(s, f);
        }
        Ok(out)
    }

    fn transpose_years(&self, base: Range<usize>, years: Vec<(usize, i32)>) -> (r: Result<
        Vec<Record>,
        FilterError,
    >) {
        let ghost s = self.deep_view();
        let ghost f = transpose_row(base, years@);
        let mut out: Vec<Record> = Vec::new();
        let mut i: usize = 0;
        proof {
            lemma_concat_done(s, f);
            assert(s.subrange(0, 0) =~= Seq::<RowView>::empty());
            assert(out.deep_view() =~= Seq::<RowView>::empty());
        }
        while i < self.len()
            invariant
                i <= self@.len(),
                s == self.deep_view(),
                f == transpose_row(base, years@),
                concat_steps(s.subrange(0, i as int), f) == Ok::<TableView, FilterError>(out.deep_view()),
            decreases self@.len() - i,
        {
            proof {
                lemma_concat_step(s, f, i as int);
            }
            let rec = &self[i];
            let ghost g = year_row(s[i as int], base, i as int);
            let ghost before = out.deep_view();
            let mut j: usize = 0;
            proof {
                lemma_concat_done(years@, g);
                assert(years@.subrange(0, 0) =~= Seq::<(usize, i32)>::empty());
                assert(out.deep_view() =~= before + Seq::<RowView>::empty());
            }
            while j < years.len()
                invariant
                    j <= years@.len(),
                    i < s.len(),
                    s == self.deep_view(),
                    rec.deep_view() == s[i as int],
                    g == year_row(s[i as int], base, i as int),
                    f == transpose_row(base, years@),
                    concat_steps(s.subrange(0, i as int), f) == Ok::<TableView, FilterError>(before),
                    concat_steps(years@.subrange(0, j as int), g) matches Ok(p) && out.deep_view() == before + p,
                decreases years@.len() - j,
            {
                proof {
                    lemma_concat_step(years@, g, j as int);
                }
                if base.start > base.end || base.end > rec.len() {
                    proof {
                        lemma_concat_prefix_err(years@, g, j + 1);
                        lemma_concat_step(s, f, i as int);
                        lemma_concat_prefix_err(s, f, i + 1);
                    }
                    return Err(FilterError::RangeOutOfBounds { row: i, start: base.start, end: base.end });
                }
                let (index, year) = years[j];
                if index >= rec.len() {
                    proof {
                        lemma_concat_prefix_err(years@, g, j + 1);
                        lemma_concat_step(s, f, i as int);
                        lemma_concat_prefix_err(s, f, i + 1);
                    }
                    return Err(FilterError::IndexOutOfRange { row: i, index });
                }
                let mut new_rec: Record = Vec::new();
                copy_fields(rec, base.start, base.end, &mut new_rec);
                new_rec.push(year_text(year));
                new_rec.push(rec[index].clone());
                let ghost fields = new_rec.deep_view();
                proof {
                    assert(fields =~= s[i as int].subrange(base.start as int, base.end as int) + seq![decimal(year as int), s[i as int][index as int]]);
                }
                let ghost mid = out.deep_view();
                out.push(new_rec);
                proof {
                    let p = concat_steps(years@.subrange(0, j as int), g).unwrap();
                    assert(mid == before + p);
                    assert(out.deep_view() =~= mid.push(fields));
                    assert(out.deep_view() =~= before + (p + seq![fields]));
                }
                j = j + 1;
            }
            proof {
                lemma_concat_done(years@, g);
            }
            i = i + 1;
        }
        proof {
            lemma_concat_done(s, f);
        }
        Ok(out)
    }
}


} // verus!
