//! Properties that relate the operators' results to their inputs.

use crate::filters::{
    all_rows, apply_rows, canonical, canonical_name, concat_steps, insert_row, key_le,
    lemma_sort_keeps, remove_row, range_fields, rename_row, renamed_sorted, select_row,
    sort_by_field, transpose_row, year_row, FilterError, RowView, TableView,
};
use crate::text::{decimal, lemma_seq_le_total};
use std::ops::Range;
use vstd::prelude::*;

verus! {

/// When every step yields `n` elements, the concatenation holds `n` elements
/// per input element, in input order.
pub proof fn lemma_concat_uniform<A, B>(
    s: Seq<A>,
    f: spec_fn(A, int) -> Result<Seq<B>, FilterError>,
    n: nat,
)
    requires
        forall|a: A, at: int| #[trigger] f(a, at) is Ok ==> f(a, at)->Ok_0.len() == n,
    ensures
        concat_steps(s, f) matches Ok(t) ==> {
            &&& t.len() == s.len() * n
            &&& forall|i: int|
                0 <= i < s.len() ==> #[trigger] f(s[i], i) is Ok && t.subrange(i * n, i * n + n)
                    == f(s[i], i)->Ok_0
        },
    decreases s.len(),
{
    if s.len() > 0 {
        lemma_concat_uniform(s.drop_last(), f, n);
        if concat_steps(s, f) is Ok {
            let t = concat_steps(s, f)->Ok_0;
            let p = concat_steps(s.drop_last(), f)->Ok_0;
            let r = f(s.last(), s.len() - 1)->Ok_0;
            let m = s.len() - 1;
            assert(t == p + r);
            assert(p.len() == m * n);
            assert(t.len() == s.len() * n) by (nonlinear_arith)
                requires
                    t.len() == p.len() + n,
                    p.len() == m * n,
                    m == s.len() - 1,
            ;
            assert forall|i: int| 0 <= i < s.len() implies #[trigger] f(s[i], i) is Ok
                && t.subrange(i * n, i * n + n) == f(s[i], i)->Ok_0 by {
                if i < m {
                    assert(i * n + n <= m * n) by (nonlinear_arith)
                        requires
                            i < m,
                            0 <= i,
                    ;
                    assert(0 <= i * n) by (nonlinear_arith)
                        requires
                            0 <= i,
                    ;
                    assert(s.drop_last()[i] == s[i]);
                    assert(t.subrange(i * n, i * n + n) =~= p.subrange(i * n, i * n + n));
                } else {
                    assert(i * n == m * n);
                    assert(t.subrange(i * n, i * n + n) =~= r);
                }
            }
        }
    }
}

/// The records that one record becomes under `transpose_years`.
pub open spec fn fanned(row: RowView, base: Range<usize>, years: Seq<(usize, i32)>) -> TableView {
    Seq::new(
        years.len(),
        |k: int|
            row.subrange(base.start as int, base.end as int) + seq![
                decimal(years[k].1 as int),
                row[years[k].0 as int],
            ],
    )
}

proof fn lemma_fan_row(row: RowView, base: Range<usize>, years: Seq<(usize, i32)>, at: int)
    ensures
        concat_steps(years, year_row(row, base, at)) matches Ok(t) ==> t == fanned(row, base, years),
{
    let g = year_row(row, base, at);
    lemma_concat_uniform(years, g, 1);
    if concat_steps(years, g) is Ok {
        let t = concat_steps(years, g)->Ok_0;
        assert forall|k: int| 0 <= k < years.len() implies t[k] == fanned(row, base, years)[k] by {
            assert(g(years[k], k) is Ok);
            assert(t.subrange(k * 1, k * 1 + 1)[0] == t[k]);
        }
        assert(t =~= fanned(row, base, years));
    }
}

/// `transpose_years` on `N` records with `K` year pairs gives `N * K`
/// records: the `K` records made of each input record, in input order.
pub proof fn law_transpose_cardinality(s: TableView, base: Range<usize>, years: Seq<(usize, i32)>)
    ensures
        apply_rows(s, transpose_row(base, years)) matches Ok(t) ==> {
            &&& t.len() == s.len() * years.len()
            &&& forall|i: int|
                0 <= i < s.len() ==> t.subrange(i * years.len(), i * years.len() + years.len())
                    == fanned(#[trigger] s[i], base, years)
        },
{
    let f = transpose_row(base, years);
    assert forall|row: RowView, at: int| #[trigger] f(row, at) is Ok implies f(row, at)->Ok_0.len()
        == years.len() by {
        lemma_fan_row(row, base, years, at);
    }
    lemma_concat_uniform(s, f, years.len());
    if apply_rows(s, f) is Ok {
        assert forall|i: int| 0 <= i < s.len() implies apply_rows(s, f)->Ok_0.subrange(
            i * years.len(),
            i * years.len() + years.len(),
        ) == fanned(#[trigger] s[i], base, years) by {
            assert(f(s[i], i) is Ok);
            lemma_fan_row(s[i], base, years, i);
        }
    }
}

/// An operator whose every record becomes one record keeps the table's
/// length, record by record.
proof fn lemma_one_to_one(s: TableView, f: spec_fn(RowView, int) -> Result<TableView, FilterError>)
    requires
        forall|a: RowView, at: int| #[trigger] f(a, at) is Ok ==> f(a, at)->Ok_0.len() == 1,
    ensures
        concat_steps(s, f) matches Ok(t) ==> {
            &&& t.len() == s.len()
            &&& forall|i: int| 0 <= i < s.len() ==> #[trigger] f(s[i], i) == Ok::<TableView, FilterError>(seq![t[i]])
        },
{
    lemma_concat_uniform(s, f, 1);
    if concat_steps(s, f) is Ok {
        let t = concat_steps(s, f)->Ok_0;
        assert forall|i: int| 0 <= i < s.len() implies #[trigger] f(s[i], i) == Ok::<TableView, FilterError>(seq![t[i]]) by {
            assert(f(s[i], i) is Ok);
            assert(t.subrange(i * 1, i * 1 + 1) =~= seq![t[i]]);
        }
    }
}

/// `remove` takes exactly one field from every record.
pub proof fn law_remove_width(s: TableView, index: usize)
    ensures
        apply_rows(s, remove_row(index)) matches Ok(t) ==> {
            &&& t.len() == s.len()
            &&& forall|i: int| 0 <= i < s.len() ==> #[trigger] t[i].len() == s[i].len() - 1
        },
{
    let f = remove_row(index);
    lemma_one_to_one(s, f);
    if apply_rows(s, f) is Ok {
        let t = apply_rows(s, f)->Ok_0;
        assert forall|i: int| 0 <= i < s.len() implies #[trigger] t[i].len() == s[i].len() - 1 by {
            assert(f(s[i], i) == Ok::<TableView, FilterError>(seq![t[i]]));
            assert(f(s[i], i)->Ok_0[0] == t[i]);
            assert(index < s[i].len());
            assert(f(s[i], i)->Ok_0[0] == s[i].remove(index as int));
        }
    }
}

/// The total length of `ranges`.
pub open spec fn ranges_width(ranges: Seq<Range<usize>>) -> int
    decreases ranges.len(),
{
    if ranges.len() == 0 {
        0
    } else {
        ranges_width(ranges.drop_last()) + ranges.last().end - ranges.last().start
    }
}

proof fn lemma_select_width(row: RowView, ranges: Seq<Range<usize>>, at: int)
    ensures
        concat_steps(ranges, range_fields(row, at)) matches Ok(fields) ==> fields.len() == ranges_width(
            ranges,
        ),
    decreases ranges.len(),
{
    if ranges.len() > 0 {
        lemma_select_width(row, ranges.drop_last(), at);
    }
}

/// Every record that `select_ranges` makes has as many fields as the ranges
/// cover together.
pub proof fn law_select_width(s: TableView, ranges: Seq<Range<usize>>)
    ensures
        apply_rows(s, select_row(ranges)) matches Ok(t) ==> {
            &&& t.len() == s.len()
            &&& forall|i: int| 0 <= i < t.len() ==> #[trigger] t[i].len() == ranges_width(ranges)
        },
{
    let f = select_row(ranges);
    assert forall|row: RowView, at: int| #[trigger] f(row, at) is Ok implies f(row, at)->Ok_0.len()
        == 1 by {}
    lemma_one_to_one(s, f);
    if apply_rows(s, f) is Ok {
        let t = apply_rows(s, f)->Ok_0;
        assert forall|i: int| 0 <= i < t.len() implies #[trigger] t[i].len() == ranges_width(ranges) by {
            assert(f(s[i], i) == Ok::<TableView, FilterError>(seq![t[i]]));
            assert(f(s[i], i)->Ok_0[0] == t[i]);
            assert(concat_steps(ranges, range_fields(s[i], i)) is Ok);
            assert(concat_steps(ranges, range_fields(s[i], i))->Ok_0 == t[i]);
            lemma_select_width(s[i], ranges, i);
        }
    }
}

/// Each record's field at `index` is no greater than the next record's.
pub open spec fn sorted_by_field(t: TableView, index: usize) -> bool {
    forall|k: int| 0 <= k < t.len() - 1 ==> #[trigger] key_le(t[k], t[k + 1], index)
}

proof fn lemma_insert_sorted(t: TableView, x: RowView, index: usize)
    requires
        sorted_by_field(t, index),
    ensures
        sorted_by_field(insert_row(t, x, index), index),
        insert_row(t, x, index).last() == x || (t.len() > 0 && insert_row(t, x, index).last()
            == t.last()),
    decreases t.len(),
{
    if t.len() == 0 || key_le(t.last(), x, index) {
        let r = t.push(x);
        assert forall|k: int| 0 <= k < r.len() - 1 implies #[trigger] key_le(r[k], r[k + 1], index) by {
            if k < t.len() - 1 {
                assert(key_le(t[k], t[k + 1], index));
            }
        }
    } else {
        let t1 = t.drop_last();
        assert forall|k: int| 0 <= k < t1.len() - 1 implies #[trigger] key_le(t1[k], t1[k + 1], index) by {
            assert(key_le(t[k], t[k + 1], index));
        }
        lemma_insert_sorted(t1, x, index);
        let r1 = insert_row(t1, x, index);
        let r = r1.push(t.last());
        if r1.last() == x {
            lemma_seq_le_total(t.last()[index as int], x[index as int]);
        } else {
            let j = t.len() - 2;
            assert(key_le(t[j], t[j + 1], index));
        }
        assert forall|k: int| 0 <= k < r.len() - 1 implies #[trigger] key_le(r[k], r[k + 1], index) by {
            if k < r1.len() - 1 {
                assert(key_le(r1[k], r1[k + 1], index));
            }
        }
    }
}

proof fn lemma_sort_sorted(s: TableView, index: usize)
    ensures
        sorted_by_field(sort_by_field(s, index), index),
    decreases s.len(),
{
    if s.len() > 0 {
        lemma_sort_sorted(s.drop_last(), index);
        lemma_insert_sorted(sort_by_field(s.drop_last(), index), s.last(), index);
    }
}

/// After `rename_country`, the records are in order of their field at `index`.
pub proof fn law_rename_sorted(s: TableView, index: usize)
    ensures
        renamed_sorted(s, index) matches Ok(t) ==> sorted_by_field(t, index),
{
    if apply_rows(s, rename_row(index)) is Ok {
        lemma_sort_sorted(apply_rows(s, rename_row(index))->Ok_0, index);
    }
}

/// Sorting a sorted table leaves it as it is.
proof fn lemma_sort_of_sorted(t: TableView, index: usize)
    requires
        sorted_by_field(t, index),
    ensures
        sort_by_field(t, index) == t,
    decreases t.len(),
{
    if t.len() > 0 {
        let t1 = t.drop_last();
        assert forall|k: int| 0 <= k < t1.len() - 1 implies #[trigger] key_le(t1[k], t1[k + 1], index) by {
            assert(key_le(t[k], t[k + 1], index));
        }
        lemma_sort_of_sorted(t1, index);
        if t1.len() > 0 {
            let j = t.len() - 2;
            assert(key_le(t[j], t[j + 1], index));
        }
        assert(t1.push(t.last()) =~= t);
    }
}

/// The canonical names are their own canonical names.
pub open spec fn canonical_names_fixed() -> bool {
    canonical("Lao PDR"@) == "Lao PDR"@ && canonical("Viet Nam"@) == "Viet Nam"@
}

/// Tells whether the canonical names are their own canonical names, which
/// the upper-case and trimming rules of the platform decide.
pub fn aliases_are_canonical() -> (r: bool)
    ensures
        r == canonical_names_fixed(),
{
    let lao = "Lao PDR".to_owned();
    let viet = "Viet Nam".to_owned();
    canonical_name(&lao) == lao && canonical_name(&viet) == viet
}

pub open spec fn renamed_at(index: usize) -> spec_fn(RowView) -> bool {
    |row: RowView| index < row.len() && canonical(row[index as int]) == row[index as int]
}

proof fn lemma_rename_fixed(t: TableView, index: usize)
    requires
        all_rows(t, renamed_at(index)),
    ensures
        apply_rows(t, rename_row(index)) == Ok::<TableView, FilterError>(t),
    decreases t.len(),
{
    if t.len() > 0 {
        let t1 = t.drop_last();
        assert(all_rows(t1, renamed_at(index))) by {
            assert forall|k: int| 0 <= k < t1.len() implies renamed_at(index)(#[trigger] t1[k]) by {
                assert(renamed_at(index)(t[k]));
            }
        }
        lemma_rename_fixed(t1, index);
        assert(renamed_at(index)(t[t.len() - 1]));
        assert(t.last().update(index as int, canonical(t.last()[index as int])) =~= t.last());
        let f = rename_row(index);
        assert(f(t.last(), t.len() - 1) == Ok::<TableView, FilterError>(seq![t.last()]));
        assert(t1 + seq![t.last()] =~= t);
        assert(concat_steps(t1, f) == Ok::<TableView, FilterError>(t1));
    } else {
        assert(t =~= Seq::<RowView>::empty());
    }
}

/// Renaming twice gives what renaming once gives, wherever the canonical
/// names are their own canonical names.
pub proof fn law_rename_idempotent(s: TableView, index: usize)
    requires
        canonical_names_fixed(),
    ensures
        renamed_sorted(s, index) matches Ok(t) ==> renamed_sorted(t, index) == Ok::<
            TableView,
            FilterError,
        >(t),
{
    let f = rename_row(index);
    if apply_rows(s, f) is Ok {
        let u = apply_rows(s, f)->Ok_0;
        lemma_one_to_one(s, f);
        assert forall|k: int| 0 <= k < u.len() implies renamed_at(index)(#[trigger] u[k]) by {
            assert(f(s[k], k) == Ok::<TableView, FilterError>(seq![u[k]]));
            assert(f(s[k], k)->Ok_0[0] == u[k]);
            let c = canonical(s[k][index as int]);
            assert(u[k][index as int] == c);
        }
        lemma_sort_keeps(u, index, renamed_at(index));
        let t = sort_by_field(u, index);
        lemma_rename_fixed(t, index);
        lemma_sort_sorted(u, index);
        lemma_sort_of_sorted(t, index);
    }
}

} // verus!
