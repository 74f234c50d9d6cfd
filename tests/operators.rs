use sea_datasets::laws::aliases_are_canonical;
use sea_datasets::{FilterError, Record, RecordFilter};

fn table(rows: &[&[&str]]) -> Vec<Record> {
    rows.iter()
        .map(|r| r.iter().map(|f| f.to_string()).collect())
        .collect()
}

#[test]
fn rename_maps_aliases_and_sorts() {
    let t = table(&[
        &["Viet Nam", "1"],
        &["  lao people's democratic republic ", "2"],
        &["South Viet Nam (former)", "3"],
        &["Cambodia", "4"],
    ]);
    let out = t.rename_country(0).unwrap();
    assert_eq!(
        out,
        table(&[
            &["Cambodia", "4"],
            &["Lao PDR", "2"],
            &["Viet Nam", "1"],
            &["Viet Nam", "3"],
        ])
    );
}

#[test]
fn rename_keeps_unknown_names_verbatim() {
    let t = table(&[&[" Laos "], &["France"]]);
    let out = t.rename_country(0).unwrap();
    assert_eq!(out, table(&[&[" Laos "], &["France"]]));
}

#[test]
fn rename_twice_is_rename_once() {
    let t = table(&[
        &["vietnam", "a"],
        &["Lao PDR", "b"],
        &["Thailand", "c"],
        &["LAO PEOPLE'S DEMOCRATIC REPUBLIC", "d"],
    ]);
    let once = t.rename_country(0).unwrap();
    let twice = once.rename_country(0).unwrap();
    assert_eq!(once, twice);
}

#[test]
fn canonical_names_map_to_themselves() {
    assert!(aliases_are_canonical());
}

#[test]
fn rename_output_is_sorted_by_raw_field() {
    let t = table(&[&["b"], &[" a"], &["B"], &["a"], &["Viet Nam"], &["Lao PDR"]]);
    let out = t.rename_country(0).unwrap();
    for w in out.windows(2) {
        assert!(w[0][0] <= w[1][0]);
    }
    assert_eq!(out[0][0], " a");
}

#[test]
fn rename_rejects_missing_field() {
    let t = table(&[&["Cambodia", "x"], &["Myanmar"]]);
    assert_eq!(
        t.rename_country(1),
        Err(FilterError::IndexOutOfRange { row: 1, index: 1 })
    );
}

#[test]
fn filter_keeps_renamed_lao_row() {
    let t = table(&[&["Lao People's Democratic Republic"], &["France"]]);
    let out = t
        .rename_country(0)
        .unwrap()
        .keep_values(&["Lao PDR"], 0)
        .unwrap();
    assert_eq!(out, table(&[&["Lao PDR"]]));
}

#[test]
fn filter_drops_name_that_is_not_an_alias() {
    let t = table(&[&["Laos"], &["France"]]);
    let out = t
        .rename_country(0)
        .unwrap()
        .keep_values(&["Lao PDR"], 0)
        .unwrap();
    assert!(out.is_empty());
}

#[test]
fn keep_values_trims_both_sides_and_keeps_order() {
    let t = table(&[&[" Myanmar ", "1"], &["France", "2"], &["Cambodia", "3"]]);
    let out = t.keep_values(&["Cambodia", "Myanmar  "], 0).unwrap();
    assert_eq!(out, table(&[&[" Myanmar ", "1"], &["Cambodia", "3"]]));
}

#[test]
fn keep_values_is_case_sensitive() {
    let t = table(&[&["cambodia"]]);
    assert!(t.keep_values(&["Cambodia"], 0).unwrap().is_empty());
}

#[test]
fn keep_values_rejects_missing_field() {
    let t = table(&[&["a"]]);
    assert_eq!(
        t.keep_values(&["a"], 3),
        Err(FilterError::IndexOutOfRange { row: 0, index: 3 })
    );
}

#[test]
fn tooltip_splits_last_field() {
    let t = table(&[&["X", "12.3 [10.1-14.5]"]]);
    let out = t.split_tool_tip(None).unwrap();
    assert_eq!(out, table(&[&["X", "12.3", "10.1", "14.5"]]));
}

#[test]
fn tooltip_splits_given_field_and_keeps_the_rest() {
    let t = table(&[&["A", " 5 [4 -6] ", "Z"]]);
    let out = t.split_tool_tip(Some(1)).unwrap();
    assert_eq!(out, table(&[&["A", "5", "4", "6", "Z"]]));
}

#[test]
fn tooltip_mismatch_is_an_error() {
    let t = table(&[&["X", "1 [0-2]"], &["Y", "n/a"]]);
    assert_eq!(
        t.split_tool_tip(None),
        Err(FilterError::TooltipMismatch { row: 1, index: 1 })
    );
}

#[test]
fn tooltip_index_out_of_range_is_an_error() {
    let t = table(&[&["X"]]);
    assert_eq!(
        t.split_tool_tip(Some(4)),
        Err(FilterError::IndexOutOfRange { row: 0, index: 4 })
    );
    let empty_row: Vec<Record> = vec![vec![]];
    assert_eq!(
        empty_row.split_tool_tip(None),
        Err(FilterError::IndexOutOfRange { row: 0, index: 0 })
    );
}

#[test]
fn remove_drops_one_field_per_row() {
    let t = table(&[&["a", "b", "c"], &["d", "e", "f"]]);
    let out = t.remove(1).unwrap();
    assert_eq!(out, table(&[&["a", "c"], &["d", "f"]]));
    for (before, after) in t.iter().zip(out.iter()) {
        assert_eq!(after.len(), before.len() - 1);
    }
}

#[test]
fn remove_rejects_missing_field() {
    let t = table(&[&["a", "b"], &["c"]]);
    assert_eq!(t.remove(1), Err(FilterError::IndexOutOfRange { row: 1, index: 1 }));
}

#[test]
fn select_ranges_concatenates_in_given_order() {
    let t = table(&[&["0", "1", "2", "3", "4"]]);
    let out = t.select_ranges(vec![3..5, 0..2]).unwrap();
    assert_eq!(out, table(&[&["3", "4", "0", "1"]]));
    assert_eq!(out[0].len(), 2 + 2);
}

#[test]
fn select_ranges_rejects_range_past_end() {
    let t = table(&[&["0", "1"]]);
    assert_eq!(
        t.select_ranges(vec![0..1, 1..3]),
        Err(FilterError::RangeOutOfBounds { row: 0, start: 1, end: 3 })
    );
}

#[test]
fn transpose_fans_out_rows_grouped_by_input_row() {
    let t = table(&[&["A", "a", "x1", "x2", "x3"], &["B", "b", "y1", "y2", "y3"]]);
    let out = t
        .transpose_years(0..2, vec![(2, 2010), (3, 2011), (4, -7)])
        .unwrap();
    assert_eq!(out.len(), 2 * 3);
    assert_eq!(
        out,
        table(&[
            &["A", "a", "2010", "x1"],
            &["A", "a", "2011", "x2"],
            &["A", "a", "-7", "x3"],
            &["B", "b", "2010", "y1"],
            &["B", "b", "2011", "y2"],
            &["B", "b", "-7", "y3"],
        ])
    );
}

#[test]
fn transpose_rejects_bad_year_column() {
    let t = table(&[&["A", "1"]]);
    assert_eq!(
        t.transpose_years(0..1, vec![(1, 2000), (5, 2001)]),
        Err(FilterError::IndexOutOfRange { row: 0, index: 5 })
    );
    assert_eq!(
        t.transpose_years(0..3, vec![(1, 2000)]),
        Err(FilterError::RangeOutOfBounds { row: 0, start: 0, end: 3 })
    );
}

#[test]
fn to_csv_quotes_where_needed() {
    let t = table(&[&["a,b", "say \"hi\""], &["plain", "x"]]);
    let text = t.to_csv(&["H1", "H2"]).unwrap();
    assert_eq!(text, "H1,H2\n\"a,b\",\"say \"\"hi\"\"\"\nplain,x\n");
}

#[test]
fn to_csv_without_header() {
    let t = table(&[&["1", "2"]]);
    assert_eq!(t.to_csv(&[]).unwrap(), "1,2\n");
}

#[test]
fn to_csv_rejects_unequal_lengths() {
    let t = table(&[&["1", "2"]]);
    assert_eq!(t.to_csv(&["only"]), Err(FilterError::UnequalLengths));
}

#[test]
fn csv_round_trip() {
    let t = table(&[
        &["Viet Nam", "line\nbreak", "q\"uote"],
        &["Lao PDR", "a,b", " padded "],
    ]);
    let text = t.to_csv(&["c1", "c2", "c3"]).unwrap();
    let mut reader = csv::Reader::from_reader(text.as_bytes());
    let parsed: Vec<Record> = reader
        .records()
        .map(|r| r.unwrap().iter().map(|f| f.to_string()).collect())
        .collect();
    assert_eq!(parsed, t);
}
