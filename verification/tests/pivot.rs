use pivot_wasm::{compare_text, parse_i64, DataRow, Order, PivotEngine, VisCol};

fn row(pairs: &[(&str, &str)]) -> DataRow {
    let mut r = DataRow::new();
    for (k, v) in pairs {
        r.insert(k.to_string(), v.to_string());
    }
    r
}

fn finals() -> Vec<DataRow> {
    vec![
        row(&[("competition", "Cup"), ("season", "2010"), ("winner", "Reds"), ("runner_up", "Blues")]),
        row(&[("competition", "League"), ("season", "9"), ("winner", "Blues"), ("runner_up", "Greens")]),
        row(&[("competition", "Cup"), ("season", "2001"), ("winner", "Greens"), ("runner_up", "Reds")]),
        row(&[("competition", "League"), ("season", "10"), ("winner", "Blues"), ("runner_up", "")]),
        row(&[("competition", "Cup"), ("season", "1999"), ("winner", "Reds"), ("runner_up", "Blues")]),
    ]
}

fn keys(v: &[VisCol]) -> Vec<String> {
    v.iter().map(|c| c.key.clone()).collect()
}

fn members(e: &PivotEngine, cgi: usize) -> Vec<String> {
    e.col_group_members(cgi).clone()
}

#[test]
fn data_row_insert_replaces_and_get_reads() {
    let mut r = DataRow::new();
    assert_eq!(r.len(), 0);
    assert_eq!(r.insert("a".to_string(), "1".to_string()), None);
    assert_eq!(r.insert("b".to_string(), "2".to_string()), None);
    assert_eq!(r.insert("a".to_string(), "3".to_string()), Some("1".to_string()));
    assert_eq!(r.len(), 2);
    assert_eq!(r.get("a"), Some(&"3".to_string()));
    assert_eq!(r.get("b"), Some(&"2".to_string()));
    assert_eq!(r.get("c"), None);
    let (k, v) = r.field_at(1);
    assert_eq!((k.as_str(), v.as_str()), ("b", "2"));
}

#[test]
fn parse_i64_agrees_with_std() {
    let cases = [
        "", "0", "7", "-7", "+7", "-", "+", "+-1", "--1", "007", "12a", " 1", "1 ", "2010",
        "9223372036854775807", "9223372036854775808", "-9223372036854775808",
        "-9223372036854775809", "99999999999999999999999", "٣", "1_000", "-0",
    ];
    for c in cases {
        assert_eq!(parse_i64(c), c.parse::<i64>().ok(), "case {:?}", c);
    }
}

#[test]
fn compare_text_agrees_with_std() {
    let cases = ["", "a", "b", "ab", "abc", "B", "Á", "é", "10", "9", "z", "zz", "日本"];
    for a in cases {
        for b in cases {
            let expected = match a.cmp(b) {
                std::cmp::Ordering::Less => Order::Less,
                std::cmp::Ordering::Equal => Order::Equal,
                std::cmp::Ordering::Greater => Order::Greater,
            };
            assert_eq!(compare_text(a, b), expected, "{:?} vs {:?}", a, b);
        }
    }
}

#[test]
fn groups_follow_first_appearance_and_season_order() {
    let e = PivotEngine::new(finals());
    assert_eq!(e.data_len(), 5);
    assert_eq!(e.group_count(), 2);
    assert_eq!(e.group_competition(0), "Cup");
    assert_eq!(e.group_competition(1), "League");
    // Cup seasons 2010, 2001, 1999 -> ascending by value
    assert_eq!(e.group_row_indices(0), &vec![4, 2, 0]);
    // League seasons "9" and "10" compare as numbers, not as text
    assert_eq!(e.group_row_indices(1), &vec![1, 3]);
    assert_eq!(e.row(3).get("season"), Some(&"10".to_string()));
}

#[test]
fn text_seasons_sort_as_text_and_ties_keep_row_order() {
    let rows = vec![
        row(&[("competition", "X"), ("season", "b")]),
        row(&[("competition", "X"), ("season", "a")]),
        row(&[("competition", "X"), ("season", "b")]),
        row(&[("competition", "X"), ("season", "10")]),
        row(&[("competition", "X"), ("season", "a")]),
    ];
    let e = PivotEngine::new(rows);
    // "10" < "a" < "b" as text; equal seasons keep their row order
    assert_eq!(e.group_row_indices(0), &vec![3, 1, 4, 0, 2]);
}

#[test]
fn rows_without_competition_share_the_empty_group() {
    let rows = vec![row(&[("season", "1")]), row(&[("competition", "A")]), row(&[("season", "0")])];
    let e = PivotEngine::new(rows);
    assert_eq!(e.group_count(), 2);
    assert_eq!(e.group_competition(0), "");
    assert_eq!(e.group_row_indices(0), &vec![2, 0]);
    assert_eq!(e.group_row_indices(1), &vec![1]);
}

#[test]
fn column_groups_hold_sorted_distinct_non_empty_teams() {
    let e = PivotEngine::new(finals());
    assert_eq!(e.col_group_count(), 2);
    assert_eq!(e.col_group_key(0), "winner");
    assert_eq!(e.col_group_label(0), "Winner");
    assert_eq!(e.col_group_key(1), "runner_up");
    assert_eq!(e.col_group_label(1), "Runner Up");
    assert_eq!(members(&e, 0), vec!["Blues", "Greens", "Reds"]);
    assert_eq!(members(&e, 1), vec!["Blues", "Greens", "Reds"]);
    assert!(!e.is_col_group_expanded(0));
    assert!(!e.is_col_group_expanded(1));
}

#[test]
fn empty_data_gives_no_groups_and_empty_members() {
    let e = PivotEngine::new(Vec::new());
    assert_eq!(e.group_count(), 0);
    assert_eq!(e.col_group_count(), 2);
    assert!(members(&e, 0).is_empty());
    assert_eq!(e.group_at_row_slot(0), None);
}

#[test]
fn toggle_row_twice_restores() {
    let mut e = PivotEngine::new(finals());
    assert!(!e.is_row_expanded(1));
    e.toggle_row(1);
    assert!(e.is_row_expanded(1));
    e.toggle_row(1);
    assert!(!e.is_row_expanded(1));
    // any index may be toggled, even one without a group
    e.toggle_row(99);
    assert!(e.is_row_expanded(99));
}

#[test]
fn toggle_col_group_twice_restores_and_ignores_bad_index() {
    let mut e = PivotEngine::new(finals());
    e.toggle_col_group(1);
    assert!(e.is_col_group_expanded(1));
    assert!(!e.is_col_group_expanded(0));
    e.toggle_col_group(1);
    assert!(!e.is_col_group_expanded(1));
    e.toggle_col_group(5);
    assert!(!e.is_col_group_expanded(5));
    assert_eq!(e.col_group_count(), 2);
}

#[test]
fn visible_columns_follow_expansion() {
    let mut e = PivotEngine::new(finals());
    assert_eq!(keys(&e.visible_cols()), vec!["competition", "season", "winner", "runner_up"]);
    e.toggle_col_group(0);
    let v = e.visible_cols();
    assert_eq!(
        keys(&v),
        vec!["competition", "season", "winner", "winner::Blues", "winner::Greens", "winner::Reds", "runner_up"]
    );
    assert_eq!(v[3].label, "Blues");
    assert_eq!(v[3].col_group_idx, Some(0));
    assert_eq!(v[6].col_group_idx, Some(1));
    assert_eq!(v[1].col_group_idx, None);
    // no column list yet: every width slot is 0
    assert!(v.iter().all(|c| c.width_idx == 0));
    assert_eq!(e.get_col_name_at_visible_idx(2), "Winner");
    assert_eq!(e.get_col_name_at_visible_idx(4), "Greens");
    assert_eq!(e.get_col_name_at_visible_idx(7), "");
}

#[test]
fn column_list_and_width_slots() {
    let mut e = PivotEngine::new(finals());
    assert_eq!(e.columns_len(), 0);
    e.compute_columns();
    assert_eq!(e.columns_len(), 10);
    assert_eq!(e.width_idx_for("competition"), 0);
    assert_eq!(e.width_idx_for("season"), 1);
    assert_eq!(e.width_idx_for("winner"), 2);
    assert_eq!(e.width_idx_for("winner::Reds"), 5);
    assert_eq!(e.width_idx_for("runner_up"), 6);
    assert_eq!(e.width_idx_for("runner_up::Greens"), 8);
    assert_eq!(e.width_idx_for("nothing"), 0);
    e.toggle_col_group(1);
    let v = e.visible_cols();
    let slots: Vec<usize> = v.iter().map(|c| c.width_idx).collect();
    assert_eq!(slots, vec![0, 1, 2, 6, 7, 8, 9]);
    assert_eq!(e.col_group_width_slots(1), vec![6, 7, 8, 9]);
    assert_eq!(e.col_group_width_slots(0), vec![2]);
    assert!(e.is_member_column(3));
    assert!(!e.is_member_column(2));
}

#[test]
fn column_labels_and_sample_texts() {
    let mut e = PivotEngine::new(finals());
    e.compute_columns();
    assert_eq!(e.column_label(0), "competition");
    assert_eq!(e.column_label(5), "Reds");
    let r0 = row(&[("winner", "Reds"), ("season", "2010")]);
    assert_eq!(e.column_sample_text(&r0, 5), "1");
    assert_eq!(e.column_sample_text(&r0, 4), "");
    assert_eq!(e.column_sample_text(&r0, 1), "2010");
    assert_eq!(e.column_sample_text(&r0, 0), "");
}

#[test]
fn member_label_stops_at_a_second_separator() {
    let rows = vec![row(&[("winner", "A::B")])];
    let mut e = PivotEngine::new(rows);
    e.compute_columns();
    // columns: competition, season, winner, winner::A::B, runner_up
    assert_eq!(e.columns_len(), 5);
    assert_eq!(e.column_label(3), "A");
    let r = row(&[("winner", "A::B")]);
    assert_eq!(e.column_sample_text(&r, 3), "1");
}

#[test]
fn cell_values_mark_members_and_copy_fields() {
    let e = PivotEngine::new(finals());
    let r = row(&[("winner", "Reds"), ("season", "2010")]);
    let member = |k: &str| VisCol { key: k.to_string(), label: String::new(), width_idx: 0, col_group_idx: Some(0) };
    assert_eq!(e.get_cell_value(&r, &member("winner::Reds")), "●");
    assert_eq!(e.get_cell_value(&r, &member("winner::Blues")), "");
    assert_eq!(e.get_cell_value(&r, &member("runner_up::Reds")), "");
    assert_eq!(e.get_cell_value(&r, &member("season")), "2010");
    assert_eq!(e.get_cell_value(&r, &member("winner")), "Reds");
    assert_eq!(e.get_cell_value(&r, &member("competition")), "");
}

#[test]
fn swapping_two_members_twice_restores_them() {
    let mut e = PivotEngine::new(finals());
    e.compute_columns();
    e.toggle_col_group(0);
    // visible: competition, season, winner, Blues, Greens, Reds, runner_up
    e.swap_visible_columns(3, 5);
    assert_eq!(members(&e, 0), vec!["Reds", "Greens", "Blues"]);
    let v = e.visible_cols();
    assert_eq!(keys(&v)[3], "winner::Reds");
    // each team keeps its own width slot
    assert_eq!(v[3].width_idx, 5);
    assert_eq!(v[5].width_idx, 3);
    e.swap_visible_columns(3, 5);
    assert_eq!(members(&e, 0), vec!["Blues", "Greens", "Reds"]);
}

#[test]
fn swapping_columns_of_two_groups_swaps_the_groups() {
    let mut e = PivotEngine::new(finals());
    e.swap_visible_columns(2, 3);
    assert_eq!(e.col_group_key(0), "runner_up");
    assert_eq!(e.col_group_key(1), "winner");
    assert_eq!(keys(&e.visible_cols()), vec!["competition", "season", "runner_up", "winner"]);
}

#[test]
fn swaps_that_change_nothing() {
    let mut e = PivotEngine::new(finals());
    e.toggle_col_group(0);
    e.swap_visible_columns(0, 3);
    e.swap_visible_columns(3, 3);
    e.swap_visible_columns(1, 3);
    e.swap_visible_columns(3, 70);
    // header and member of one group
    e.swap_visible_columns(2, 3);
    assert_eq!(members(&e, 0), vec!["Blues", "Greens", "Reds"]);
    assert_eq!(e.col_group_key(0), "winner");
}

#[test]
fn row_slots_name_group_rows_only() {
    let mut e = PivotEngine::new(finals());
    // collapsed: slot 0 = Cup, slot 1 = League
    assert_eq!(e.group_at_row_slot(0), Some(0));
    assert_eq!(e.group_at_row_slot(1), Some(1));
    assert_eq!(e.group_at_row_slot(2), None);
    e.toggle_row(0);
    // Cup row, its three rows, then League
    assert_eq!(e.group_at_row_slot(0), Some(0));
    assert_eq!(e.group_at_row_slot(1), None);
    assert_eq!(e.group_at_row_slot(3), None);
    assert_eq!(e.group_at_row_slot(4), Some(1));
    assert_eq!(e.group_at_row_slot(5), None);
}

#[test]
fn update_data_starts_over() {
    let mut e = PivotEngine::new(finals());
    e.toggle_row(0);
    e.toggle_col_group(0);
    e.compute_columns();
    e.update_data(vec![row(&[("competition", "Z"), ("winner", "Solo")])]);
    assert_eq!(e.data_len(), 1);
    assert_eq!(e.group_count(), 1);
    assert!(!e.is_row_expanded(0));
    assert!(!e.is_col_group_expanded(0));
    assert_eq!(e.columns_len(), 0);
    assert_eq!(members(&e, 0), vec!["Solo"]);
    assert!(members(&e, 1).is_empty());
}

#[test]
fn every_row_is_in_exactly_one_group() {
    let e = PivotEngine::new(finals());
    let mut seen = vec![0usize; e.data_len()];
    for g in 0..e.group_count() {
        assert!(!e.group_row_indices(g).is_empty());
        for &i in e.group_row_indices(g) {
            seen[i] += 1;
            let comp = e.row(i).get("competition").cloned().unwrap_or_default();
            assert_eq!(&comp, e.group_competition(g));
        }
    }
    assert!(seen.iter().all(|&c| c == 1));
}

#[test]
fn update_data_matches_a_fresh_engine() {
    let fresh = PivotEngine::new(finals());
    let mut used = PivotEngine::new(vec![row(&[("competition", "Other")])]);
    used.toggle_row(0);
    used.toggle_col_group(1);
    used.update_data(finals());
    assert_eq!(used.group_count(), fresh.group_count());
    for g in 0..fresh.group_count() {
        assert_eq!(used.group_competition(g), fresh.group_competition(g));
        assert_eq!(used.group_row_indices(g), fresh.group_row_indices(g));
        assert_eq!(used.is_row_expanded(g), fresh.is_row_expanded(g));
    }
    for c in 0..2 {
        assert_eq!(members(&used, c), members(&fresh, c));
        assert_eq!(used.is_col_group_expanded(c), fresh.is_col_group_expanded(c));
    }
}

#[test]
fn negative_and_signed_seasons_sort_by_value() {
    let rows = vec![
        row(&[("competition", "C"), ("season", "+3")]),
        row(&[("competition", "C"), ("season", "-12")]),
        row(&[("competition", "C"), ("season", "03")]),
        row(&[("competition", "C"), ("season", "-2")]),
    ];
    let e = PivotEngine::new(rows);
    // -12 < -2 < +3 == 03 (ties keep row order)
    assert_eq!(e.group_row_indices(0), &vec![1, 3, 0, 2]);
}

#[test]
fn group_swap_then_member_swap_keeps_teams() {
    let mut e = PivotEngine::new(finals());
    e.toggle_col_group(1);
    // visible: competition, season, winner, runner_up, Blues, Greens, Reds
    e.swap_visible_columns(2, 5);
    assert_eq!(e.col_group_key(0), "runner_up");
    assert_eq!(e.is_col_group_expanded(0), true);
    assert_eq!(e.get_col_name_at_visible_idx(2), "Runner Up");
    assert_eq!(e.get_col_name_at_visible_idx(3), "Blues");
    assert_eq!(e.get_col_name_at_visible_idx(6), "Winner");
}

#[test]
fn display_row_count_adds_member_rows_of_expanded_groups() {
    let mut e = PivotEngine::new(finals());
    assert_eq!(e.display_row_count(), 2);
    e.toggle_row(0);
    assert_eq!(e.display_row_count(), 5);
    e.toggle_row(1);
    assert_eq!(e.display_row_count(), 7);
    // an index without a group adds nothing
    e.toggle_row(99);
    assert_eq!(e.display_row_count(), 7);
    e.toggle_row(0);
    assert_eq!(e.display_row_count(), 4);
    assert_eq!(PivotEngine::new(Vec::new()).display_row_count(), 0);
}

#[test]
fn measured_visible_columns_each_find_their_own_slot() {
    let mut e = PivotEngine::new(finals());
    e.compute_columns();
    e.toggle_col_group(0);
    e.toggle_col_group(1);
    e.swap_visible_columns(3, 5);
    e.swap_visible_columns(2, 7);
    let v = e.visible_cols();
    assert_eq!(v.len(), 10);
    let mut seen: Vec<usize> = Vec::new();
    for c in &v {
        assert!(c.width_idx < e.columns_len());
        assert_eq!(e.width_idx_for(&c.key), c.width_idx);
        assert!(!seen.contains(&c.width_idx));
        seen.push(c.width_idx);
    }
}

#[test]
fn column_names_are_empty_exactly_past_the_end() {
    let mut e = PivotEngine::new(finals());
    e.toggle_col_group(0);
    e.toggle_col_group(1);
    let n = e.visible_cols().len();
    assert_eq!(n, 10);
    for i in 0..n {
        assert!(!e.get_col_name_at_visible_idx(i).is_empty());
    }
    assert_eq!(e.get_col_name_at_visible_idx(n), "");
    assert_eq!(e.get_col_name_at_visible_idx(n + 5), "");
}

#[test]
fn reload_matches_fresh_load_with_mixed_seasons_across_competitions() {
    let data = || {
        vec![
            row(&[("competition", "A"), ("season", "10"), ("winner", "X")]),
            row(&[("competition", "B"), ("season", "1a"), ("winner", "Y")]),
            row(&[("competition", "A"), ("season", "2"), ("runner_up", "Z")]),
        ]
    };
    let fresh = PivotEngine::new(data());
    let mut used = PivotEngine::new(finals());
    used.toggle_row(1);
    used.toggle_col_group(0);
    used.update_data(data());
    assert_eq!(fresh.group_count(), 2);
    assert_eq!(fresh.group_row_indices(0), &vec![2, 0]);
    assert_eq!(used.group_count(), fresh.group_count());
    for g in 0..fresh.group_count() {
        assert_eq!(used.group_competition(g), fresh.group_competition(g));
        assert_eq!(used.group_row_indices(g), fresh.group_row_indices(g));
        assert!(!used.is_row_expanded(g));
    }
    for c in 0..2 {
        assert_eq!(members(&used, c), members(&fresh, c));
        assert!(!used.is_col_group_expanded(c));
    }
    assert_eq!(used.columns_len(), 0);
}
